//! Merging the old and new user-override configurations into one.
//!
//! Every key of either override survives; on a conflict the new value
//! wins. A conflict with differing values is reported as a trace, never
//! as an error: user settings are expected to evolve between versions.

use vstd::prelude::*;

use crate::config::{lemma_map_of_contains, map_of, Config};

verus! {

/// A user setting whose value differs between the old and new overrides.
pub struct MergeTrace {
    pub key: String,
    pub old_value: String,
    pub new_value: String,
}

impl View for MergeTrace {
    type V = (Seq<char>, Seq<char>, Seq<char>);

    open spec fn view(&self) -> (Seq<char>, Seq<char>, Seq<char>) {
        (self.key@, self.old_value@, self.new_value@)
    }
}

pub open spec fn merge_trace_views(ts: Seq<MergeTrace>) -> Seq<(Seq<char>, Seq<char>, Seq<char>)> {
    ts.map_values(|t: MergeTrace| t@)
}

/// The traces merging produces: one per entry of the new overrides whose
/// key the old overrides bind to a different value, in entry order.
pub open spec fn spec_merge_traces(
    old_m: Map<Seq<char>, Seq<char>>,
    new_kvs: Seq<(Seq<char>, Seq<char>)>,
) -> Seq<(Seq<char>, Seq<char>, Seq<char>)>
    decreases new_kvs.len(),
{
    if new_kvs.len() == 0 {
        Seq::empty()
    } else {
        let rest = spec_merge_traces(old_m, new_kvs.drop_last());
        let kv = new_kvs.last();
        if old_m.contains_key(kv.0) && old_m[kv.0] != kv.1 {
            rest.push((kv.0, old_m[kv.0], kv.1))
        } else {
            rest
        }
    }
}

/// Combines the two user-override configurations; the new value wins on
/// a key conflict, and each conflict with differing values is traced.
pub fn merge_user(old: &Config, new: &Config) -> (r: (Config, Vec<MergeTrace>))
    requires
        old.wf(),
        new.wf(),
    ensures
        r.0.wf(),
        r.0@ == old@.union_prefer_right(new@),
        merge_trace_views(r.1@) == spec_merge_traces(old@, new.kvs()),
{
    let mut merged = old.duplicate();
    let mut traces: Vec<MergeTrace> = Vec::new();
    let n = new.len();
    proof {
        assert(new.kvs().take(0) =~= Seq::<(Seq<char>, Seq<char>)>::empty());
        assert(merged@ =~= old@.union_prefer_right(map_of(new.kvs().take(0))));
        assert(merge_trace_views(traces@) =~= spec_merge_traces(old@, new.kvs().take(0)));
    }
    for i in 0..n
        invariant
            old.wf(),
            new.wf(),
            merged.wf(),
            n == new.kvs().len(),
            merged@ == old@.union_prefer_right(map_of(new.kvs().take(i as int))),
            merge_trace_views(traces@) == spec_merge_traces(old@, new.kvs().take(i as int)),
    {
        let ghost prefix = new.kvs().take(i as int);
        let ghost prev_traces = merge_trace_views(traces@);
        let k = new.key_at(i);
        let ghost kk = new.kvs()[i as int].0;
        proof {
            assert(new.kvs().take(i + 1).drop_last() =~= prefix);
            assert(new.kvs().take(i + 1).last() == new.kvs()[i as int]);
            lemma_map_of_contains(prefix, kk);
            if exists|x: int| 0 <= x < prefix.len() && prefix[x].0 == kk {
                let x = choose|x: int| 0 <= x < prefix.len() && prefix[x].0 == kk;
                assert(new.kvs()[x].0 == kk);
            }
            assert(!map_of(prefix).contains_key(kk));
        }
        let prev: Option<String> = match merged.get(k) {
            Some(p) => Some(p.clone()),
            None => None,
        };
        let key = k.clone();
        let value = new.val_at(i).clone();
        merged.insert(key, value);
        proof {
            assert(merged@ =~= old@.union_prefer_right(map_of(new.kvs().take(i + 1)))) by {
                assert(map_of(new.kvs().take(i + 1)) == map_of(prefix).insert(
                    new.kvs()[i as int].0,
                    new.kvs()[i as int].1,
                ));
            }
        }
        match prev {
            Some(pv) => {
                if pv == *new.val_at(i) {
                    proof {
                        assert(merge_trace_views(traces@) =~= spec_merge_traces(
                            old@,
                            new.kvs().take(i + 1),
                        ));
                    }
                } else {
                    let trace = MergeTrace {
                        key: k.clone(),
                        old_value: pv,
                        new_value: new.val_at(i).clone(),
                    };
                    traces.push(trace);
                    proof {
                        assert(merge_trace_views(traces@) =~= prev_traces.push(
                            (kk, old@[kk], new.kvs()[i as int].1),
                        ));
                    }
                }
            },
            None => {
                proof {
                    assert(merge_trace_views(traces@) =~= spec_merge_traces(
                        old@,
                        new.kvs().take(i + 1),
                    ));
                }
            },
        }
    }
    proof {
        assert(new.kvs().take(n as int) =~= new.kvs());
    }
    (merged, traces)
}

} // verus!
