//! Classifying the differences between the old and new base
//! configurations, and scrubbing user-overridden keys out of the result.
//!
//! Every key of the old base is visited: a key the new base binds to a
//! different value goes to `changed` (with its old value), a key the new
//! base lacks goes to `removed` (with its old value). Keys only the new
//! base has are not reported. Scrubbing then drops every key of the
//! merged user overrides from both sets: a user override makes the
//! base-level change moot.

use vstd::prelude::*;

use crate::config::{lemma_map_of_contains, map_of, Config};

verus! {

/// The keys of the old base that the new base binds to a different
/// value, each with its old value.
pub open spec fn changed_of(
    old_m: Map<Seq<char>, Seq<char>>,
    new_m: Map<Seq<char>, Seq<char>>,
) -> Map<Seq<char>, Seq<char>> {
    Map::new(
        |k: Seq<char>| old_m.contains_key(k) && new_m.contains_key(k) && old_m[k] != new_m[k],
        |k: Seq<char>| old_m[k],
    )
}

/// The keys of the old base that the new base lacks, with their values.
pub open spec fn removed_of(
    old_m: Map<Seq<char>, Seq<char>>,
    new_m: Map<Seq<char>, Seq<char>>,
) -> Map<Seq<char>, Seq<char>> {
    Map::new(
        |k: Seq<char>| old_m.contains_key(k) && !new_m.contains_key(k),
        |k: Seq<char>| old_m[k],
    )
}

/// No key is classified as both changed and removed.
pub proof fn lemma_diff_disjoint(old_m: Map<Seq<char>, Seq<char>>, new_m: Map<Seq<char>, Seq<char>>)
    ensures
        forall|k: Seq<char>|
            !(changed_of(old_m, new_m).contains_key(k) && removed_of(old_m, new_m).contains_key(k)),
{
}

/// The two classified sets of base settings.
pub struct ChangeSet {
    pub changed: Config,
    pub removed: Config,
}

impl ChangeSet {
    pub open spec fn wf(&self) -> bool {
        self.changed.wf() && self.removed.wf()
    }
}

/// A changed base setting: its key, old value and new value, traced in
/// old-base entry order.
pub struct DiffTrace {
    pub key: String,
    pub old_value: String,
    pub new_value: String,
}

impl View for DiffTrace {
    type V = (Seq<char>, Seq<char>, Seq<char>);

    open spec fn view(&self) -> (Seq<char>, Seq<char>, Seq<char>) {
        (self.key@, self.old_value@, self.new_value@)
    }
}

pub open spec fn diff_trace_views(ts: Seq<DiffTrace>) -> Seq<(Seq<char>, Seq<char>, Seq<char>)> {
    ts.map_values(|t: DiffTrace| t@)
}

/// The traces classification produces: one per old-base entry whose key
/// the new base binds to a different value, in entry order.
pub open spec fn spec_diff_traces(
    old_kvs: Seq<(Seq<char>, Seq<char>)>,
    new_m: Map<Seq<char>, Seq<char>>,
) -> Seq<(Seq<char>, Seq<char>, Seq<char>)>
    decreases old_kvs.len(),
{
    if old_kvs.len() == 0 {
        Seq::empty()
    } else {
        let rest = spec_diff_traces(old_kvs.drop_last(), new_m);
        let kv = old_kvs.last();
        if new_m.contains_key(kv.0) && new_m[kv.0] != kv.1 {
            rest.push((kv.0, kv.1, new_m[kv.0]))
        } else {
            rest
        }
    }
}

/// Partitions the old base against the new base into changed and
/// removed settings.
pub fn diff_bases(old: &Config, new: &Config) -> (r: (ChangeSet, Vec<DiffTrace>))
    requires
        old.wf(),
        new.wf(),
    ensures
        r.0.wf(),
        r.0.changed@ == changed_of(old@, new@),
        r.0.removed@ == removed_of(old@, new@),
        diff_trace_views(r.1@) == spec_diff_traces(old.kvs(), new@),
{
    let mut changed = Config::new();
    let mut removed = Config::new();
    let mut traces: Vec<DiffTrace> = Vec::new();
    let n = old.len();
    proof {
        assert(old.kvs().take(0) =~= Seq::<(Seq<char>, Seq<char>)>::empty());
        assert(changed@ =~= changed_of(map_of(old.kvs().take(0)), new@));
        assert(removed@ =~= removed_of(map_of(old.kvs().take(0)), new@));
        assert(diff_trace_views(traces@) =~= spec_diff_traces(old.kvs().take(0), new@));
    }
    for i in 0..n
        invariant
            old.wf(),
            new.wf(),
            changed.wf(),
            removed.wf(),
            n == old.kvs().len(),
            changed@ == changed_of(map_of(old.kvs().take(i as int)), new@),
            removed@ == removed_of(map_of(old.kvs().take(i as int)), new@),
            diff_trace_views(traces@) == spec_diff_traces(old.kvs().take(i as int), new@),
    {
        let ghost prefix = old.kvs().take(i as int);
        let ghost prev_traces = diff_trace_views(traces@);
        let ghost kk = old.kvs()[i as int].0;
        let ghost vv = old.kvs()[i as int].1;
        proof {
            assert(old.kvs().take(i + 1).drop_last() =~= prefix);
            assert(old.kvs().take(i + 1).last() == old.kvs()[i as int]);
            lemma_map_of_contains(prefix, kk);
            if exists|x: int| 0 <= x < prefix.len() && prefix[x].0 == kk {
                let x = choose|x: int| 0 <= x < prefix.len() && prefix[x].0 == kk;
                assert(old.kvs()[x].0 == kk);
            }
            assert(!map_of(prefix).contains_key(kk));
            assert(map_of(old.kvs().take(i + 1)) == map_of(prefix).insert(kk, vv));
        }
        let k = old.key_at(i);
        let v = old.val_at(i);
        match new.get(k) {
            Some(nv) => {
                if *v == *nv {
                    proof {
                        assert(changed@ =~= changed_of(map_of(old.kvs().take(i + 1)), new@));
                        assert(removed@ =~= removed_of(map_of(old.kvs().take(i + 1)), new@));
                        assert(diff_trace_views(traces@) =~= spec_diff_traces(
                            old.kvs().take(i + 1),
                            new@,
                        ));
                    }
                } else {
                    let trace = DiffTrace {
                        key: k.clone(),
                        old_value: v.clone(),
                        new_value: nv.clone(),
                    };
                    changed.insert(k.clone(), v.clone());
                    traces.push(trace);
                    proof {
                        assert(changed@ =~= changed_of(map_of(old.kvs().take(i + 1)), new@));
                        assert(removed@ =~= removed_of(map_of(old.kvs().take(i + 1)), new@));
                        assert(diff_trace_views(traces@) =~= prev_traces.push((kk, vv, new@[kk])));
                    }
                }
            },
            None => {
                removed.insert(k.clone(), v.clone());
                proof {
                    assert(changed@ =~= changed_of(map_of(old.kvs().take(i + 1)), new@));
                    assert(removed@ =~= removed_of(map_of(old.kvs().take(i + 1)), new@));
                    assert(diff_trace_views(traces@) =~= spec_diff_traces(
                        old.kvs().take(i + 1),
                        new@,
                    ));
                }
            },
        }
    }
    proof {
        assert(old.kvs().take(n as int) =~= old.kvs());
    }
    (ChangeSet { changed, removed }, traces)
}

/// A base-level change ignored because the user overrides its key.
pub struct ScrubTrace {
    pub key: String,
}

impl View for ScrubTrace {
    type V = Seq<char>;

    open spec fn view(&self) -> Seq<char> {
        self.key@
    }
}

pub open spec fn scrub_trace_views(ts: Seq<ScrubTrace>) -> Seq<Seq<char>> {
    ts.map_values(|t: ScrubTrace| t@)
}

/// The traces scrubbing produces: one per user-override entry whose key
/// stood in either classified set, in entry order.
pub open spec fn spec_scrub_traces(
    user_kvs: Seq<(Seq<char>, Seq<char>)>,
    changed: Map<Seq<char>, Seq<char>>,
    removed: Map<Seq<char>, Seq<char>>,
) -> Seq<Seq<char>>
    decreases user_kvs.len(),
{
    if user_kvs.len() == 0 {
        Seq::empty()
    } else {
        let rest = spec_scrub_traces(user_kvs.drop_last(), changed, removed);
        let k = user_kvs.last().0;
        if changed.contains_key(k) || removed.contains_key(k) {
            rest.push(k)
        } else {
            rest
        }
    }
}

/// Drops every user-overridden key from both classified sets.
pub fn scrub(cs: ChangeSet, user: &Config) -> (r: (ChangeSet, Vec<ScrubTrace>))
    requires
        cs.wf(),
        user.wf(),
    ensures
        r.0.wf(),
        r.0.changed@ == cs.changed@.remove_keys(user@.dom()),
        r.0.removed@ == cs.removed@.remove_keys(user@.dom()),
        scrub_trace_views(r.1@) == spec_scrub_traces(user.kvs(), cs.changed@, cs.removed@),
{
    let ChangeSet { mut changed, mut removed } = cs;
    let ghost changed0 = changed@;
    let ghost removed0 = removed@;
    let mut traces: Vec<ScrubTrace> = Vec::new();
    let n = user.len();
    proof {
        assert(user.kvs().take(0) =~= Seq::<(Seq<char>, Seq<char>)>::empty());
        assert(changed@ =~= changed0.remove_keys(map_of(user.kvs().take(0)).dom()));
        assert(removed@ =~= removed0.remove_keys(map_of(user.kvs().take(0)).dom()));
        assert(scrub_trace_views(traces@) =~= spec_scrub_traces(
            user.kvs().take(0),
            changed0,
            removed0,
        ));
    }
    for i in 0..n
        invariant
            user.wf(),
            changed.wf(),
            removed.wf(),
            n == user.kvs().len(),
            changed@ == changed0.remove_keys(map_of(user.kvs().take(i as int)).dom()),
            removed@ == removed0.remove_keys(map_of(user.kvs().take(i as int)).dom()),
            scrub_trace_views(traces@) == spec_scrub_traces(
                user.kvs().take(i as int),
                changed0,
                removed0,
            ),
    {
        let ghost prefix = user.kvs().take(i as int);
        let ghost prev_traces = scrub_trace_views(traces@);
        let ghost kk = user.kvs()[i as int].0;
        proof {
            assert(user.kvs().take(i + 1).drop_last() =~= prefix);
            assert(user.kvs().take(i + 1).last() == user.kvs()[i as int]);
            lemma_map_of_contains(prefix, kk);
            if exists|x: int| 0 <= x < prefix.len() && prefix[x].0 == kk {
                let x = choose|x: int| 0 <= x < prefix.len() && prefix[x].0 == kk;
                assert(user.kvs()[x].0 == kk);
            }
            assert(!map_of(prefix).contains_key(kk));
            assert(map_of(user.kvs().take(i + 1)) == map_of(prefix).insert(
                kk,
                user.kvs()[i as int].1,
            ));
        }
        let k = user.key_at(i);
        let was_changed = changed.remove(k);
        let was_removed = removed.remove(k);
        proof {
            assert(changed@ =~= changed0.remove_keys(map_of(user.kvs().take(i + 1)).dom()));
            assert(removed@ =~= removed0.remove_keys(map_of(user.kvs().take(i + 1)).dom()));
        }
        if was_changed || was_removed {
            let trace = ScrubTrace { key: k.clone() };
            traces.push(trace);
            proof {
                assert(scrub_trace_views(traces@) =~= prev_traces.push(kk));
            }
        } else {
            proof {
                assert(scrub_trace_views(traces@) =~= spec_scrub_traces(
                    user.kvs().take(i + 1),
                    changed0,
                    removed0,
                ));
            }
        }
    }
    proof {
        assert(user.kvs().take(n as int) =~= user.kvs());
    }
    (ChangeSet { changed, removed }, traces)
}

/// Which keys are traced by scrubbing: exactly the user-override keys
/// that stood in either classified set.
pub proof fn lemma_scrub_traces_contains(
    user_kvs: Seq<(Seq<char>, Seq<char>)>,
    changed: Map<Seq<char>, Seq<char>>,
    removed: Map<Seq<char>, Seq<char>>,
    k: Seq<char>,
)
    ensures
        spec_scrub_traces(user_kvs, changed, removed).contains(k) <==> ((exists|i: int|
            0 <= i < user_kvs.len() && user_kvs[i].0 == k) && (changed.contains_key(k)
            || removed.contains_key(k))),
    decreases user_kvs.len(),
{
    let t = spec_scrub_traces(user_kvs, changed, removed);
    if user_kvs.len() > 0 {
        let rest = spec_scrub_traces(user_kvs.drop_last(), changed, removed);
        lemma_scrub_traces_contains(user_kvs.drop_last(), changed, removed, k);
        let kk = user_kvs.last().0;
        assert(forall|i: int|
            0 <= i < user_kvs.len() - 1 ==> #[trigger] user_kvs.drop_last()[i]
                == user_kvs[i]);
        if changed.contains_key(kk) || removed.contains_key(kk) {
            assert(t == rest.push(kk));
            if t.contains(k) {
                let x = choose|x: int| 0 <= x < t.len() && t[x] == k;
                if x < rest.len() {
                    assert(rest[x] == k);
                    assert(rest.contains(k));
                } else {
                    assert(k == kk);
                    assert(user_kvs[user_kvs.len() - 1].0 == k);
                }
            }
            if (exists|i: int| 0 <= i < user_kvs.len() && user_kvs[i].0 == k) && (
            changed.contains_key(k) || removed.contains_key(k)) {
                let i = choose|i: int| 0 <= i < user_kvs.len() && user_kvs[i].0 == k;
                if i < user_kvs.len() - 1 {
                    assert(user_kvs.drop_last()[i].0 == k);
                    assert(rest.contains(k));
                    let x = choose|x: int| 0 <= x < rest.len() && rest[x] == k;
                    assert(t[x] == k);
                } else {
                    assert(t[t.len() - 1] == k);
                }
            }
        } else {
            assert(t == rest);
            if t.contains(k) {
                assert(k != kk || !(changed.contains_key(k) || removed.contains_key(k)));
            }
            if (exists|i: int| 0 <= i < user_kvs.len() && user_kvs[i].0 == k) && (
            changed.contains_key(k) || removed.contains_key(k)) {
                let i = choose|i: int| 0 <= i < user_kvs.len() && user_kvs[i].0 == k;
                assert(i < user_kvs.len() - 1);
                assert(user_kvs.drop_last()[i].0 == k);
            }
        }
    }
}

/// After scrubbing, no reported key is also a user-overridden key.
pub proof fn lemma_scrub_disjoint(
    m: Map<Seq<char>, Seq<char>>,
    user: Map<Seq<char>, Seq<char>>,
)
    ensures
        forall|k: Seq<char>|
            user.contains_key(k) ==> !m.remove_keys(user.dom()).contains_key(k),
{
}

/// Scrubbing is idempotent: scrubbing a second time changes nothing.
pub proof fn lemma_scrub_idempotent(
    m: Map<Seq<char>, Seq<char>>,
    user: Map<Seq<char>, Seq<char>>,
)
    ensures
        m.remove_keys(user.dom()).remove_keys(user.dom()) == m.remove_keys(user.dom()),
{
    assert(m.remove_keys(user.dom()).remove_keys(user.dom()) =~= m.remove_keys(user.dom()));
}

} // verus!
