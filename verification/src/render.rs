//! The stable reporter: a configuration rendered back into its own
//! textual syntax, entries sorted by key so that equal maps always
//! render to equal text.

use vstd::prelude::*;
use vstd::string::StringExecFns;

use crate::config::{
    lemma_map_of_contains, lemma_map_of_index, lemma_map_of_remove_at, lemma_map_of_same_entries,
    map_of, unique_keys, Config,
};
use crate::text::{lemma_lex_asym, lemma_lex_total, lemma_lex_trans, lex_lt, str_lt};

verus! {

/// The views of a rendered entry sequence.
pub open spec fn entry_views(s: Seq<(String, String)>) -> Seq<(Seq<char>, Seq<char>)> {
    s.map_values(|p: (String, String)| (p.0@, p.1@))
}

/// Entries in strictly ascending key order.
pub open spec fn sorted_strict(s: Seq<(Seq<char>, Seq<char>)>) -> bool {
    forall|i: int, j: int| 0 <= i < j < s.len() ==> lex_lt(s[i].0, s[j].0)
}

/// Strictly sorted entries have pairwise-distinct keys.
pub proof fn lemma_sorted_unique_keys(s: Seq<(Seq<char>, Seq<char>)>)
    requires
        sorted_strict(s),
    ensures
        unique_keys(s),
{
    assert forall|i: int, j: int| 0 <= i < j < s.len() implies s[i].0 != s[j].0 by {
        lemma_lex_asym(s[i].0, s[j].0);
    }
}

/// One rendered entry line: `set <key> <value>` and a line break.
pub open spec fn render_line(kv: (Seq<char>, Seq<char>)) -> Seq<char> {
    seq!['s', 'e', 't', ' '] + kv.0 + seq![' '] + kv.1 + seq!['\n']
}

/// The rendered text of an entry sequence, in order.
pub open spec fn render_entries(s: Seq<(Seq<char>, Seq<char>)>) -> Seq<char>
    decreases s.len(),
{
    if s.len() == 0 {
        Seq::empty()
    } else {
        render_entries(s.drop_last()) + render_line(s.last())
    }
}

/// The one strictly-sorted entry sequence that describes a map.
pub open spec fn spec_sorted_kvs(m: Map<Seq<char>, Seq<char>>) -> Seq<(Seq<char>, Seq<char>)> {
    choose|s: Seq<(Seq<char>, Seq<char>)>| sorted_strict(s) && map_of(s) == m
}

/// The rendered text of a map: its entries in ascending key order.
pub open spec fn spec_render_map(m: Map<Seq<char>, Seq<char>>) -> Seq<char> {
    render_entries(spec_sorted_kvs(m))
}

/// Rendering is deterministic and sorted: two strictly-sorted entry
/// sequences that describe the same map are the same sequence, so a map
/// has exactly one rendering, whatever the insertion order was.
pub proof fn lemma_sorted_rendering_unique(
    s1: Seq<(Seq<char>, Seq<char>)>,
    s2: Seq<(Seq<char>, Seq<char>)>,
)
    requires
        sorted_strict(s1),
        sorted_strict(s2),
        map_of(s1) == map_of(s2),
    ensures
        s1 == s2,
        render_entries(s1) == render_entries(s2),
    decreases s1.len(),
{
    lemma_sorted_unique_keys(s1);
    lemma_sorted_unique_keys(s2);
    if s1.len() == 0 {
        if s2.len() > 0 {
            lemma_map_of_index(s2, 0);
            lemma_map_of_contains(s1, s2[0].0);
        }
        assert(s1 =~= s2);
    } else if s2.len() == 0 {
        lemma_map_of_index(s1, 0);
        lemma_map_of_contains(s2, s1[0].0);
        assert(s1 =~= s2);
    } else {
        let k1 = s1[0].0;
        let k2 = s2[0].0;
        lemma_map_of_index(s1, 0);
        lemma_map_of_index(s2, 0);
        lemma_map_of_contains(s2, k1);
        let j = choose|j: int| 0 <= j < s2.len() && s2[j].0 == k1;
        lemma_map_of_contains(s1, k2);
        let i = choose|i: int| 0 <= i < s1.len() && s1[i].0 == k2;
        assert(k1 == k2) by {
            if j > 0 && i > 0 {
                assert(lex_lt(k2, k1));
                assert(lex_lt(k1, k2));
                lemma_lex_asym(k1, k2);
            }
        }
        assert(s1[0].1 == s2[0].1) by {
            assert(map_of(s1)[k1] == s1[0].1);
            assert(map_of(s2)[k2] == s2[0].1);
        }
        let t1 = s1.drop_first();
        let t2 = s2.drop_first();
        assert(sorted_strict(t1)) by {
            assert(forall|x: int| 0 <= x < t1.len() ==> t1[x] == s1[x + 1]);
        }
        assert(sorted_strict(t2)) by {
            assert(forall|x: int| 0 <= x < t2.len() ==> t2[x] == s2[x + 1]);
        }
        lemma_map_of_remove_at(s1, 0);
        lemma_map_of_remove_at(s2, 0);
        assert(t1 =~= s1.remove(0));
        assert(t2 =~= s2.remove(0));
        assert(map_of(t1) == map_of(s1).remove(k1));
        assert(map_of(t2) == map_of(s2).remove(k1));
        lemma_sorted_rendering_unique(t1, t2);
        assert(s1[0] == s2[0]);
        assert(s1.len() == s2.len());
        assert forall|x: int| 0 <= x < s1.len() implies s1[x] == s2[x] by {
            if x > 0 {
                assert(s1[x] == t1[x - 1]);
                assert(s2[x] == t2[x - 1]);
            }
        }
        assert(s1 =~= s2);
    }
}

/// A member of a prefix is a member of any longer prefix.
proof fn lemma_take_contains(
    s: Seq<(Seq<char>, Seq<char>)>,
    i: int,
    j: int,
    e: (Seq<char>, Seq<char>),
)
    requires
        0 <= i <= j <= s.len(),
        s.take(i).contains(e),
    ensures
        s.take(j).contains(e),
{
    let x = choose|x: int| 0 <= x < i && s.take(i)[x] == e;
    assert(s.take(j)[x] == e);
}

/// The entries of a configuration in strictly ascending key order.
pub fn sorted_entries(cfg: &Config) -> (r: Vec<(String, String)>)
    requires
        cfg.wf(),
    ensures
        sorted_strict(entry_views(r@)),
        map_of(entry_views(r@)) == cfg@,
{
    let mut out: Vec<(String, String)> = Vec::new();
    let n = cfg.len();
    proof {
        assert(entry_views(out@) =~= Seq::<(Seq<char>, Seq<char>)>::empty());
    }
    for i in 0..n
        invariant
            cfg.wf(),
            n == cfg.kvs().len(),
            entry_views(out@).len() == i,
            sorted_strict(entry_views(out@)),
            forall|x: int| 0 <= x < i ==> entry_views(out@).contains(#[trigger] cfg.kvs()[x]),
            forall|x: int| 0 <= x < entry_views(out@).len() ==> cfg.kvs().take(i as int).contains(
                #[trigger] entry_views(out@)[x],
            ),
    {
        let ghost prev = entry_views(out@);
        let k = cfg.key_at(i).clone();
        let v = cfg.val_at(i).clone();
        proof {
            assert forall|x: int| 0 <= x < prev.len() implies cfg.kvs().take(i as int).contains(
                #[trigger] prev[x],
            ) by {
                assert(prev[x] == entry_views(out@)[x]);
            }
        }
        let mut j: usize = 0;
        while j < out.len() && !str_lt(&k, &out[j].0)
            invariant
                cfg.wf(),
                i < n == cfg.kvs().len(),
                k@ == cfg.kvs()[i as int].0,
                prev == entry_views(out@),
                prev.len() == i,
                j <= out.len(),
                out@.len() == prev.len(),
                forall|x: int| 0 <= x < prev.len() ==> cfg.kvs().take(i as int).contains(
                    #[trigger] prev[x],
                ),
                forall|x: int| 0 <= x < j ==> lex_lt(#[trigger] prev[x].0, k@),
            decreases out.len() - j,
        {
            proof {
                assert(prev[j as int] == (out@[j as int].0@, out@[j as int].1@));
                assert(cfg.kvs().take(i as int).contains(prev[j as int]));
                let y = choose|y: int|
                    0 <= y < i && cfg.kvs().take(i as int)[y] == prev[j as int];
                assert(cfg.kvs()[y] == prev[j as int]);
                assert(cfg.kvs()[y].0 != cfg.kvs()[i as int].0);
                lemma_lex_total(k@, prev[j as int].0);
            }
            j = j + 1;
        }
        proof {
            if j < out@.len() {
                assert(prev[j as int] == (out@[j as int].0@, out@[j as int].1@));
                assert(lex_lt(k@, prev[j as int].0));
            }
        }
        let ghost kv = (k@, v@);
        out.insert(j, (k, v));
        proof {
            assert(entry_views(out@) =~= prev.insert(j as int, kv));
            assert(forall|x: int| 0 <= x < j ==> #[trigger] entry_views(out@)[x] == prev[x]);
            assert(entry_views(out@)[j as int] == kv);
            assert(forall|x: int|
                j < x < entry_views(out@).len() ==> #[trigger] entry_views(out@)[x] == prev[x
                    - 1]);
            assert forall|x: int, y: int| 0 <= x < y < entry_views(out@).len() implies lex_lt(
                entry_views(out@)[x].0,
                entry_views(out@)[y].0,
            ) by {
                if y == j {
                    assert(entry_views(out@)[x] == prev[x]);
                    assert(lex_lt(prev[x].0, k@));
                } else if x == j {
                    assert(entry_views(out@)[y] == prev[y - 1]);
                    if y - 1 == j {
                        assert(lex_lt(k@, prev[j as int].0));
                    } else {
                        assert(lex_lt(k@, prev[j as int].0));
                        assert(lex_lt(prev[j as int].0, prev[y - 1].0));
                        lemma_lex_trans(k@, prev[j as int].0, prev[y - 1].0);
                    }
                } else if x < j && y > j {
                    assert(entry_views(out@)[x] == prev[x]);
                    assert(entry_views(out@)[y] == prev[y - 1]);
                    assert(lex_lt(prev[x].0, prev[y - 1].0));
                }
            }
            assert forall|x: int| 0 <= x < i + 1 implies entry_views(out@).contains(
                #[trigger] cfg.kvs()[x],
            ) by {
                if x < i {
                    assert(prev.contains(cfg.kvs()[x]));
                    let p = choose|p: int| 0 <= p < prev.len() && prev[p] == cfg.kvs()[x];
                    if p < j {
                        assert(entry_views(out@)[p] == cfg.kvs()[x]);
                    } else {
                        assert(entry_views(out@)[p + 1] == cfg.kvs()[x]);
                    }
                } else {
                    assert(entry_views(out@)[j as int] == cfg.kvs()[i as int]);
                }
            }
            assert forall|x: int| 0 <= x < entry_views(out@).len() implies cfg.kvs().take(
                i + 1,
            ).contains(#[trigger] entry_views(out@)[x]) by {
                if x < j {
                    assert(entry_views(out@)[x] == prev[x]);
                    lemma_take_contains(cfg.kvs(), i as int, i + 1, prev[x]);
                } else if x == j {
                    assert(cfg.kvs().take(i + 1)[i as int] == kv);
                } else {
                    assert(entry_views(out@)[x] == prev[x - 1]);
                    lemma_take_contains(cfg.kvs(), i as int, i + 1, prev[x - 1]);
                }
            }
        }
    }
    proof {
        let sv = entry_views(out@);
        lemma_sorted_unique_keys(sv);
        assert forall|x: int| 0 <= x < sv.len() implies cfg.kvs().contains(#[trigger] sv[x]) by {
            assert(cfg.kvs().take(n as int).contains(sv[x]));
            let y = choose|y: int| 0 <= y < n && cfg.kvs().take(n as int)[y] == sv[x];
            assert(cfg.kvs()[y] == sv[x]);
        }
        lemma_map_of_same_entries(sv, cfg.kvs());
    }
    out
}

/// Renders a configuration as sorted `set <key> <value>` lines.
pub fn render_config(cfg: &Config) -> (r: String)
    requires
        cfg.wf(),
    ensures
        r@ == spec_render_map(cfg@),
{
    let sorted = sorted_entries(cfg);
    let ghost sv = entry_views(sorted@);
    let mut out = String::new();
    let n = sorted.len();
    proof {
        assert(sv.take(0) =~= Seq::<(Seq<char>, Seq<char>)>::empty());
        assert(out@ =~= render_entries(sv.take(0)));
    }
    for i in 0..n
        invariant
            n == sorted@.len(),
            sv == entry_views(sorted@),
            out@ == render_entries(sv.take(i as int)),
    {
        out.append("set ");
        out.append(sorted[i].0.as_str());
        out.append(" ");
        out.append(sorted[i].1.as_str());
        out.append("\n");
        proof {
            reveal_strlit("set ");
            reveal_strlit(" ");
            reveal_strlit("\n");
            assert("set "@ =~= seq!['s', 'e', 't', ' ']);
            assert(" "@ =~= seq![' ']);
            assert("\n"@ =~= seq!['\n']);
            assert(sv.take(i + 1).drop_last() =~= sv.take(i as int));
            assert(sv.take(i + 1).last() == sv[i as int]);
            assert(sv[i as int] == (sorted@[i as int].0@, sorted@[i as int].1@));
            assert(out@ =~= render_entries(sv.take(i + 1)));
        }
    }
    proof {
        assert(sv.take(n as int) =~= sv);
        assert(exists|s: Seq<(Seq<char>, Seq<char>)>| sorted_strict(s) && map_of(s) == cfg@) by {
            assert(sorted_strict(sv) && map_of(sv) == cfg@);
        }
        lemma_sorted_rendering_unique(spec_sorted_kvs(cfg@), sv);
    }
    out
}

/// The full report: the merged user overrides, the removed settings and
/// the changed settings, each section rendered sorted under an
/// explanatory header and omitted when empty.
pub open spec fn spec_report(
    user: Map<Seq<char>, Seq<char>>,
    removed: Map<Seq<char>, Seq<char>>,
    changed: Map<Seq<char>, Seq<char>>,
) -> Seq<char> {
    (if user == Map::<Seq<char>, Seq<char>>::empty() {
        Seq::<char>::empty()
    } else {
        "// Merged user config:\n"@ + spec_render_map(user)
    }) + (if removed == Map::<Seq<char>, Seq<char>>::empty() {
        Seq::<char>::empty()
    } else {
        "\n// These settings were in the old Falcon BMS.cfg but not the new.\n// They might be unused in the new version of BMS,\n// or maybe you set them! Clean up any you don't want.\n"@
            + spec_render_map(removed)
    }) + (if changed == Map::<Seq<char>, Seq<char>>::empty() {
        Seq::<char>::empty()
    } else {
        "\n// These settings were changed from the old Falcon BMS.cfg to the new.\n// DELETE THEM IF YOU DIDN'T SET THEM YOURSELF!\n// (If you didn't, there's probably a reason they changed.)\n"@
            + spec_render_map(changed)
    })
}

/// Renders the three report sections.
pub fn render_report(user: &Config, removed: &Config, changed: &Config) -> (r: String)
    requires
        user.wf(),
        removed.wf(),
        changed.wf(),
    ensures
        r@ == spec_report(user@, removed@, changed@),
{
    let mut out = String::new();
    if !user.is_empty() {
        out.append("// Merged user config:\n");
        let body = render_config(user);
        out.append(body.as_str());
    }
    if !removed.is_empty() {
        out.append(
            "\n// These settings were in the old Falcon BMS.cfg but not the new.\n// They might be unused in the new version of BMS,\n// or maybe you set them! Clean up any you don't want.\n",
        );
        let body = render_config(removed);
        out.append(body.as_str());
    }
    if !changed.is_empty() {
        out.append(
            "\n// These settings were changed from the old Falcon BMS.cfg to the new.\n// DELETE THEM IF YOU DIDN'T SET THEM YOURSELF!\n// (If you didn't, there's probably a reason they changed.)\n",
        );
        let body = render_config(changed);
        out.append(body.as_str());
    }
    proof {
        assert(out@ =~= spec_report(user@, removed@, changed@));
    }
    out
}

} // verus!
