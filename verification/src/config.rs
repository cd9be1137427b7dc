//! The flat string-to-string configuration map.
//!
//! A [`Config`] stores its entries as a vector of `(key, value)` string
//! pairs with pairwise-distinct keys, and is abstracted in contracts as a
//! `Map<Seq<char>, Seq<char>>` where a later entry would win — with unique
//! keys the order of entries is irrelevant to the map.

use vstd::prelude::*;

verus! {

/// The map described by an association sequence: later entries win.
pub open spec fn map_of(s: Seq<(Seq<char>, Seq<char>)>) -> Map<Seq<char>, Seq<char>>
    decreases s.len(),
{
    if s.len() == 0 {
        Map::empty()
    } else {
        map_of(s.drop_last()).insert(s.last().0, s.last().1)
    }
}

/// No key occurs twice in the association sequence.
pub open spec fn unique_keys(s: Seq<(Seq<char>, Seq<char>)>) -> bool {
    forall|i: int, j: int| 0 <= i < j < s.len() ==> s[i].0 != s[j].0
}

/// A key of `map_of(s)` is exactly a key of some entry.
pub proof fn lemma_map_of_contains(s: Seq<(Seq<char>, Seq<char>)>, k: Seq<char>)
    ensures
        map_of(s).contains_key(k) <==> exists|i: int| 0 <= i < s.len() && s[i].0 == k,
    decreases s.len(),
{
    if s.len() > 0 {
        lemma_map_of_contains(s.drop_last(), k);
        if s.last().0 == k {
            assert(s[s.len() - 1].0 == k);
        } else {
            if map_of(s).contains_key(k) {
                let i = choose|i: int| 0 <= i < s.drop_last().len() && s.drop_last()[i].0 == k;
                assert(s[i].0 == k);
            }
            if exists|i: int| 0 <= i < s.len() && s[i].0 == k {
                let i = choose|i: int| 0 <= i < s.len() && s[i].0 == k;
                assert(i < s.len() - 1);
                assert(s.drop_last()[i].0 == k);
            }
        }
    }
}

/// With unique keys, each entry is reflected verbatim in the map.
pub proof fn lemma_map_of_index(s: Seq<(Seq<char>, Seq<char>)>, i: int)
    requires
        unique_keys(s),
        0 <= i < s.len(),
    ensures
        map_of(s).contains_key(s[i].0),
        map_of(s)[s[i].0] == s[i].1,
    decreases s.len(),
{
    if i == s.len() - 1 {
        assert(map_of(s) == map_of(s.drop_last()).insert(s.last().0, s.last().1));
    } else {
        assert(s.drop_last()[i] == s[i]);
        assert(unique_keys(s.drop_last())) by {
            assert(forall|x: int, y: int|
                0 <= x < y < s.drop_last().len() ==> s.drop_last()[x] == s[x] && s.drop_last()[y]
                    == s[y]);
        }
        lemma_map_of_index(s.drop_last(), i);
        assert(s[i].0 != s.last().0);
    }
}

/// Two association sequences with unique keys and the same entries (as a
/// set of pairs) describe the same map.
pub proof fn lemma_map_of_same_entries(s1: Seq<(Seq<char>, Seq<char>)>, s2: Seq<(Seq<char>, Seq<char>)>)
    requires
        unique_keys(s1),
        unique_keys(s2),
        forall|i: int| 0 <= i < s1.len() ==> #[trigger] s2.contains(s1[i]),
        forall|i: int| 0 <= i < s2.len() ==> #[trigger] s1.contains(s2[i]),
    ensures
        map_of(s1) == map_of(s2),
{
    assert forall|k: Seq<char>| map_of(s1).contains_key(k) == map_of(s2).contains_key(k) by {
        lemma_map_of_contains(s1, k);
        lemma_map_of_contains(s2, k);
        if exists|i: int| 0 <= i < s1.len() && s1[i].0 == k {
            let i = choose|i: int| 0 <= i < s1.len() && s1[i].0 == k;
            assert(s2.contains(s1[i]));
        }
        if exists|i: int| 0 <= i < s2.len() && s2[i].0 == k {
            let i = choose|i: int| 0 <= i < s2.len() && s2[i].0 == k;
            assert(s1.contains(s2[i]));
        }
    }
    assert forall|k: Seq<char>| map_of(s1).contains_key(k) implies map_of(s1)[k] == map_of(s2)[k] by {
        lemma_map_of_contains(s1, k);
        let i = choose|i: int| 0 <= i < s1.len() && s1[i].0 == k;
        lemma_map_of_index(s1, i);
        assert(s2.contains(s1[i]));
        let j = choose|j: int| 0 <= j < s2.len() && s2[j] == s1[i];
        lemma_map_of_index(s2, j);
    }
    assert(map_of(s1) =~= map_of(s2));
}

/// A flat configuration: setting names mapped to raw string values.
pub struct Config {
    entries: Vec<(String, String)>,
}

impl View for Config {
    type V = Map<Seq<char>, Seq<char>>;

    open spec fn view(&self) -> Map<Seq<char>, Seq<char>> {
        map_of(self.kvs())
    }
}

impl Config {
    /// The stored entries, as character sequences, in storage order.
    pub closed spec fn kvs(&self) -> Seq<(Seq<char>, Seq<char>)> {
        self.entries@.map_values(|p: (String, String)| (p.0@, p.1@))
    }

    /// Well-formedness: no key is stored twice.
    pub open spec fn wf(&self) -> bool {
        unique_keys(self.kvs())
    }

    /// The empty configuration.
    pub fn new() -> (r: Config)
        ensures
            r.wf(),
            r@ == Map::<Seq<char>, Seq<char>>::empty(),
            r.kvs() == Seq::<(Seq<char>, Seq<char>)>::empty(),
    {
        let r = Config { entries: Vec::new() };
        proof {
            assert(r.kvs() =~= Seq::<(Seq<char>, Seq<char>)>::empty());
        }
        r
    }

    /// How many entries are stored.
    pub fn len(&self) -> (n: usize)
        ensures
            n == self.kvs().len(),
    {
        self.entries.len()
    }

    /// True exactly when the configuration holds no setting.
    pub fn is_empty(&self) -> (r: bool)
        ensures
            r <==> self@ == Map::<Seq<char>, Seq<char>>::empty(),
    {
        let r = self.entries.len() == 0;
        proof {
            if r {
                assert(self.kvs().len() == 0);
            } else {
                lemma_map_of_contains(self.kvs(), self.kvs()[0].0);
                assert(self@.contains_key(self.kvs()[0].0));
            }
        }
        r
    }

    /// The key of the entry at a storage position.
    pub fn key_at(&self, i: usize) -> (k: &String)
        requires
            i < self.kvs().len(),
        ensures
            k@ == self.kvs()[i as int].0,
    {
        &self.entries[i].0
    }

    /// The value of the entry at a storage position.
    pub fn val_at(&self, i: usize) -> (v: &String)
        requires
            i < self.kvs().len(),
        ensures
            v@ == self.kvs()[i as int].1,
    {
        &self.entries[i].1
    }

    /// The storage position of a key, if the key is present.
    fn idx_of(&self, key: &String) -> (r: Option<usize>)
        ensures
            match r {
                Some(i) => i < self.kvs().len() && self.kvs()[i as int].0 == key@,
                None => forall|i: int| 0 <= i < self.kvs().len() ==> self.kvs()[i].0 != key@,
            },
    {
        let n = self.entries.len();
        for i in 0..n
            invariant
                n == self.kvs().len(),
                forall|j: int| 0 <= j < i ==> self.kvs()[j].0 != key@,
        {
            if self.entries[i].0 == *key {
                return Some(i);
            }
        }
        None
    }

    /// Looks a key up, as the abstract map does.
    pub fn get(&self, key: &String) -> (r: Option<&String>)
        requires
            self.wf(),
        ensures
            match r {
                Some(v) => self@.contains_key(key@) && v@ == self@[key@],
                None => !self@.contains_key(key@),
            },
    {
        proof {
            lemma_map_of_contains(self.kvs(), key@);
        }
        match self.idx_of(key) {
            Some(i) => {
                proof {
                    lemma_map_of_index(self.kvs(), i as int);
                }
                Some(&self.entries[i].1)
            },
            None => None,
        }
    }

    /// Binds `key` to `value`, overwriting any earlier binding; reports
    /// whether the key was already present.
    pub fn insert(&mut self, key: String, value: String) -> (had: bool)
        requires
            old(self).wf(),
        ensures
            final(self).wf(),
            final(self)@ == old(self)@.insert(key@, value@),
            had <==> old(self)@.contains_key(key@),
    {
        proof {
            lemma_map_of_contains(self.kvs(), key@);
        }
        let ghost old_kvs = self.kvs();
        match self.idx_of(&key) {
            Some(i) => {
                let ghost kv = (key@, value@);
                self.entries[i] = (key, value);
                proof {
                    assert(self.kvs() =~= old_kvs.update(i as int, kv));
                    lemma_map_of_update(old_kvs, i as int, kv.1);
                }
                true
            },
            None => {
                self.entries.push((key, value));
                proof {
                    assert(self.kvs() =~= old_kvs.push((key@, value@)));
                    assert(self.kvs().drop_last() =~= old_kvs);
                }
                false
            },
        }
    }

    /// Unbinds a key; reports whether it was present.
    pub fn remove(&mut self, key: &String) -> (had: bool)
        requires
            old(self).wf(),
        ensures
            final(self).wf(),
            final(self)@ == old(self)@.remove(key@),
            had <==> old(self)@.contains_key(key@),
    {
        proof {
            lemma_map_of_contains(self.kvs(), key@);
        }
        let ghost old_kvs = self.kvs();
        match self.idx_of(key) {
            Some(i) => {
                self.entries.remove(i);
                proof {
                    assert(self.kvs() =~= old_kvs.remove(i as int));
                    lemma_map_of_remove_at(old_kvs, i as int);
                }
                true
            },
            None => {
                proof {
                    assert forall|k: Seq<char>|
                        map_of(old_kvs).contains_key(k) == map_of(old_kvs).remove(
                            key@,
                        ).contains_key(k) by {
                        if k == key@ {
                            lemma_map_of_contains(old_kvs, k);
                        }
                    }
                    assert(map_of(old_kvs) =~= map_of(old_kvs).remove(key@));
                }
                false
            },
        }
    }

    /// A copy with the same entries in the same order.
    pub fn duplicate(&self) -> (r: Config)
        ensures
            r.kvs() == self.kvs(),
            r@ == self@,
            r.wf() == self.wf(),
    {
        let n = self.entries.len();
        let mut entries: Vec<(String, String)> = Vec::new();
        for i in 0..n
            invariant
                n == self.entries@.len(),
                entries@.len() == i,
                forall|j: int| 0 <= j < i ==> #[trigger] entries@[j] == self.entries@[j],
        {
            let k = self.entries[i].0.clone();
            let v = self.entries[i].1.clone();
            entries.push((k, v));
            proof {
                assert(entries@.last() == self.entries@[i as int]);
            }
        }
        let r = Config { entries };
        proof {
            assert(r.kvs() =~= self.kvs());
        }
        r
    }
}

/// Overwriting the unique entry of a key updates the map at that key.
pub proof fn lemma_map_of_update(s: Seq<(Seq<char>, Seq<char>)>, i: int, v: Seq<char>)
    requires
        unique_keys(s),
        0 <= i < s.len(),
    ensures
        unique_keys(s.update(i, (s[i].0, v))),
        map_of(s.update(i, (s[i].0, v))) == map_of(s).insert(s[i].0, v),
    decreases s.len(),
{
    let t = s.update(i, (s[i].0, v));
    assert(unique_keys(t)) by {
        assert(forall|x: int| 0 <= x < s.len() ==> t[x].0 == s[x].0);
    }
    if i == s.len() - 1 {
        assert(t.drop_last() =~= s.drop_last());
        assert(map_of(t) == map_of(s.drop_last()).insert(s[i].0, v));
        assert(map_of(s).insert(s[i].0, v) =~= map_of(s.drop_last()).insert(s[i].0, v));
    } else {
        assert(unique_keys(s.drop_last())) by {
            assert(forall|x: int| 0 <= x < s.len() - 1 ==> s.drop_last()[x] == s[x]);
        }
        assert(s.drop_last()[i] == s[i]);
        lemma_map_of_update(s.drop_last(), i, v);
        assert(t.drop_last() =~= s.drop_last().update(i, (s[i].0, v)));
        assert(t.last() == s.last());
        assert(map_of(t) == map_of(s.drop_last()).insert(s[i].0, v).insert(s.last().0, s.last().1));
        assert(s[i].0 != s.last().0);
        assert(map_of(s.drop_last()).insert(s[i].0, v).insert(s.last().0, s.last().1) =~= map_of(
            s.drop_last(),
        ).insert(s.last().0, s.last().1).insert(s[i].0, v));
    }
}

/// Dropping the unique entry of a key removes that key from the map.
pub proof fn lemma_map_of_remove_at(s: Seq<(Seq<char>, Seq<char>)>, i: int)
    requires
        unique_keys(s),
        0 <= i < s.len(),
    ensures
        unique_keys(s.remove(i)),
        map_of(s.remove(i)) == map_of(s).remove(s[i].0),
    decreases s.len(),
{
    let t = s.remove(i);
    assert(unique_keys(t)) by {
        assert(forall|x: int| 0 <= x < t.len() ==> t[x] == (if x < i {
            s[x]
        } else {
            s[x + 1]
        }));
    }
    if i == s.len() - 1 {
        assert(t =~= s.drop_last());
        let k = s[i].0;
        lemma_map_of_contains(s.drop_last(), k);
        assert(!map_of(s.drop_last()).contains_key(k)) by {
            if exists|x: int| 0 <= x < s.drop_last().len() && s.drop_last()[x].0 == k {
                let x = choose|x: int| 0 <= x < s.drop_last().len() && s.drop_last()[x].0 == k;
                assert(s[x].0 == k);
            }
        }
        assert(map_of(s) == map_of(s.drop_last()).insert(s.last().0, s.last().1));
        assert(map_of(s).remove(k) =~= map_of(s.drop_last()));
    } else {
        assert(unique_keys(s.drop_last())) by {
            assert(forall|y: int| 0 <= y < s.len() - 1 ==> s.drop_last()[y] == s[y]);
        }
        assert(s.drop_last()[i] == s[i]);
        lemma_map_of_remove_at(s.drop_last(), i);
        assert(t.drop_last() =~= s.drop_last().remove(i));
        assert(t.last() == s.last());
        assert(map_of(t) == map_of(s.drop_last()).remove(s[i].0).insert(s.last().0, s.last().1));
        assert(s[i].0 != s.last().0);
        assert(map_of(s.drop_last()).remove(s[i].0).insert(s.last().0, s.last().1) =~= map_of(
            s.drop_last(),
        ).insert(s.last().0, s.last().1).remove(s[i].0));
    }
}

} // verus!
