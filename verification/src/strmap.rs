//! A map from strings to values, kept in increasing key order (the order in
//! which a `BTreeMap<String, V>` lists its entries).

use vstd::prelude::*;
use crate::text::{lemma_lex_irrefl, lemma_lex_total, lemma_lex_trans, lex_lt, str_lt};

verus! {

/// Keys are strictly increasing.
pub open spec fn keys_sorted<V>(s: Seq<(Seq<char>, V)>) -> bool {
    forall|i: int, j: int| 0 <= i < j < s.len() ==> lex_lt(s[i].0, s[j].0)
}

/// The value of the first entry with key `k`.
pub open spec fn lookup<V>(s: Seq<(Seq<char>, V)>, k: Seq<char>) -> Option<V>
    decreases s.len(),
{
    if s.len() == 0 {
        None
    } else if s[0].0 == k {
        Some(s[0].1)
    } else {
        lookup(s.drop_first(), k)
    }
}

/// `lookup` finds exactly the keys present.
pub proof fn lemma_lookup<V>(s: Seq<(Seq<char>, V)>, k: Seq<char>)
    ensures
        lookup(s, k) is Some <==> exists|i: int| 0 <= i < s.len() && s[i].0 == k,
    decreases s.len(),
{
    if s.len() > 0 {
        lemma_lookup(s.drop_first(), k);
        if s[0].0 != k {
            if exists|i: int| 0 <= i < s.len() && s[i].0 == k {
                let i = choose|i: int| 0 <= i < s.len() && s[i].0 == k;
                assert(s.drop_first()[i - 1].0 == k);
            }
            if exists|i: int| 0 <= i < s.drop_first().len() && s.drop_first()[i].0 == k {
                let i = choose|i: int| 0 <= i < s.drop_first().len() && s.drop_first()[i].0 == k;
                assert(s[i + 1].0 == k);
            }
        }
    }
}

/// `lookup` gives the value of the first entry holding the key.
pub proof fn lemma_lookup_first<V>(s: Seq<(Seq<char>, V)>, k: Seq<char>, i: int)
    requires
        0 <= i < s.len(),
        s[i].0 == k,
        forall|j: int| 0 <= j < i ==> s[j].0 != k,
    ensures
        lookup(s, k) == Some(s[i].1),
    decreases i,
{
    if i > 0 {
        assert forall|j: int| 0 <= j < i - 1 implies s.drop_first()[j].0 != k by {
            assert(s.drop_first()[j] == s[j + 1]);
        }
        lemma_lookup_first(s.drop_first(), k, i - 1);
    }
}

/// What `lookup` finds is an entry of the map.
pub proof fn lemma_lookup_entry<V>(s: Seq<(Seq<char>, V)>, k: Seq<char>)
    ensures
        lookup(s, k) matches Some(v) ==> exists|i: int| 0 <= i < s.len() && s[i] == (k, v),
    decreases s.len(),
{
    if s.len() > 0 && s[0].0 != k {
        lemma_lookup_entry(s.drop_first(), k);
        if lookup(s, k) is Some {
            let v = lookup(s, k)->Some_0;
            let i = choose|i: int| 0 <= i < s.drop_first().len() && s.drop_first()[i] == (k, v);
            assert(s[i + 1] == (k, v));
        }
    } else if s.len() > 0 {
        assert(s[0] == (k, s[0].1));
    }
}

/// In a map with sorted keys, every entry is what `lookup` finds.
pub proof fn lemma_lookup_sorted<V>(s: Seq<(Seq<char>, V)>, i: int)
    requires
        keys_sorted(s),
        0 <= i < s.len(),
    ensures
        lookup(s, s[i].0) == Some(s[i].1),
{
    assert forall|j: int| 0 <= j < i implies s[j].0 != s[i].0 by {
        lemma_lex_irrefl(s[i].0);
    }
    lemma_lookup_first(s, s[i].0, i);
}

/// Changing the value of one entry does not change what `lookup` finds for
/// other keys.
pub proof fn lemma_lookup_update<V>(s: Seq<(Seq<char>, V)>, i: int, v: V, k: Seq<char>)
    requires
        0 <= i < s.len(),
        s[i].0 != k,
    ensures
        lookup(s.update(i, (s[i].0, v)), k) == lookup(s, k),
    decreases s.len(),
{
    let t = s.update(i, (s[i].0, v));
    if i > 0 {
        assert(t.drop_first() =~= s.drop_first().update(i - 1, (s[i].0, v)));
        lemma_lookup_update(s.drop_first(), i - 1, v, k);
    } else {
        assert(t.drop_first() =~= s.drop_first());
    }
}

/// The value of the last pair with key `k`.
pub open spec fn last_value<V>(s: Seq<(Seq<char>, V)>, k: Seq<char>) -> Option<V>
    decreases s.len(),
{
    if s.len() == 0 {
        None
    } else if s.last().0 == k {
        Some(s.last().1)
    } else {
        last_value(s.drop_last(), k)
    }
}

/// A `BTreeMap<String, V>`-like map: entries in strictly increasing key
/// order.
pub struct StrMap<V> {
    entries: Vec<(String, V)>,
}

impl<V> StrMap<V> {
    /// The entries, keys as character sequences, in increasing key order.
    pub closed spec fn seq(&self) -> Seq<(Seq<char>, V)> {
        self.entries@.map_values(|e: (String, V)| (e.0@, e.1))
    }

    /// The value stored under `k`.
    pub open spec fn get_spec(&self, k: Seq<char>) -> Option<V> {
        lookup(self.seq(), k)
    }

    /// The entries are in strictly increasing key order.
    #[verifier::type_invariant]
    pub open spec fn wf(&self) -> bool {
        keys_sorted(self.seq())
    }

    /// An empty map.
    pub fn new() -> (r: Self)
        ensures
            r.seq() == Seq::<(Seq<char>, V)>::empty(),
    {
        let r = StrMap { entries: Vec::new() };
        assert(r.seq() =~= Seq::<(Seq<char>, V)>::empty());
        r
    }

    /// A map of the given pairs; a later pair replaces an earlier one with
    /// the same key.
    pub fn from_pairs(pairs: Vec<(String, V)>) -> (r: Self)
        ensures
            forall|k: Seq<char>|
                #[trigger] r.get_spec(k) == last_value(
                    pairs@.map_values(|p: (String, V)| (p.0@, p.1)),
                    k,
                ),
    {
        let ghost ps = pairs@.map_values(|p: (String, V)| (p.0@, p.1));
        let mut r = StrMap::new();
        proof {
            assert forall|k: Seq<char>| #[trigger] r.get_spec(k) == last_value(ps.take(0), k) by {
                assert(ps.take(0).len() == 0);
            }
        }
        let ghost mut n: int = 0;
        for p in it: pairs
            invariant
                n == it.index(),
                ps == it.seq().map_values(|p: (String, V)| (p.0@, p.1)),
                forall|k: Seq<char>| #[trigger] r.get_spec(k) == last_value(ps.take(n), k),
        {
            let ghost old_r = r.seq();
            let ghost key = p.0@;
            let ghost val = p.1;
            r.insert(p.0, p.1);
            proof {
                assert(ps.take(n + 1).drop_last() =~= ps.take(n));
                assert(ps[n] == (key, val));
                assert forall|k: Seq<char>| #[trigger] r.get_spec(k) == last_value(
                    ps.take(n + 1),
                    k,
                ) by {
                    assert(ps.take(n + 1).last() == (key, val));
                }
                n = n + 1;
            }
        }
        proof {
            assert(ps.take(n) =~= ps);
        }
        r
    }

    /// The entries, in increasing key order.
    pub fn into_pairs(self) -> (r: Vec<(String, V)>)
        ensures
            r@.map_values(|e: (String, V)| (e.0@, e.1)) == self.seq(),
    {
        self.entries
    }

    /// The number of entries.
    pub fn len(&self) -> (r: usize)
        ensures
            r == self.seq().len(),
    {
        self.entries.len()
    }

    /// Whether the map is empty.
    pub fn is_empty(&self) -> (r: bool)
        ensures
            r == (self.seq().len() == 0),
    {
        self.entries.len() == 0
    }

    /// The `i`-th entry in key order.
    pub fn entry(&self, i: usize) -> (r: (&String, &V))
        requires
            i < self.seq().len(),
        ensures
            r.0@ == self.seq()[i as int].0,
            *r.1 == self.seq()[i as int].1,
    {
        let e = &self.entries[i];
        (&e.0, &e.1)
    }

    /// The value stored under `key`.
    pub fn get(&self, key: &str) -> (r: Option<&V>)
        ensures
            match r {
                Some(v) => self.get_spec(key@) == Some(*v),
                None => self.get_spec(key@) is None,
            },
    {
        proof {
            use_type_invariant(self);
            lemma_lookup(self.seq(), key@);
        }
        let k = key.to_owned();
        let mut i: usize = 0;
        while i < self.entries.len()
            invariant
                i <= self.seq().len(),
                self.seq().len() == self.entries@.len(),
                forall|j: int| 0 <= j < i ==> self.seq()[j].0 != key@,
                k@ == key@,
                keys_sorted(self.seq()),
            decreases self.seq().len() - i,
        {
            let e = &self.entries[i];
            if e.0 == k {
                assert(self.seq()[i as int].0 == key@);
                proof {
                    lemma_lookup_sorted(self.seq(), i as int);
                }
                return Some(&e.1);
            }
            i += 1;
        }
        None
    }

    /// The position of `key`, if present.
    pub fn index_of(&self, key: &str) -> (r: Option<usize>)
        ensures
            match r {
                Some(i) => i < self.seq().len() && self.seq()[i as int].0 == key@,
                None => forall|i: int| 0 <= i < self.seq().len() ==> self.seq()[i].0 != key@,
            },
    {
        let k = key.to_owned();
        let mut i: usize = 0;
        while i < self.entries.len()
            invariant
                i <= self.seq().len(),
                self.seq().len() == self.entries@.len(),
                forall|j: int| 0 <= j < i ==> self.seq()[j].0 != key@,
                k@ == key@,
            decreases self.seq().len() - i,
        {
            if self.entries[i].0 == k {
                return Some(i);
            }
            i += 1;
        }
        None
    }

    /// Puts `value` in place of the value of the `i`-th entry, and returns
    /// the value it held.
    pub fn replace_value(&mut self, i: usize, value: V) -> (r: V)
        requires
            i < old(self).seq().len(),
        ensures
            r == old(self).seq()[i as int].1,
            final(self).seq() == old(self).seq().update(i as int, (old(self).seq()[i as int].0, value)),
            forall|k: Seq<char>|
                #[trigger] final(self).get_spec(k) == if k == old(self).seq()[i as int].0 {
                    Some(value)
                } else {
                    old(self).get_spec(k)
                },
    {
        proof {
            use_type_invariant(&*self);
        }
        let mut v = value;
        let ghost s0 = self.seq();
        let mut entries: Vec<(String, V)> = Vec::new();
        std::mem::swap(&mut entries, &mut self.entries);
        assert(s0 == entries@.map_values(|e: (String, V)| (e.0@, e.1)));
        let (k, old_v) = entries.remove(i);
        entries.insert(i, (k, v));
        let ghost s1 = entries@.map_values(|e: (String, V)| (e.0@, e.1));
        assert(s1 =~= s0.update(i as int, (s0[i as int].0, value)));
        assert forall|a: int, b: int| 0 <= a < b < s1.len() implies lex_lt(s1[a].0, s1[b].0) by {
            assert(s1[a].0 == s0[a].0);
            assert(s1[b].0 == s0[b].0);
        }
        self.entries = entries;
        assert(self.seq() == s1);
        proof {
            assert forall|k: Seq<char>|
                #[trigger] lookup(s1, k) == if k == s0[i as int].0 {
                    Some(value)
                } else {
                    lookup(s0, k)
                } by {
                if k == s0[i as int].0 {
                    lemma_lookup_sorted(s1, i as int);
                } else {
                    lemma_lookup_update(s0, i as int, value, k);
                }
            }
        }
        old_v
    }

    /// Stores `value` under `key`, replacing any earlier value.
    pub fn insert(&mut self, key: String, value: V)
        ensures
            forall|k: Seq<char>|
                #[trigger] final(self).get_spec(k) == if k == key@ {
                    Some(value)
                } else {
                    old(self).get_spec(k)
                },
            forall|i: int|
                0 <= i < final(self).seq().len() ==> #[trigger] final(self).seq()[i] == (key@, value)
                    || exists|j: int|
                    0 <= j < old(self).seq().len() && old(self).seq()[j] == final(self).seq()[i],
    {
        proof {
            use_type_invariant(&*self);
        }
        let ghost s0 = self.seq();
        let mut p: usize = 0;
        while p < self.entries.len() && str_lt(self.entries[p].0.as_str(), key.as_str())
            invariant
                p <= s0.len(),
                s0 == self.seq(),
                s0.len() == self.entries@.len(),
                forall|j: int| 0 <= j < p ==> lex_lt(#[trigger] s0[j].0, key@),
            decreases s0.len() - p,
        {
            p += 1;
        }
        let mut entries: Vec<(String, V)> = Vec::new();
        std::mem::swap(&mut entries, &mut self.entries);
        let ghost e0 = entries@;
        assert(s0 == e0.map_values(|e: (String, V)| (e.0@, e.1)));
        let same = p < entries.len() && entries[p].0 == key;
        if same {
            entries.set(p, (key, value));
        } else {
            entries.insert(p, (key, value));
        }
        let ghost s1 = entries@.map_values(|e: (String, V)| (e.0@, e.1));
        proof {
            if same {
                assert(s1 =~= s0.update(p as int, (key@, value)));
                assert forall|i: int, j: int| 0 <= i < j < s1.len() implies lex_lt(
                    s1[i].0,
                    s1[j].0,
                ) by {
                    assert(s1[i].0 == s0[i].0);
                    assert(s1[j].0 == s0[j].0);
                }
            } else {
                assert(s1 =~= s0.insert(p as int, (key@, value)));
                if p < s0.len() {
                    lemma_lex_total(s0[p as int].0, key@);
                }
                assert forall|i: int, j: int| 0 <= i < j < s1.len() implies lex_lt(
                    s1[i].0,
                    s1[j].0,
                ) by {
                    if j < p {
                    } else if j == p {
                    } else if i < p {
                        lemma_lex_trans(s0[i].0, key@, s0[p as int].0);
                        if j - 1 > p {
                            lemma_lex_trans(s0[i].0, s0[p as int].0, s0[j - 1].0);
                        }
                    } else if i == p {
                        if j - 1 > p {
                            lemma_lex_trans(key@, s0[p as int].0, s0[j - 1].0);
                        }
                    } else {
                    }
                }
            }
            assert forall|k: Seq<char>|
                lookup(s1, k) == if k == key@ {
                    Some(value)
                } else {
                    lookup(s0, k)
                } by {
                lemma_lookup(s1, k);
                lemma_lookup(s0, k);
                if k == key@ {
                    lemma_lookup_sorted(s1, p as int);
                } else {
                    if exists|i: int| 0 <= i < s0.len() && s0[i].0 == k {
                        let i = choose|i: int| 0 <= i < s0.len() && s0[i].0 == k;
                        lemma_lookup_sorted(s0, i);
                        let i1 = if i < p || same {
                            i
                        } else {
                            i + 1
                        };
                        assert(s1[i1] == s0[i]);
                        lemma_lookup_sorted(s1, i1);
                    } else {
                        assert forall|i: int| 0 <= i < s1.len() implies s1[i].0 != k by {
                            if i < p || (same && i != p) {
                                assert(s1[i] == s0[i]);
                            } else if i > p {
                                assert(s1[i] == s0[i - 1]);
                            }
                        }
                    }
                }
            }
        }
        self.entries = entries;
        assert(self.seq() == s1);
        proof {
            assert forall|i: int|
                0 <= i < s1.len() implies #[trigger] s1[i] == (key@, value) || exists|j: int|
                    0 <= j < s0.len() && s0[j] == s1[i] by {
                if same {
                    if i != p {
                        assert(s0[i] == s1[i]);
                    }
                } else {
                    if i < p {
                        assert(s0[i] == s1[i]);
                    } else if i > p {
                        assert(s0[i - 1] == s1[i]);
                    }
                }
            }
        }
    }
}

} // verus!
