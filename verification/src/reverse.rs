//! The reverse map accumulated while collecting: for every source file and
//! line, the set of tests that executed it; and the executable-line sets.

use vstd::prelude::*;
use crate::sorted::{elems, insert_sorted, strictly_sorted};
use crate::strmap::{lookup, StrMap};
use crate::database::{AboveThreshold, SourceFile};
use crate::sample::{is_sorted_of, sample_sorted, sample_spec};
use crate::text::{dec, dec_string, lemma_dec_injective, push_char, push_dec};
use crate::util::{fnv1a_u64, fnv_spec};
use vstd::string::StringSliceAdditionalSpecFns;

verus! {

/// Accumulator for the per-file executable-line set (union of every test's
/// LCOV `DA` records).
pub struct ExecutableMap(StrMap<Vec<u32>>);

/// Every value holds a strictly increasing vector.
pub open spec fn exec_wf(s: Seq<(Seq<char>, Vec<u32>)>) -> bool {
    forall|i: int| 0 <= i < s.len() ==> strictly_sorted(#[trigger] s[i].1@)
}

/// The executable lines recorded for `f`.
pub open spec fn exec_lines_of(s: Seq<(Seq<char>, Vec<u32>)>, f: Seq<char>) -> Set<u32> {
    match lookup(s, f) {
        Some(v) => elems(v@),
        None => Set::empty(),
    }
}

impl ExecutableMap {
    /// The files and their executable lines, in path order.
    pub closed spec fn seq(&self) -> Seq<(Seq<char>, Vec<u32>)> {
        self.0.seq()
    }

    #[verifier::type_invariant]
    pub closed spec fn wf(&self) -> bool {
        exec_wf(self.0.seq())
    }

    /// An empty map.
    pub fn new() -> (r: Self)
        ensures
            r.seq() == Seq::<(Seq<char>, Vec<u32>)>::empty(),
    {
        ExecutableMap(StrMap::new())
    }

    /// Adds `lines` to the executable lines of `rel_path`.
    pub fn record(&mut self, rel_path: &str, lines: &[u32])
        ensures
            forall|f: Seq<char>|
                #[trigger] exec_lines_of(final(self).seq(), f) == if f == rel_path@ {
                    exec_lines_of(old(self).seq(), f).union(elems(lines@))
                } else {
                    exec_lines_of(old(self).seq(), f)
                },
            forall|f: Seq<char>|
                (lookup(final(self).seq(), f) is Some) <==> (lookup(old(self).seq(), f) is Some
                    || f == rel_path@),
    {
        proof {
            use_type_invariant(&*self);
        }
        let ghost s0 = self.0.seq();
        let mut m: StrMap<Vec<u32>> = StrMap::new();
        std::mem::swap(&mut m, &mut self.0);
        assert(m.seq() == s0);
        proof {
            use_type_invariant(&m);
        }
        let (idx, mut set) = match m.index_of(rel_path) {
            Some(i) => {
                let ghost before = m.seq();
                let v = m.replace_value(i, Vec::new());
                proof {
                    assert forall|k: Seq<char>| k != rel_path@ implies lookup(m.seq(), k) == lookup(
                        s0,
                        k,
                    ) by {
                        assert(m.get_spec(k) == lookup(m.seq(), k));
                    }
                }
                (Some(i), v)
            },
            None => (None, Vec::new()),
        };
        let ghost start = set@;
        proof {
            crate::strmap::lemma_lookup(s0, rel_path@);
            match idx {
                Some(i) => {
                    crate::strmap::lemma_lookup_sorted(s0, i as int);
                    assert(strictly_sorted(s0[i as int].1@));
                },
                None => {},
            }
        }
        let mut j: usize = 0;
        while j < lines.len()
            invariant
                j <= lines@.len(),
                strictly_sorted(set@),
                elems(set@) == elems(start).union(elems(lines@.take(j as int))),
            decreases lines@.len() - j,
        {
            insert_sorted(&mut set, lines[j]);
            proof {
                assert(lines@.take(j + 1) =~= lines@.take(j as int).push(lines@[j as int]));
                assert(elems(lines@.take(j + 1)) =~= elems(lines@.take(j as int)).insert(
                    lines@[j as int],
                )) by {
                    let t0 = lines@.take(j as int);
                    let t1 = lines@.take(j + 1);
                    assert forall|y: u32| t1.contains(y) <==> (t0.contains(y) || y == lines@[j as int]) by {
                        if t1.contains(y) {
                            let k = choose|k: int| 0 <= k < t1.len() && t1[k] == y;
                            if k < t0.len() {
                                assert(t0[k] == y);
                            }
                        }
                        if t0.contains(y) {
                            let k = choose|k: int| 0 <= k < t0.len() && t0[k] == y;
                            assert(t1[k] == y);
                        }
                        if y == lines@[j as int] {
                            assert(t1[t0.len() as int] == y);
                        }
                    }
                }
                assert(elems(set@) =~= elems(start).union(elems(lines@.take(j + 1))));
            }
            j += 1;
        }
        assert(lines@.take(lines@.len() as int) =~= lines@);
        let ghost s1 = m.seq();
        let ghost final_set = set;
        match idx {
            Some(i) => {
                m.replace_value(i, set);
                proof {
                    let s2 = m.seq();
                    assert forall|k: int| 0 <= k < s2.len() implies strictly_sorted(
                        #[trigger] s2[k].1@,
                    ) by {
                        if k != i {
                            assert(s2[k] == s0[k]);
                        }
                    }
                }
            },
            None => {
                m.insert(rel_path.to_owned(), set);
                proof {
                    let s2 = m.seq();
                    assert forall|k: int| 0 <= k < s2.len() implies strictly_sorted(
                        #[trigger] s2[k].1@,
                    ) by {
                        if s2[k] != (rel_path@, final_set) {
                            let j = choose|j: int| 0 <= j < s0.len() && s0[j] == s2[k];
                        }
                    }
                    assert(elems(start) =~= Set::<u32>::empty());
                }
            },
        }
        let ghost s2 = m.seq();
        proof {
            assert forall|k: Seq<char>|
                lookup(s2, k) == if k == rel_path@ {
                    Some(final_set)
                } else {
                    lookup(s1, k)
                } by {
                assert(m.get_spec(k) == lookup(s2, k));
            }
            assert forall|k: Seq<char>| k != rel_path@ implies lookup(s1, k) == lookup(s0, k) by {}
        }
        self.0 = m;
        proof {
            assert forall|f: Seq<char>|
                (lookup(s2, f) is Some) <==> (lookup(s0, f) is Some || f == rel_path@) by {}
            assert forall|f: Seq<char>|
                #[trigger] exec_lines_of(s2, f) == if f == rel_path@ {
                    exec_lines_of(s0, f).union(elems(lines@))
                } else {
                    exec_lines_of(s0, f)
                } by {
                if f == rel_path@ {
                    match idx {
                        Some(i) => {},
                        None => {
                            assert(exec_lines_of(s0, f) =~= Set::<u32>::empty());
                            assert(elems(final_set@) =~= exec_lines_of(s0, f).union(elems(lines@)));
                        },
                    }
                }
            }
        }
    }

    /// Read-only view of the per-file executable-line sets.
    pub fn lines(&self) -> (r: &StrMap<Vec<u32>>)
        ensures
            r.seq() == self.seq(),
    {
        &self.0
    }
}


// ---------------------------------------------------------------------------
// Reverse map
// ---------------------------------------------------------------------------

/// The test list of the first entry for line `l`.
pub open spec fn line_lookup(inner: Seq<(u32, Vec<u32>)>, l: u32) -> Option<Vec<u32>>
    decreases inner.len(),
{
    if inner.len() == 0 {
        None
    } else if inner[0].0 == l {
        Some(inner[0].1)
    } else {
        line_lookup(inner.drop_first(), l)
    }
}

/// Lines strictly increasing; each test list strictly increasing and not
/// empty.
pub open spec fn inner_wf(inner: Seq<(u32, Vec<u32>)>) -> bool {
    &&& forall|i: int, j: int| 0 <= i < j < inner.len() ==> inner[i].0 < inner[j].0
    &&& forall|i: int|
        0 <= i < inner.len() ==> strictly_sorted(#[trigger] inner[i].1@) && inner[i].1@.len() > 0
}

/// The tests recorded for line `l` of a file's entries.
pub open spec fn line_tests(inner: Seq<(u32, Vec<u32>)>, l: u32) -> Set<u32> {
    match line_lookup(inner, l) {
        Some(v) => elems(v@),
        None => Set::empty(),
    }
}

/// Every file's entries are well formed.
pub open spec fn rm_wf(s: Seq<(Seq<char>, Vec<(u32, Vec<u32>)>)>) -> bool {
    forall|i: int| 0 <= i < s.len() ==> inner_wf(#[trigger] s[i].1@)
}

/// The tests recorded for line `l` of file `f`.
pub open spec fn tests_of(s: Seq<(Seq<char>, Vec<(u32, Vec<u32>)>)>, f: Seq<char>, l: u32) -> Set<
    u32,
> {
    match lookup(s, f) {
        Some(inner) => line_tests(inner@, l),
        None => Set::empty(),
    }
}

/// `line_lookup` finds the entry holding a line, in strictly increasing
/// entries.
proof fn lemma_line_lookup_at(inner: Seq<(u32, Vec<u32>)>, i: int)
    requires
        0 <= i < inner.len(),
        forall|a: int, b: int| 0 <= a < b < inner.len() ==> inner[a].0 < inner[b].0,
    ensures
        line_lookup(inner, inner[i].0) == Some(inner[i].1),
    decreases i,
{
    if i > 0 {
        assert(inner[0].0 < inner[i].0);
        let t = inner.drop_first();
        assert forall|a: int, b: int| 0 <= a < b < t.len() implies t[a].0 < t[b].0 by {
            assert(t[a] == inner[a + 1] && t[b] == inner[b + 1]);
        }
        lemma_line_lookup_at(t, i - 1);
    }
}

/// `line_lookup` finds nothing for a line no entry holds.
proof fn lemma_line_lookup_none(inner: Seq<(u32, Vec<u32>)>, l: u32)
    requires
        forall|i: int| 0 <= i < inner.len() ==> inner[i].0 != l,
    ensures
        line_lookup(inner, l) is None,
    decreases inner.len(),
{
    if inner.len() > 0 {
        let t = inner.drop_first();
        assert forall|i: int| 0 <= i < t.len() implies t[i].0 != l by {
            assert(t[i] == inner[i + 1]);
        }
        lemma_line_lookup_none(t, l);
    }
}

/// Adds `test` to the tests of line `line` in a file's entries.
fn record_line(inner: &mut Vec<(u32, Vec<u32>)>, line: u32, test: u32)
    requires
        inner_wf(old(inner)@),
    ensures
        inner_wf(final(inner)@),
        forall|l: u32|
            #[trigger] line_tests(final(inner)@, l) == if l == line {
                line_tests(old(inner)@, l).insert(test)
            } else {
                line_tests(old(inner)@, l)
            },
        forall|i: int|
            0 <= i < final(inner)@.len() ==> (#[trigger] final(inner)@[i]).0 == line || exists|j: int|
                0 <= j < old(inner)@.len() && old(inner)@[j].0 == final(inner)@[i].0,
{
    let ghost s0 = inner@;
    let mut p = inner.len();
    while p > 0 && inner[p - 1].0 > line
        invariant
            p <= inner@.len(),
            inner@ == s0,
            forall|k: int| p <= k < inner@.len() ==> inner@[k].0 > line,
        decreases p,
    {
        p -= 1;
    }
    if p > 0 && inner[p - 1].0 == line {
        let q = p - 1;
        let (l0, mut tests) = inner.remove(q);
        let ghost t0 = tests@;
        insert_sorted(&mut tests, test);
        inner.insert(q, (l0, tests));
        proof {
            let s1 = inner@;
            assert(s1 =~= s0.update(q as int, (line, tests)));
            assert forall|a: int, b: int| 0 <= a < b < s1.len() implies s1[a].0 < s1[b].0 by {
                assert(s1[a].0 == s0[a].0 && s1[b].0 == s0[b].0);
            }
            assert forall|i: int| 0 <= i < s1.len() implies strictly_sorted(
                #[trigger] s1[i].1@,
            ) && s1[i].1@.len() > 0 by {
                if i != q {
                    assert(s1[i] == s0[i]);
                } else {
                    assert(elems(tests@).contains(test));
                }
            }
            lemma_line_lookup_at(s0, q as int);
            lemma_line_lookup_at(s1, q as int);
            assert forall|l: u32|
                #[trigger] line_tests(s1, l) == if l == line {
                    line_tests(s0, l).insert(test)
                } else {
                    line_tests(s0, l)
                } by {
                if l != line {
                    if exists|i: int| 0 <= i < s0.len() && s0[i].0 == l {
                        let i = choose|i: int| 0 <= i < s0.len() && s0[i].0 == l;
                        lemma_line_lookup_at(s0, i);
                        assert(s1[i] == s0[i]);
                        lemma_line_lookup_at(s1, i);
                    } else {
                        lemma_line_lookup_none(s0, l);
                        assert forall|i: int| 0 <= i < s1.len() implies s1[i].0 != l by {
                            assert(s1[i].0 == s0[i].0);
                        }
                        lemma_line_lookup_none(s1, l);
                    }
                }
            }
            assert forall|i: int| 0 <= i < s1.len() implies (#[trigger] s1[i]).0 == line || exists|
                j: int,
            | 0 <= j < s0.len() && s0[j].0 == s1[i].0 by {
                assert(s1[i].0 == s0[i].0);
            }
        }
    } else {
        let mut tests: Vec<u32> = Vec::new();
        tests.push(test);
        let ghost tv = tests;
        inner.insert(p, (line, tests));
        proof {
            let s1 = inner@;
            assert(s1 =~= s0.insert(p as int, (line, tv)));
            assert forall|a: int, b: int| 0 <= a < b < s1.len() implies s1[a].0 < s1[b].0 by {
                if a < p && b > p {
                    assert(s1[a] == s0[a] && s1[b] == s0[b - 1]);
                } else if a < p && b == p {
                    assert(s1[a] == s0[a]);
                    if p > 0 {
                        assert(s0[a].0 <= s0[p - 1].0);
                    }
                } else if a == p {
                    assert(s1[b] == s0[b - 1]);
                } else if a > p {
                    assert(s1[a] == s0[a - 1] && s1[b] == s0[b - 1]);
                }
            }
            assert forall|i: int| 0 <= i < s1.len() implies strictly_sorted(
                #[trigger] s1[i].1@,
            ) && s1[i].1@.len() > 0 by {
                if i < p {
                    assert(s1[i] == s0[i]);
                } else if i > p {
                    assert(s1[i] == s0[i - 1]);
                }
            }
            assert forall|i: int| 0 <= i < s0.len() implies s0[i].0 != line by {
                if i < p {
                    if p > 0 {
                        assert(s0[i].0 <= s0[p - 1].0);
                    }
                }
            }
            lemma_line_lookup_none(s0, line);
            lemma_line_lookup_at(s1, p as int);
            assert(elems(tv@) =~= Set::<u32>::empty().insert(test)) by {
                assert(tv@ =~= seq![test]);
                assert forall|y: u32| tv@.contains(y) <==> y == test by {
                    if y == test {
                        assert(tv@[0] == test);
                    }
                }
            }
            assert forall|l: u32|
                #[trigger] line_tests(s1, l) == if l == line {
                    line_tests(s0, l).insert(test)
                } else {
                    line_tests(s0, l)
                } by {
                if l != line {
                    if exists|i: int| 0 <= i < s0.len() && s0[i].0 == l {
                        let i = choose|i: int| 0 <= i < s0.len() && s0[i].0 == l;
                        lemma_line_lookup_at(s0, i);
                        let i1 = if i < p {
                            i
                        } else {
                            i + 1
                        };
                        assert(s1[i1] == s0[i]);
                        lemma_line_lookup_at(s1, i1);
                    } else {
                        lemma_line_lookup_none(s0, l);
                        assert forall|i: int| 0 <= i < s1.len() implies s1[i].0 != l by {
                            if i < p {
                                assert(s1[i] == s0[i]);
                            } else if i > p {
                                assert(s1[i] == s0[i - 1]);
                            }
                        }
                        lemma_line_lookup_none(s1, l);
                    }
                }
            }
            assert forall|i: int| 0 <= i < s1.len() implies (#[trigger] s1[i]).0 == line || exists|
                j: int,
            | 0 <= j < s0.len() && s0[j].0 == s1[i].0 by {
                if i < p {
                    assert(s1[i] == s0[i]);
                } else if i > p {
                    assert(s1[i] == s0[i - 1]);
                }
            }
        }
    }
}

/// The effect of one `record` call with `call = (file, line, test)` on the
/// map's entries: that line of that file gains the test, every other line
/// keeps its tests, and the file is present afterwards.
pub open spec fn record_step(
    before: Seq<(Seq<char>, Vec<(u32, Vec<u32>)>)>,
    after: Seq<(Seq<char>, Vec<(u32, Vec<u32>)>)>,
    call: (Seq<char>, u32, u32),
) -> bool {
    &&& forall|f: Seq<char>, l: u32|
        #[trigger] tests_of(after, f, l) == if f == call.0 && l == call.1 {
            tests_of(before, f, l).insert(call.2)
        } else {
            tests_of(before, f, l)
        }
    &&& forall|f: Seq<char>|
        #[trigger] lookup(after, f) is Some <==> (lookup(before, f) is Some || f == call.0)
}

/// `states` are the entries of a reverse map made by `new` and then given
/// one `record` call per triple of `calls`, in order: `states[i]` before
/// call `i`, the last one after all of them.
pub open spec fn replays(
    states: Seq<Seq<(Seq<char>, Vec<(u32, Vec<u32>)>)>>,
    calls: Seq<(Seq<char>, u32, u32)>,
) -> bool {
    &&& states.len() == calls.len() + 1
    &&& states[0].len() == 0
    &&& forall|i: int|
        #![trigger calls[i]]
        0 <= i < calls.len() ==> record_step(states[i], states[i + 1], calls[i])
}

/// After replaying `calls`, a line's tests are those the calls name for it,
/// and the files present are those the calls name.
proof fn lemma_replay(states: Seq<Seq<(Seq<char>, Vec<(u32, Vec<u32>)>)>>, calls: Seq<(Seq<char>, u32, u32)>)
    requires
        replays(states, calls),
    ensures
        forall|f: Seq<char>, l: u32|
            #[trigger] tests_of(states.last(), f, l) == Set::new(
                |t: u32| calls.contains((f, l, t)),
            ),
        forall|f: Seq<char>|
            #[trigger] lookup(states.last(), f) is Some <==> exists|i: int|
                0 <= i < calls.len() && (#[trigger] calls[i]).0 == f,
    decreases calls.len(),
{
    if calls.len() == 0 {
        let e = states[0];
        assert forall|f: Seq<char>, l: u32| #[trigger] tests_of(states.last(), f, l) == Set::new(
            |t: u32| calls.contains((f, l, t)),
        ) by {
            assert(lookup(e, f) is None);
            assert(Set::new(|t: u32| calls.contains((f, l, t))) =~= Set::<u32>::empty());
        }
        assert forall|f: Seq<char>| #[trigger] lookup(states.last(), f) is Some <==> exists|i: int|
            0 <= i < calls.len() && (#[trigger] calls[i]).0 == f by {
            assert(lookup(e, f) is None);
        }
    } else {
        let n = calls.len() - 1;
        let ps = states.drop_last();
        let pc = calls.drop_last();
        assert(replays(ps, pc)) by {
            assert forall|i: int| #![trigger pc[i]] 0 <= i < pc.len() implies record_step(
                ps[i],
                ps[i + 1],
                pc[i],
            ) by {
                assert(pc[i] == calls[i]);
            }
        }
        lemma_replay(ps, pc);
        let c = calls[n];
        assert(record_step(states[n], states[n + 1], c));
        assert(ps.last() == states[n]);
        assert(states.last() == states[n + 1]);
        assert forall|f: Seq<char>, l: u32| #[trigger] tests_of(states.last(), f, l) == Set::new(
            |t: u32| calls.contains((f, l, t)),
        ) by {
            assert(tests_of(ps.last(), f, l) == Set::new(|t: u32| pc.contains((f, l, t))));
            assert forall|t: u32| #[trigger] calls.contains((f, l, t)) <==> (pc.contains((f, l, t))
                || c == (f, l, t)) by {
                if calls.contains((f, l, t)) {
                    let i = choose|i: int| 0 <= i < calls.len() && calls[i] == (f, l, t);
                    if i < n {
                        assert(pc[i] == calls[i]);
                    }
                }
                if pc.contains((f, l, t)) {
                    let i = choose|i: int| 0 <= i < pc.len() && pc[i] == (f, l, t);
                    assert(calls[i] == pc[i]);
                }
                if c == (f, l, t) {
                    assert(calls[n] == c);
                }
            }
            if f == c.0 && l == c.1 {
                assert(Set::new(|t: u32| calls.contains((f, l, t))) =~= Set::new(
                    |t: u32| pc.contains((f, l, t)),
                ).insert(c.2));
            } else {
                assert(Set::new(|t: u32| calls.contains((f, l, t))) =~= Set::new(
                    |t: u32| pc.contains((f, l, t)),
                ));
            }
        }
        assert forall|f: Seq<char>| #[trigger] lookup(states.last(), f) is Some <==> exists|i: int|
            0 <= i < calls.len() && (#[trigger] calls[i]).0 == f by {
            if exists|i: int| 0 <= i < calls.len() && (#[trigger] calls[i]).0 == f {
                let i = choose|i: int| 0 <= i < calls.len() && (#[trigger] calls[i]).0 == f;
                if i < n {
                    assert(pc[i] == calls[i]);
                }
            }
            if exists|i: int| 0 <= i < pc.len() && (#[trigger] pc[i]).0 == f {
                let i = choose|i: int| 0 <= i < pc.len() && (#[trigger] pc[i]).0 == f;
                assert(calls[i] == pc[i]);
            }
            if f == c.0 {
                assert(calls[n].0 == f);
            }
        }
    }
}

/// The reverse map depends only on the set of `(file, line, test)` triples
/// recorded, not on their order or on repetitions: two maps made by `new`
/// and `record` calls naming the same triples hold the same tests for every
/// line, and the same files; the tests of a line are exactly those recorded
/// for it.
pub proof fn law_reverse_map_depends_on_triple_set(
    states1: Seq<Seq<(Seq<char>, Vec<(u32, Vec<u32>)>)>>,
    calls1: Seq<(Seq<char>, u32, u32)>,
    states2: Seq<Seq<(Seq<char>, Vec<(u32, Vec<u32>)>)>>,
    calls2: Seq<(Seq<char>, u32, u32)>,
)
    requires
        replays(states1, calls1),
        replays(states2, calls2),
        calls1.to_set() == calls2.to_set(),
    ensures
        forall|f: Seq<char>, l: u32|
            #[trigger] tests_of(states1.last(), f, l) == tests_of(states2.last(), f, l),
        forall|f: Seq<char>, l: u32, t: u32|
            #[trigger] tests_of(states1.last(), f, l).contains(t) <==> calls1.contains((f, l, t)),
        forall|f: Seq<char>|
            #[trigger] lookup(states1.last(), f) is Some <==> lookup(states2.last(), f) is Some,
{
    lemma_replay(states1, calls1);
    lemma_replay(states2, calls2);
    assert forall|x: (Seq<char>, u32, u32)| calls1.contains(x) <==> calls2.contains(x) by {
        assert(calls1.to_set().contains(x) == calls1.contains(x));
        assert(calls2.to_set().contains(x) == calls2.contains(x));
    }
    assert forall|f: Seq<char>, l: u32| #[trigger] tests_of(states1.last(), f, l) == tests_of(
        states2.last(),
        f,
        l,
    ) by {
        assert(Set::new(|t: u32| calls1.contains((f, l, t))) =~= Set::new(
            |t: u32| calls2.contains((f, l, t)),
        ));
    }
    assert forall|f: Seq<char>| #[trigger] lookup(states1.last(), f) is Some <==> lookup(
        states2.last(),
        f,
    ) is Some by {
        if exists|i: int| 0 <= i < calls1.len() && (#[trigger] calls1[i]).0 == f {
            let i = choose|i: int| 0 <= i < calls1.len() && (#[trigger] calls1[i]).0 == f;
            assert(calls1.contains(calls1[i]));
            let j = choose|j: int| 0 <= j < calls2.len() && calls2[j] == calls1[i];
            assert(calls2[j].0 == f);
        }
        if exists|i: int| 0 <= i < calls2.len() && (#[trigger] calls2[i]).0 == f {
            let i = choose|i: int| 0 <= i < calls2.len() && (#[trigger] calls2[i]).0 == f;
            assert(calls2.contains(calls2[i]));
            let j = choose|j: int| 0 <= j < calls1.len() && calls1[j] == calls2[i];
            assert(calls1[j].0 == f);
        }
    }
}


/// In-memory reverse map: per relative source path, per line, the set of
/// test indices that executed it.
pub struct ReverseMap(StrMap<Vec<(u32, Vec<u32>)>>);

impl ReverseMap {
    /// The files and their line entries, in path order.
    pub closed spec fn seq(&self) -> Seq<(Seq<char>, Vec<(u32, Vec<u32>)>)> {
        self.0.seq()
    }

    #[verifier::type_invariant]
    pub closed spec fn wf(&self) -> bool {
        rm_wf(self.0.seq())
    }

    /// The map is well formed (keys increasing, entries well formed).
    pub fn assert_wf(&self)
        ensures
            rm_wf(self.seq()),
            crate::strmap::keys_sorted(self.seq()),
    {
        proof {
            use_type_invariant(self);
            use_type_invariant(&self.0);
        }
    }

    /// An empty map.
    pub fn new() -> (r: Self)
        ensures
            r.seq() == Seq::<(Seq<char>, Vec<(u32, Vec<u32>)>)>::empty(),
    {
        ReverseMap(StrMap::new())
    }

    /// Records that test `test_index` executed line `line` of `rel_path`.
    pub fn record(&mut self, rel_path: &str, line: u32, test_index: u32)
        ensures
            forall|f: Seq<char>, l: u32|
                #[trigger] tests_of(final(self).seq(), f, l) == if f == rel_path@ && l == line {
                    tests_of(old(self).seq(), f, l).insert(test_index)
                } else {
                    tests_of(old(self).seq(), f, l)
                },
            forall|f: Seq<char>|
                (lookup(final(self).seq(), f) is Some) <==> (lookup(old(self).seq(), f) is Some
                    || f == rel_path@),
            record_step(old(self).seq(), final(self).seq(), (rel_path@, line, test_index)),
    {
        proof {
            use_type_invariant(&*self);
        }
        let ghost s0 = self.0.seq();
        let mut m: StrMap<Vec<(u32, Vec<u32>)>> = StrMap::new();
        std::mem::swap(&mut m, &mut self.0);
        assert(m.seq() == s0);
        proof {
            use_type_invariant(&m);
            crate::strmap::lemma_lookup(s0, rel_path@);
        }
        let idx = m.index_of(rel_path);
        let mut inner: Vec<(u32, Vec<u32>)> = match idx {
            Some(i) => {
                let v = m.replace_value(i, Vec::new());
                proof {
                    crate::strmap::lemma_lookup_sorted(s0, i as int);
                    assert forall|k: Seq<char>| k != rel_path@ implies lookup(m.seq(), k) == lookup(
                        s0,
                        k,
                    ) by {
                        assert(m.get_spec(k) == lookup(m.seq(), k));
                    }
                }
                v
            },
            None => {
                let v: Vec<(u32, Vec<u32>)> = Vec::new();
                proof {
                    assert(inner_wf(v@));
                    lemma_line_lookup_none(v@, line);
                    assert forall|l: u32| line_tests(v@, l) =~= Set::<u32>::empty() by {
                        lemma_line_lookup_none(v@, l);
                    }
                }
                v
            },
        };
        let ghost i0 = inner@;
        record_line(&mut inner, line, test_index);
        let ghost s1 = m.seq();
        let ghost fin = inner;
        match idx {
            Some(i) => {
                m.replace_value(i, inner);
                proof {
                    let s2 = m.seq();
                    assert forall|k: int| 0 <= k < s2.len() implies inner_wf(#[trigger] s2[k].1@) by {
                        if k != i {
                            assert(s2[k] == s0[k]);
                        }
                    }
                }
            },
            None => {
                m.insert(rel_path.to_owned(), inner);
                proof {
                    let s2 = m.seq();
                    assert forall|k: int| 0 <= k < s2.len() implies inner_wf(#[trigger] s2[k].1@) by {
                        if s2[k] != (rel_path@, fin) {
                            let j = choose|j: int| 0 <= j < s0.len() && s0[j] == s2[k];
                        }
                    }
                }
            },
        }
        let ghost s2 = m.seq();
        proof {
            assert forall|k: Seq<char>|
                lookup(s2, k) == if k == rel_path@ {
                    Some(fin)
                } else {
                    lookup(s1, k)
                } by {
                assert(m.get_spec(k) == lookup(s2, k));
            }
            assert forall|k: Seq<char>| k != rel_path@ implies lookup(s1, k) == lookup(s0, k) by {}
            assert forall|f: Seq<char>|
                (lookup(s2, f) is Some) <==> (lookup(s0, f) is Some || f == rel_path@) by {}
            assert forall|f: Seq<char>, l: u32|
                #[trigger] tests_of(s2, f, l) == if f == rel_path@ && l == line {
                    tests_of(s0, f, l).insert(test_index)
                } else {
                    tests_of(s0, f, l)
                } by {
                if f == rel_path@ {
                    assert(tests_of(s0, f, l) == line_tests(i0, l));
                }
            }
        }
        self.0 = m;
    }
}


// ---------------------------------------------------------------------------
// Threshold filter and snapshot
// ---------------------------------------------------------------------------

/// The number of tests of a line, as the `u32` the database stores
/// (`len() as u32`).
pub open spec fn count_of(tests: Seq<u32>) -> u32 {
    (tests.len() % 0x1_0000_0000) as u32
}

/// The sampling seed of a line: the FNV-1a hash of `"{path}:{line}"`.
pub open spec fn seed_of(f: Seq<char>, line: u32) -> u64 {
    fnv_spec(vstd::utf8::encode_utf8(f + seq![':'] + dec(line as nat)))
}

/// The sample size for above-threshold lines: `threshold - 1`, at least 0.
pub open spec fn want_of(threshold: u32) -> nat {
    if threshold == 0 {
        0
    } else {
        (threshold - 1) as nat
    }
}

/// `lines` holds, for each line of `inner` covered by fewer than
/// `threshold` tests, its tests under the line's decimal key, and nothing
/// else.
pub open spec fn below_matches(
    lines: StrMap<Vec<u32>>,
    inner: Seq<(u32, Vec<u32>)>,
    threshold: u32,
) -> bool {
    &&& forall|k: Seq<char>|
        #[trigger] lines.get_spec(k) matches Some(v) ==> exists|i: int|
            0 <= i < inner.len() && dec(inner[i].0 as nat) == k && count_of(inner[i].1@)
                < threshold && v@ == inner[i].1@
    &&& forall|i: int|
        0 <= i < inner.len() && count_of(inner[i].1@) < threshold ==> ((#[trigger] lines.get_spec(
            dec(inner[i].0 as nat),
        )) matches Some(v) && v@ == inner[i].1@)
}

/// `above` holds, for each line of `inner` covered by at least `threshold`
/// tests, the count and a sorted sample under the line's decimal key, and
/// nothing else.
pub open spec fn above_matches(
    above: StrMap<AboveThreshold>,
    f: Seq<char>,
    inner: Seq<(u32, Vec<u32>)>,
    threshold: u32,
) -> bool {
    &&& forall|k: Seq<char>|
        #[trigger] above.get_spec(k) matches Some(a) ==> exists|i: int|
            0 <= i < inner.len() && dec(inner[i].0 as nat) == k && count_of(inner[i].1@)
                >= threshold && a.total == count_of(inner[i].1@) && is_sorted_of(
                a.sample@,
                sample_spec(inner[i].1@, want_of(threshold), seed_of(f, inner[i].0)),
            )
    &&& forall|i: int|
        0 <= i < inner.len() && count_of(inner[i].1@) >= threshold
            ==> #[trigger] above.get_spec(dec(inner[i].0 as nat)) is Some
}

/// A copy of `v`.
pub(crate) fn copy_u32s(v: &Vec<u32>) -> (r: Vec<u32>)
    ensures
        r@ == v@,
{
    let mut r: Vec<u32> = Vec::new();
    let mut i: usize = 0;
    while i < v.len()
        invariant
            i <= v@.len(),
            r@ == v@.take(i as int),
        decreases v@.len() - i,
    {
        r.push(v[i]);
        assert(v@.take(i + 1) =~= v@.take(i as int).push(v@[i as int]));
        i += 1;
    }
    assert(v@.take(v@.len() as int) =~= v@);
    r
}

/// The sampling seed of line `line` of `f` (see `seed_of`).
fn seed_for(f: &str, line: u32) -> (h: u64)
    ensures
        h == seed_of(f@, line),
{
    let mut s = f.to_owned();
    push_char(&mut s, ':');
    push_dec(&mut s, line as u64);
    assert(s@ == f@ + seq![':'] + dec(line as nat));
    fnv1a_u64(s.as_str())
}

/// Splits a file's line entries at `threshold`: lines with fewer tests keep
/// every test; lines with more keep the count and a sample of
/// `threshold - 1` tests.
fn split_at_threshold(f: &str, inner: &Vec<(u32, Vec<u32>)>, threshold: u32) -> (r: (
    StrMap<Vec<u32>>,
    StrMap<AboveThreshold>,
))
    requires
        inner_wf(inner@),
    ensures
        below_matches(r.0, inner@, threshold),
        above_matches(r.1, f@, inner@, threshold),
        (r.0.seq().len() == 0 && r.1.seq().len() == 0) <==> inner@.len() == 0,
{
    let mut below: StrMap<Vec<u32>> = StrMap::new();
    let mut above: StrMap<AboveThreshold> = StrMap::new();
    let want: usize = if threshold == 0 {
        0
    } else {
        (threshold - 1) as usize
    };
    let mut j: usize = 0;
    while j < inner.len()
        invariant
            inner_wf(inner@),
            j <= inner@.len(),
            want as nat == want_of(threshold),
            below_matches(below, inner@.take(j as int), threshold),
            above_matches(above, f@, inner@.take(j as int), threshold),
            j > 0 ==> below.seq().len() > 0 || above.seq().len() > 0,
            j == 0 ==> below.seq().len() == 0 && above.seq().len() == 0,
            forall|k: Seq<char>|
                (#[trigger] below.get_spec(k) is Some || above.get_spec(k) is Some) ==> exists|i: int|
                    0 <= i < j && dec(inner@[i].0 as nat) == k,
        decreases inner@.len() - j,
    {
        let line = inner[j].0;
        let tests = &inner[j].1;
        let count = (tests.len() as u64 % 0x1_0000_0000) as u32;
        let key = dec_string(line as u64);
        let ghost prev = inner@.take(j as int);
        let ghost next = inner@.take(j + 1);
        assert(next =~= prev.push(inner@[j as int]));
        proof {
            assert forall|i: int| 0 <= i < j implies dec(inner@[i].0 as nat) != key@ by {
                lemma_dec_injective(inner@[i].0 as nat, line as nat);
            }
        }
        let ghost b0 = below;
        let ghost a0 = above;
        if count >= threshold {
            let seed = seed_for(f, line);
            let sample = sample_sorted(tests.as_slice(), want, seed);
            above.insert(key, AboveThreshold { total: count, sample });
        } else {
            below.insert(key, copy_u32s(tests));
        }
        proof {
            assert forall|k: Seq<char>|
                #[trigger] below.get_spec(k) is Some implies exists|i: int|
                    0 <= i < next.len() && dec(next[i].0 as nat) == k && count_of(next[i].1@)
                        < threshold && below.get_spec(k)->Some_0@ == next[i].1@ by {
                if k != key@ || count >= threshold {
                    assert(b0.get_spec(k) == below.get_spec(k));
                    let i = choose|i: int|
                        0 <= i < prev.len() && dec(prev[i].0 as nat) == k && count_of(prev[i].1@)
                            < threshold && b0.get_spec(k)->Some_0@ == prev[i].1@;
                    assert(next[i] == prev[i]);
                } else {
                    assert(next[j as int] == inner@[j as int]);
                }
            }
            assert forall|i: int|
                0 <= i < next.len() && count_of(next[i].1@) < threshold implies ((
                #[trigger] below.get_spec(dec(next[i].0 as nat))) matches Some(v) && v@
                    == next[i].1@) by {
                if i < j {
                    assert(next[i] == prev[i]);
                    assert(dec(prev[i].0 as nat) != key@);
                }
            }
            assert forall|k: Seq<char>|
                #[trigger] above.get_spec(k) is Some implies exists|i: int|
                    0 <= i < next.len() && dec(next[i].0 as nat) == k && count_of(next[i].1@)
                        >= threshold && above.get_spec(k)->Some_0.total == count_of(next[i].1@)
                        && is_sorted_of(
                        above.get_spec(k)->Some_0.sample@,
                        sample_spec(next[i].1@, want_of(threshold), seed_of(f@, next[i].0)),
                    ) by {
                if k != key@ || count < threshold {
                    assert(a0.get_spec(k) == above.get_spec(k));
                    let a = a0.get_spec(k)->Some_0;
                    let i = choose|i: int|
                        0 <= i < prev.len() && dec(prev[i].0 as nat) == k && count_of(prev[i].1@)
                            >= threshold && a.total == count_of(prev[i].1@) && is_sorted_of(
                            a.sample@,
                            sample_spec(prev[i].1@, want_of(threshold), seed_of(f@, prev[i].0)),
                        );
                    assert(next[i] == prev[i]);
                } else {
                    assert(next[j as int] == inner@[j as int]);
                }
            }
            assert forall|i: int|
                0 <= i < next.len() && count_of(next[i].1@) >= threshold
                    implies #[trigger] above.get_spec(dec(next[i].0 as nat)) is Some by {
                if i < j {
                    assert(next[i] == prev[i]);
                    assert(dec(prev[i].0 as nat) != key@);
                }
            }
            assert forall|k: Seq<char>|
                (#[trigger] below.get_spec(k) is Some || above.get_spec(k) is Some) implies exists|
                i: int,
            | 0 <= i < j + 1 && dec(inner@[i].0 as nat) == k by {
                if k != key@ {
                    assert(b0.get_spec(k) == below.get_spec(k));
                    assert(a0.get_spec(k) == above.get_spec(k));
                }
            }
            if count >= threshold {
                assert(above.get_spec(key@) is Some);
                crate::strmap::lemma_lookup(above.seq(), key@);
            } else {
                assert(below.get_spec(key@) is Some);
                crate::strmap::lemma_lookup(below.seq(), key@);
            }
        }
        j += 1;
    }
    assert(inner@.take(inner@.len() as int) =~= inner@);
    (below, above)
}

/// Every file of `a` or `b`, once each, in path order.
pub fn union_paths<V, W>(a: &StrMap<V>, b: &StrMap<W>) -> (r: StrMap<bool>)
    ensures
        forall|f: Seq<char>|
            (#[trigger] r.get_spec(f) is Some) <==> (a.get_spec(f) is Some || b.get_spec(f)
                is Some),
{
    let mut r: StrMap<bool> = StrMap::new();
    let mut i: usize = 0;
    while i < a.len()
        invariant
            i <= a.seq().len(),
            forall|f: Seq<char>|
                (#[trigger] r.get_spec(f) is Some) <==> exists|k: int| 0 <= k < i && a.seq()[k].0 == f,
        decreases a.seq().len() - i,
    {
        let (k, _) = a.entry(i);
        r.insert(k.clone(), true);
        i += 1;
    }
    let mut j: usize = 0;
    while j < b.len()
        invariant
            j <= b.seq().len(),
            forall|f: Seq<char>|
                (#[trigger] r.get_spec(f) is Some) <==> (exists|k: int|
                    0 <= k < a.seq().len() && a.seq()[k].0 == f) || (exists|k: int|
                    0 <= k < j && b.seq()[k].0 == f),
        decreases b.seq().len() - j,
    {
        let (k, _) = b.entry(j);
        r.insert(k.clone(), true);
        j += 1;
    }
    proof {
        assert forall|f: Seq<char>|
            (#[trigger] r.get_spec(f) is Some) <==> (a.get_spec(f) is Some || b.get_spec(f)
                is Some) by {
            crate::strmap::lemma_lookup(a.seq(), f);
            crate::strmap::lemma_lookup(b.seq(), f);
        }
    }
    r
}

/// The line entries of `f` in the reverse map (empty when absent).
pub open spec fn entries_of(s: Seq<(Seq<char>, Vec<(u32, Vec<u32>)>)>, f: Seq<char>) -> Seq<
    (u32, Vec<u32>),
> {
    match lookup(s, f) {
        Some(inner) => inner@,
        None => Seq::empty(),
    }
}

/// The snapshot of file `f`: its text, executable lines and line maps.
pub open spec fn snapshot_matches(
    sf: SourceFile,
    f: Seq<char>,
    content: Seq<char>,
    exec: Set<u32>,
    inner: Seq<(u32, Vec<u32>)>,
    threshold: u32,
) -> bool {
    &&& sf.content@ == content
    &&& strictly_sorted(sf.executable@)
    &&& elems(sf.executable@) == exec
    &&& below_matches(sf.lines, inner, threshold)
    &&& above_matches(sf.above_threshold, f, inner, threshold)
}

impl ReverseMap {
    /// The files a snapshot covers: every file with executable lines or
    /// with lines that tests executed (the files whose text the caller
    /// reads for `finalize`).
    pub fn snapshot_paths(&self, executable: &ExecutableMap) -> (r: StrMap<bool>)
        ensures
            forall|f: Seq<char>|
                (#[trigger] r.get_spec(f) is Some) <==> (lookup(executable.seq(), f) is Some
                    || lookup(self.seq(), f) is Some) && !(exec_lines_of(executable.seq(), f).is_empty()
                    && entries_of(self.seq(), f).len() == 0),
    {
        let all = union_paths(executable.lines(), &self.0);
        let mut out: StrMap<bool> = StrMap::new();
        let mut i: usize = 0;
        while i < all.len()
            invariant
                i <= all.seq().len(),
                forall|f: Seq<char>|
                    (#[trigger] all.get_spec(f) is Some) <==> (lookup(executable.seq(), f) is Some
                        || lookup(self.seq(), f) is Some),
                forall|f: Seq<char>|
                    #[trigger] out.get_spec(f) is Some <==> {
                        &&& exists|k: int| 0 <= k < i && all.seq()[k].0 == f
                        &&& !(exec_lines_of(executable.seq(), f).is_empty() && entries_of(
                            self.seq(),
                            f,
                        ).len() == 0)
                    },
            decreases all.seq().len() - i,
        {
            let (f, _) = all.entry(i);
            let ghost fv = f@;
            let has_exec = match executable.lines().get(f.as_str()) {
                Some(v) => v.len() > 0,
                None => false,
            };
            let has_tests = match self.0.get(f.as_str()) {
                Some(inner) => inner.len() > 0,
                None => false,
            };
            proof {
                match lookup(executable.seq(), fv) {
                    Some(v) => {
                        if v@.len() > 0 {
                            assert(elems(v@).contains(v@[0]));
                        } else {
                            assert(elems(v@) =~= Set::<u32>::empty());
                        }
                    },
                    None => {},
                }
            }
            assert(has_exec == !exec_lines_of(executable.seq(), fv).is_empty());
            assert(has_tests == (entries_of(self.seq(), fv).len() > 0));
            if has_exec || has_tests {
                out.insert(f.clone(), true);
            }
            proof {
                assert forall|g: Seq<char>|
                    #[trigger] out.get_spec(g) is Some <==> {
                        &&& exists|k: int| 0 <= k < i + 1 && all.seq()[k].0 == g
                        &&& !(exec_lines_of(executable.seq(), g).is_empty() && entries_of(
                            self.seq(),
                            g,
                        ).len() == 0)
                    } by {
                    if exists|k: int| 0 <= k < i + 1 && all.seq()[k].0 == g {
                        let k = choose|k: int| 0 <= k < i + 1 && all.seq()[k].0 == g;
                        if k == i {
                            assert(g == fv);
                        } else {
                            assert(exists|k: int| 0 <= k < i && all.seq()[k].0 == g);
                        }
                    }
                    if exists|k: int| 0 <= k < i && all.seq()[k].0 == g {
                        let k = choose|k: int| 0 <= k < i && all.seq()[k].0 == g;
                        assert(0 <= k < i + 1 && all.seq()[k].0 == g);
                    }
                }
            }
            i += 1;
        }
        proof {
            assert forall|f: Seq<char>|
                (#[trigger] out.get_spec(f) is Some) <==> (lookup(executable.seq(), f) is Some
                    || lookup(self.seq(), f) is Some) && !(exec_lines_of(executable.seq(), f).is_empty()
                    && entries_of(self.seq(), f).len() == 0) by {
                crate::strmap::lemma_lookup(all.seq(), f);
                assert(i == all.seq().len());
                assert(all.get_spec(f) == lookup(all.seq(), f));
                if exists|k: int| 0 <= k < all.seq().len() && all.seq()[k].0 == f {
                    let k = choose|k: int| 0 <= k < all.seq().len() && all.seq()[k].0 == f;
                    assert(0 <= k < i && all.seq()[k].0 == f);
                }
            }
        }
        out
    }

    /// Apply the threshold filter and snapshot source file contents.
    ///
    /// Every file with executable lines or covered lines gets an entry,
    /// unless it has neither (no signal) or `contents` holds no text for it
    /// (it could not be read). Lines covered by fewer than `threshold` tests
    /// list their tests; lines covered by more keep the count and a
    /// deterministic sample of `threshold - 1` tests.
    #[verifier::spinoff_prover]
    pub fn finalize(self, executable: &ExecutableMap, threshold: u32, contents: &StrMap<String>) -> (r:
        StrMap<SourceFile>)
        ensures
            forall|f: Seq<char>|
                #[trigger] r.get_spec(f) is Some <==> {
                    &&& lookup(executable.seq(), f) is Some || lookup(self.seq(), f) is Some
                    &&& !(exec_lines_of(executable.seq(), f).is_empty() && entries_of(
                        self.seq(),
                        f,
                    ).len() == 0)
                    &&& contents.get_spec(f) is Some
                },
            forall|f: Seq<char>|
                #[trigger] r.get_spec(f) matches Some(sf) ==> snapshot_matches(
                    sf,
                    f,
                    contents.get_spec(f)->Some_0@,
                    exec_lines_of(executable.seq(), f),
                    entries_of(self.seq(), f),
                    threshold,
                ),
    {
        proof {
            use_type_invariant(&self);
            use_type_invariant(executable);
        }
        let paths = union_paths(executable.lines(), &self.0);
        let mut out: StrMap<SourceFile> = StrMap::new();
        let mut i: usize = 0;
        while i < paths.len()
            invariant
                i <= paths.seq().len(),
                rm_wf(self.seq()),
                exec_wf(executable.seq()),
                forall|f: Seq<char>|
                    (#[trigger] paths.get_spec(f) is Some) <==> (lookup(executable.seq(), f) is Some
                        || lookup(self.seq(), f) is Some),
                forall|f: Seq<char>|
                    #[trigger] out.get_spec(f) is Some <==> {
                        &&& exists|k: int| 0 <= k < i && paths.seq()[k].0 == f
                        &&& !(exec_lines_of(executable.seq(), f).is_empty() && entries_of(
                            self.seq(),
                            f,
                        ).len() == 0)
                        &&& contents.get_spec(f) is Some
                    },
                forall|f: Seq<char>|
                    #[trigger] out.get_spec(f) matches Some(sf) ==> snapshot_matches(
                        sf,
                        f,
                        contents.get_spec(f)->Some_0@,
                        exec_lines_of(executable.seq(), f),
                        entries_of(self.seq(), f),
                        threshold,
                    ),
            decreases paths.seq().len() - i,
        {
            let (f, _) = paths.entry(i);
            let ghost fv = f@;
            proof {
                use_type_invariant(&paths);
                crate::strmap::lemma_lookup_entry(executable.seq(), fv);
                crate::strmap::lemma_lookup_entry(self.seq(), fv);
                crate::strmap::lemma_lookup_sorted(paths.seq(), i as int);
                assert forall|k: int| 0 <= k < i implies paths.seq()[k].0 != fv by {
                    crate::text::lemma_lex_irrefl(fv);
                }
            }
            let exec_sorted = match executable.lines().get(f.as_str()) {
                Some(v) => {
                    proof {
                        let k = choose|k: int|
                            0 <= k < executable.seq().len() && executable.seq()[k] == (fv, *v);
                        assert(strictly_sorted(executable.seq()[k].1@));
                    }
                    copy_u32s(v)
                },
                None => Vec::new(),
            };
            assert(strictly_sorted(exec_sorted@));
            assert(elems(exec_sorted@) =~= exec_lines_of(executable.seq(), fv));
            let empty: Vec<(u32, Vec<u32>)> = Vec::new();
            let (below, above) = match self.0.get(f.as_str()) {
                Some(inner) => {
                    proof {
                        let k = choose|k: int|
                            0 <= k < self.seq().len() && self.seq()[k] == (fv, *inner);
                        assert(inner_wf(self.seq()[k].1@));
                    }
                    split_at_threshold(f.as_str(), inner, threshold)
                },
                None => split_at_threshold(f.as_str(), &empty, threshold),
            };
            assert(entries_of(self.seq(), fv) =~= match self.0.get_spec(fv) {
                Some(inner) => inner@,
                None => empty@,
            });
            if exec_sorted.len() == 0 && below.is_empty() && above.is_empty() {
                proof {
                    assert(exec_lines_of(executable.seq(), fv).is_empty()) by {
                        assert(exec_lines_of(executable.seq(), fv) =~= Set::<u32>::empty());
                    }
                    assert forall|g: Seq<char>|
                        #[trigger] out.get_spec(g) is Some <==> {
                            &&& exists|k: int| 0 <= k < i + 1 && paths.seq()[k].0 == g
                            &&& !(exec_lines_of(executable.seq(), g).is_empty() && entries_of(
                                self.seq(),
                                g,
                            ).len() == 0)
                            &&& contents.get_spec(g) is Some
                        } by {
                        if exists|k: int| 0 <= k < i + 1 && paths.seq()[k].0 == g {
                            let k = choose|k: int| 0 <= k < i + 1 && paths.seq()[k].0 == g;
                            if k == i {
                                assert(g == fv);
                            }
                        }
                    }
                }
                i += 1;
                continue;
            }
            proof {
                if exec_sorted@.len() > 0 {
                    assert(elems(exec_sorted@).contains(exec_sorted@[0]));
                }
            }
            match contents.get(f.as_str()) {
                Some(c) => {
                    let ghost o0 = out;
                    let sf = SourceFile {
                        content: c.clone(),
                        lines: below,
                        above_threshold: above,
                        executable: exec_sorted,
                    };
                    let ghost sfg = sf;
                    out.insert(f.clone(), sf);
                    proof {
                        assert forall|g: Seq<char>|
                            #[trigger] out.get_spec(g) is Some <==> {
                                &&& exists|k: int| 0 <= k < i + 1 && paths.seq()[k].0 == g
                                &&& !(exec_lines_of(executable.seq(), g).is_empty() && entries_of(
                                    self.seq(),
                                    g,
                                ).len() == 0)
                                &&& contents.get_spec(g) is Some
                            } by {
                            if g != fv {
                                assert(out.get_spec(g) == o0.get_spec(g));
                                if exists|k: int| 0 <= k < i + 1 && paths.seq()[k].0 == g {
                                    let k = choose|k: int| 0 <= k < i + 1 && paths.seq()[k].0 == g;
                                    assert(k != i);
                                }
                            } else {
                                assert(paths.seq()[i as int].0 == g);
                                if exec_lines_of(executable.seq(), g).is_empty() {
                                    assert(exec_sorted@.len() == 0) by {
                                        if exec_sorted@.len() > 0 {
                                            assert(elems(exec_sorted@).contains(exec_sorted@[0]));
                                        }
                                    }
                                }
                            }
                        }
                        assert forall|g: Seq<char>|
                            #[trigger] out.get_spec(g) is Some implies snapshot_matches(
                                out.get_spec(g)->Some_0,
                                g,
                                contents.get_spec(g)->Some_0@,
                                exec_lines_of(executable.seq(), g),
                                entries_of(self.seq(), g),
                                threshold,
                            ) by {
                            if g != fv {
                                assert(out.get_spec(g) == o0.get_spec(g));
                            } else {
                                assert(out.get_spec(g) == Some(sfg));
                                assert(contents.get_spec(g) == Some(*c));
                                assert(sfg.content@ == c@);
                                assert(below_matches(sfg.lines, entries_of(self.seq(), g), threshold));
                                assert(above_matches(sfg.above_threshold, g, entries_of(self.seq(), g), threshold));
                                assert(elems(sfg.executable@) == exec_lines_of(executable.seq(), g));
                            }
                        }
                    }
                },
                None => {
                    proof {
                        assert forall|g: Seq<char>|
                            #[trigger] out.get_spec(g) is Some <==> {
                                &&& exists|k: int| 0 <= k < i + 1 && paths.seq()[k].0 == g
                                &&& !(exec_lines_of(executable.seq(), g).is_empty() && entries_of(
                                    self.seq(),
                                    g,
                                ).len() == 0)
                                &&& contents.get_spec(g) is Some
                            } by {
                            if exists|k: int| 0 <= k < i + 1 && paths.seq()[k].0 == g {
                                let k = choose|k: int| 0 <= k < i + 1 && paths.seq()[k].0 == g;
                                if k == i {
                                    assert(g == fv);
                                }
                            }
                        }
                    }
                },
            }
            i += 1;
        }
        proof {
            assert forall|f: Seq<char>|
                #[trigger] out.get_spec(f) is Some <==> {
                    &&& lookup(executable.seq(), f) is Some || lookup(self.seq(), f) is Some
                    &&& !(exec_lines_of(executable.seq(), f).is_empty() && entries_of(
                        self.seq(),
                        f,
                    ).len() == 0)
                    &&& contents.get_spec(f) is Some
                } by {
                crate::strmap::lemma_lookup(paths.seq(), f);
                assert(paths.get_spec(f) == lookup(paths.seq(), f));
            }
        }
        out
    }
}

// ---------------------------------------------------------------------------
// What a snapshot says of a line
// ---------------------------------------------------------------------------

/// `line_lookup` finds only entries of the list.
proof fn lemma_line_lookup_some(inner: Seq<(u32, Vec<u32>)>, l: u32)
    ensures
        line_lookup(inner, l) matches Some(v) ==> exists|i: int|
            0 <= i < inner.len() && inner[i] == (l, v),
    decreases inner.len(),
{
    if inner.len() > 0 && inner[0].0 != l {
        lemma_line_lookup_some(inner.drop_first(), l);
        if line_lookup(inner, l) is Some {
            let v = line_lookup(inner, l)->Some_0;
            let i = choose|i: int| 0 <= i < inner.drop_first().len() && inner.drop_first()[i] == (l, v);
            assert(inner[i + 1] == (l, v));
        }
    } else if inner.len() > 0 {
        assert(inner[0] == (l, inner[0].1));
    }
}

/// The entries of a file in a well-formed reverse map are well formed.
proof fn lemma_entries_wf(s: Seq<(Seq<char>, Vec<(u32, Vec<u32>)>)>, f: Seq<char>)
    requires
        rm_wf(s),
    ensures
        inner_wf(entries_of(s, f)),
{
    crate::strmap::lemma_lookup_entry(s, f);
    if lookup(s, f) is Some {
        let inner = lookup(s, f)->Some_0;
        let j = choose|j: int| 0 <= j < s.len() && s[j] == (f, inner);
        assert(inner_wf(s[j].1@));
    }
}

/// A strictly increasing list has as many elements as its set.
proof fn lemma_sorted_card(v: Seq<u32>)
    requires
        strictly_sorted(v),
    ensures
        elems(v).len() == v.len(),
        elems(v).finite(),
{
    assert(v.no_duplicates()) by {
        assert forall|a: int, b: int| 0 <= a < v.len() && 0 <= b < v.len() && a != b implies v[a]
            != v[b] by {
            if a < b {
                assert(v[a] < v[b]);
            } else {
                assert(v[b] < v[a]);
            }
        }
    }
    v.unique_seq_to_set();
    assert(elems(v) =~= v.to_set());
}

/// What a file's snapshot says of line `l`, for the reverse map it was
/// taken from. Below the threshold, the line lists exactly the tests that
/// covered it, and it is listed whenever some test covered it; at or above
/// the threshold it carries the number of those tests instead (as a `u32`,
/// so modulo 2^32); and no line is both listed and summarized.
#[verifier::spinoff_prover]
pub proof fn law_snapshot_lists_covering_tests(
    s: Seq<(Seq<char>, Vec<(u32, Vec<u32>)>)>,
    sf: SourceFile,
    f: Seq<char>,
    content: Seq<char>,
    exec: Set<u32>,
    threshold: u32,
    l: u32,
)
    requires
        rm_wf(s),
        snapshot_matches(sf, f, content, exec, entries_of(s, f), threshold),
    ensures
        sf.lines.get_spec(dec(l as nat)) matches Some(v) ==> elems(v@) == tests_of(s, f, l)
            && tests_of(s, f, l).len() == v@.len() && v@.len() % 0x1_0000_0000 < threshold,
        0 < tests_of(s, f, l).len() < threshold ==> sf.lines.get_spec(dec(l as nat)) is Some,
        sf.above_threshold.get_spec(dec(l as nat)) matches Some(a) ==> a.total == tests_of(
            s,
            f,
            l,
        ).len() % 0x1_0000_0000 && a.total >= threshold,
        !(sf.lines.get_spec(dec(l as nat)) is Some && sf.above_threshold.get_spec(dec(l as nat)) is Some),
{
    let inner = entries_of(s, f);
    lemma_entries_wf(s, f);
    lemma_line_lookup_some(inner, l);
    let key = dec(l as nat);
    if sf.lines.get_spec(key) is Some {
        let v = sf.lines.get_spec(key)->Some_0;
        let i = choose|i: int|
            0 <= i < inner.len() && dec(inner[i].0 as nat) == key && count_of(inner[i].1@)
                < threshold && v@ == inner[i].1@;
        lemma_dec_injective(inner[i].0 as nat, l as nat);
        lemma_line_lookup_at(inner, i);
        assert(lookup(s, f) is Some);
        lemma_sorted_card(v@);
        if sf.above_threshold.get_spec(key) is Some {
            let a = sf.above_threshold.get_spec(key)->Some_0;
            let i2 = choose|i2: int|
                0 <= i2 < inner.len() && dec(inner[i2].0 as nat) == key && count_of(inner[i2].1@)
                    >= threshold && a.total == count_of(inner[i2].1@) && is_sorted_of(
                    a.sample@,
                    sample_spec(inner[i2].1@, want_of(threshold), seed_of(f, inner[i2].0)),
                );
            lemma_dec_injective(inner[i2].0 as nat, l as nat);
            if i < i2 {
                assert(inner[i].0 < inner[i2].0);
            } else if i2 < i {
                assert(inner[i2].0 < inner[i].0);
            }
        }
    }
    if sf.above_threshold.get_spec(key) is Some {
        let a = sf.above_threshold.get_spec(key)->Some_0;
        let i2 = choose|i2: int|
            0 <= i2 < inner.len() && dec(inner[i2].0 as nat) == key && count_of(inner[i2].1@)
                >= threshold && a.total == count_of(inner[i2].1@) && is_sorted_of(
                a.sample@,
                sample_spec(inner[i2].1@, want_of(threshold), seed_of(f, inner[i2].0)),
            );
        lemma_dec_injective(inner[i2].0 as nat, l as nat);
        lemma_line_lookup_at(inner, i2);
        assert(lookup(s, f) is Some);
        lemma_sorted_card(inner[i2].1@);
    }
    if 0 < tests_of(s, f, l).len() < threshold {
        assert(lookup(s, f) is Some);
        if line_lookup(inner, l) is None {
            assert(tests_of(s, f, l) =~= Set::<u32>::empty());
        }
        let v = line_lookup(inner, l)->Some_0;
        let i = choose|i: int| 0 <= i < inner.len() && inner[i] == (l, v);
        lemma_sorted_card(v@);
        assert(count_of(inner[i].1@) < threshold);
        assert(sf.lines.get_spec(dec(inner[i].0 as nat)) is Some);
    }
}

} // verus!
