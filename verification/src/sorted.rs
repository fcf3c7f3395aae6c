//! Strictly increasing vectors of line numbers and test indices, used as
//! ordered sets.

use vstd::prelude::*;

verus! {

/// Every element is smaller than the next one.
pub open spec fn strictly_sorted(s: Seq<u32>) -> bool {
    forall|i: int, j: int| 0 <= i < j < s.len() ==> s[i] < s[j]
}

/// The set of elements of `s`.
pub open spec fn elems(s: Seq<u32>) -> Set<u32> {
    Set::new(|x: u32| s.contains(x))
}

/// Inserts `x` into a strictly increasing vector, keeping it so.
pub fn insert_sorted(v: &mut Vec<u32>, x: u32)
    requires
        strictly_sorted(old(v)@),
    ensures
        strictly_sorted(final(v)@),
        elems(final(v)@) == elems(old(v)@).insert(x),
{
    let mut p = v.len();
    while p > 0 && v[p - 1] > x
        invariant
            p <= v@.len(),
            v@ == old(v)@,
            strictly_sorted(v@),
            forall|k: int| p <= k < v@.len() ==> v@[k] > x,
        decreases p,
    {
        p -= 1;
    }
    if p > 0 && v[p - 1] == x {
        assert(elems(v@) =~= elems(old(v)@).insert(x)) by {
            assert(v@[p - 1] == x);
        }
        return;
    }
    let ghost before = v@;
    v.insert(p, x);
    assert forall|i: int, j: int| 0 <= i < j < v@.len() implies v@[i] < v@[j] by {
        if i < p as int && j > p as int {
            assert(before[i] < before[j - 1]);
        }
        if i < p as int && j == p as int && p > 0 {
            assert(before[i] <= before[p - 1]);
        }
    }
    assert forall|y: u32|
        #[trigger] elems(v@).contains(y) <==> elems(before).insert(x).contains(y) by {
        if v@.contains(y) {
            let k = choose|k: int| 0 <= k < v@.len() && v@[k] == y;
            if k < p {
                assert(before[k] == y);
            } else if k > p {
                assert(before[k - 1] == y);
            }
        }
        if before.contains(y) {
            let k = choose|k: int| 0 <= k < before.len() && before[k] == y;
            if k < p {
                assert(v@[k] == y);
            } else {
                assert(v@[k + 1] == y);
            }
        }
        if y == x {
            assert(v@[p as int] == x);
        }
    }
    assert(elems(v@) =~= elems(before).insert(x));
}


/// Whether the strictly increasing vector `v` holds `x` (binary search).
pub fn contains_sorted(v: &Vec<u32>, x: u32) -> (r: bool)
    requires
        strictly_sorted(v@),
    ensures
        r == v@.contains(x),
{
    let mut lo: usize = 0;
    let mut hi: usize = v.len();
    while lo < hi
        invariant
            lo <= hi <= v@.len(),
            strictly_sorted(v@),
            forall|k: int| 0 <= k < lo ==> v@[k] < x,
            forall|k: int| hi <= k < v@.len() ==> v@[k] > x,
        decreases hi - lo,
    {
        let mid = lo + (hi - lo) / 2;
        if v[mid] == x {
            return true;
        } else if v[mid] < x {
            lo = mid + 1;
        } else {
            hi = mid;
        }
    }
    proof {
        if v@.contains(x) {
            let k = choose|k: int| 0 <= k < v@.len() && v@[k] == x;
            assert(false);
        }
    }
    false
}

/// A strictly increasing vector holding the values of `v`.
pub fn sorted_set(v: &Vec<u32>) -> (r: Vec<u32>)
    ensures
        strictly_sorted(r@),
        elems(r@) == elems(v@),
{
    let mut r: Vec<u32> = Vec::new();
    let mut i: usize = 0;
    assert(elems(r@) =~= elems(v@.take(0)));
    while i < v.len()
        invariant
            i <= v@.len(),
            strictly_sorted(r@),
            elems(r@) == elems(v@.take(i as int)),
        decreases v@.len() - i,
    {
        insert_sorted(&mut r, v[i]);
        proof {
            let t0 = v@.take(i as int);
            let t1 = v@.take(i + 1);
            assert(t1 =~= t0.push(v@[i as int]));
            assert forall|y: u32| t1.contains(y) <==> (t0.contains(y) || y == v@[i as int]) by {
                if t1.contains(y) {
                    let k = choose|k: int| 0 <= k < t1.len() && t1[k] == y;
                    if k < t0.len() {
                        assert(t0[k] == y);
                    }
                }
                if t0.contains(y) {
                    let k = choose|k: int| 0 <= k < t0.len() && t0[k] == y;
                    assert(t1[k] == y);
                }
                if y == v@[i as int] {
                    assert(t1[t0.len() as int] == y);
                }
            }
            assert(elems(t1) =~= elems(t0).insert(v@[i as int]));
        }
        i += 1;
    }
    assert(v@.take(v@.len() as int) =~= v@);
    r
}

} // verus!
