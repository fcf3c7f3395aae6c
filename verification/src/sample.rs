//! Deterministic sampling of covering tests for lines covered by many tests.

use vstd::prelude::*;

verus! {

broadcast use vstd::seq_lib::group_to_multiset_ensures;

/// Ascending order (duplicates allowed).
pub open spec fn sorted_asc(s: Seq<u32>) -> bool {
    forall|i: int, j: int| 0 <= i <= j < s.len() ==> s[i] <= s[j]
}

/// `s` in ascending order: sorted, with the same elements.
pub open spec fn is_sorted_of(r: Seq<u32>, s: Seq<u32>) -> bool {
    sorted_asc(r) && r.to_multiset() == s.to_multiset()
}

/// Sorts `v` in ascending order (insertion sort).
pub fn sort_u32(v: &[u32]) -> (r: Vec<u32>)
    ensures
        is_sorted_of(r@, v@),
{
    let mut r: Vec<u32> = Vec::new();
    let mut i: usize = 0;
    while i < v.len()
        invariant
            i <= v@.len(),
            sorted_asc(r@),
            r@.to_multiset() == v@.take(i as int).to_multiset(),
        decreases v@.len() - i,
    {
        let x = v[i];
        let mut p = r.len();
        while p > 0 && r[p - 1] > x
            invariant
                p <= r@.len(),
                forall|k: int| p <= k < r@.len() ==> r@[k] > x,
            decreases p,
        {
            p -= 1;
        }
        let ghost before = r@;
        r.insert(p, x);
        proof {
            vstd::seq_lib::to_multiset_insert(before, p as int, x);
            assert(v@.take(i + 1) =~= v@.take(i as int).push(x));
            assert forall|a: int, b: int| 0 <= a <= b < r@.len() implies r@[a] <= r@[b] by {
                if a < p && b > p {
                    assert(before[a] <= before[b - 1]);
                }
                if a < p && b == p && p > 0 {
                    assert(before[a] <= before[p - 1]);
                }
                if a > p {
                    assert(before[a - 1] <= before[b - 1]);
                }
            }
        }
        i += 1;
    }
    assert(v@.take(v@.len() as int) =~= v@);
    r
}

/// One xorshift64 step.
pub open spec fn xorshift(x: u64) -> u64 {
    let a = x ^ (x << 13u64);
    let b = a ^ (a >> 7u64);
    b ^ (b << 17u64)
}

/// The generator's first state for `seed`.
pub open spec fn init_state(seed: u64) -> u64 {
    let s = ((seed as nat + 0x9E37_79B9_7F4A_7C15nat) % 0x1_0000_0000_0000_0000nat) as u64;
    if s == 0 {
        0xDEAD_BEEF_DEAD_BEEFu64
    } else {
        s
    }
}

/// `s` with the elements at `i` and `j` exchanged.
pub open spec fn swap_spec(s: Seq<u32>, i: int, j: int) -> Seq<u32> {
    s.update(i, s[j]).update(j, s[i])
}

/// The Fisher–Yates shuffle of `s` from index `i` down to 1, drawing from
/// the generator in `state`.
pub open spec fn shuffle_from(s: Seq<u32>, state: u64, i: int) -> Seq<u32>
    decreases i,
{
    if i < 1 {
        s
    } else {
        let st = xorshift(state);
        let j = (st % ((i + 1) as u64)) as int;
        shuffle_from(swap_spec(s, i, j), st, i - 1)
    }
}

/// What `sample_sorted` picks: nothing for `want == 0`, everything when
/// `want` covers all, else the first `want` elements of the shuffle.
pub open spec fn sample_spec(all: Seq<u32>, want: nat, seed: u64) -> Seq<u32> {
    if want == 0 {
        Seq::empty()
    } else if want >= all.len() {
        all
    } else {
        shuffle_from(all, init_state(seed), all.len() - 1).take(want as int)
    }
}

/// Pick `want` elements from `all` in a deterministic-but-random-looking
/// order (xorshift64 Fisher–Yates seeded by `seed`), returned sorted (see
/// `sample_spec`). If `want >= all.len()`, every element is returned.
pub fn sample_sorted(all: &[u32], want: usize, seed: u64) -> (r: Vec<u32>)
    ensures
        is_sorted_of(r@, sample_spec(all@, want as nat, seed)),
{
    if want == 0 {
        let r: Vec<u32> = Vec::new();
        assert(r@ =~= Seq::<u32>::empty());
        return r;
    }
    if want >= all.len() {
        return sort_u32(all);
    }
    let mut shuffled: Vec<u32> = vstd::slice::slice_to_vec(all);
    let mut state = seed.wrapping_add(0x9E37_79B9_7F4A_7C15);
    if state == 0 {
        state = 0xDEAD_BEEF_DEAD_BEEF;
    }
    let n = shuffled.len();
    let mut i = n - 1;
    while i >= 1
        invariant
            n == all@.len(),
            shuffled@.len() == n,
            i < n,
            shuffle_from(all@, init_state(seed), n - 1) == shuffle_from(shuffled@, state, i as int),
        decreases i,
    {
        state ^= state << 13;
        state ^= state >> 7;
        state ^= state << 17;
        let j = (state % (i as u64 + 1)) as usize;
        let a = shuffled[i];
        let b = shuffled[j];
        shuffled.set(i, b);
        shuffled.set(j, a);
        i -= 1;
    }
    let picked = shuffled.as_slice().split_at(want).0;
    assert(picked@ =~= shuffled@.take(want as int));
    sort_u32(picked)
}

/// Exchanging two elements keeps the elements.
proof fn lemma_swap_multiset(s: Seq<u32>, i: int, j: int)
    requires
        0 <= i < s.len(),
        0 <= j < s.len(),
    ensures
        swap_spec(s, i, j).to_multiset() == s.to_multiset(),
        swap_spec(s, i, j).len() == s.len(),
{
    broadcast use vstd::multiset::group_multiset_axioms;

    let s1 = s.update(i, s[j]);
    vstd::seq_lib::to_multiset_update(s, i, s[j]);
    vstd::seq_lib::to_multiset_update(s1, j, s[i]);
    assert(s1[j] == s[j]);
    assert(s1.update(j, s[i]).to_multiset() =~= s.to_multiset());
}

/// The shuffle keeps the elements.
proof fn lemma_shuffle_multiset(s: Seq<u32>, state: u64, i: int)
    requires
        i < s.len() <= u64::MAX,
    ensures
        shuffle_from(s, state, i).to_multiset() == s.to_multiset(),
        shuffle_from(s, state, i).len() == s.len(),
    decreases i,
{
    if i >= 1 {
        let st = xorshift(state);
        let j = (st % ((i + 1) as u64)) as int;
        let m = (i + 1) as u64;
        assert(m == i + 1);
        assert(st % m < m);
        lemma_swap_multiset(s, i, j);
        lemma_shuffle_multiset(swap_spec(s, i, j), st, i - 1);
    }
}

/// A sample holds `want` of the tests, or all of them when there are no
/// more: never a test that is not among them, never one twice more often
/// than it occurs.
pub proof fn law_sample_is_drawn_from_all(all: Seq<u32>, want: nat, seed: u64)
    requires
        all.len() <= u64::MAX,
    ensures
        sample_spec(all, want, seed).len() == if want < all.len() {
            want
        } else {
            all.len()
        },
        sample_spec(all, want, seed).to_multiset().subset_of(all.to_multiset()),
{
    broadcast use vstd::multiset::group_multiset_axioms;

    let r = sample_spec(all, want, seed);
    if want == 0 {
        assert(r.to_multiset() =~= vstd::multiset::Multiset::<u32>::empty());
        if all.len() == 0 {
        }
    } else if want >= all.len() {
    } else {
        let sh = shuffle_from(all, init_state(seed), all.len() - 1);
        lemma_shuffle_multiset(all, init_state(seed), all.len() - 1);
        assert(sh =~= sh.take(want as int) + sh.skip(want as int));
        vstd::seq_lib::lemma_multiset_commutative(sh.take(want as int), sh.skip(want as int));
    }
}

} // verus!
