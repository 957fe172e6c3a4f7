//! The run of set bits that, placed in a sequence of zeros, differs least
//! from a given bit sequence.

use vstd::prelude::*;
use bit_vec::BitVec;
use crate::bits::{bits_of, bv_get, bv_grow, bv_len, bv_new, bv_truncate};

verus! {

/// `n` bits, set exactly at the positions `s .. s + k`.
pub open spec fn placement(n: nat, s: int, k: int) -> Seq<bool> {
    Seq::new(n, |i: int| s <= i < s + k)
}

/// The number of positions, up to the length of `a`, where `a` and `b` differ.
pub open spec fn hamming(a: Seq<bool>, b: Seq<bool>) -> nat
    decreases a.len(),
{
    if a.len() == 0 {
        0
    } else {
        hamming(a.drop_last(), b.drop_last()) + if a.last() != b[a.len() - 1] { 1nat } else { 0nat }
    }
}

/// How far `bits` is from the run of `k` set bits that starts at `s`.
pub open spec fn placement_dist(bits: Seq<bool>, s: int, k: int) -> nat {
    hamming(bits, placement(bits.len(), s, k))
}

/// The least distance over the start offsets below `m`; `usize::MAX` when
/// there is none.
pub open spec fn fewest_mismatches(bits: Seq<bool>, k: int, m: nat) -> nat
    decreases m,
{
    if m == 0 {
        usize::MAX as nat
    } else {
        let d = placement_dist(bits, m - 1, k);
        let rest = fewest_mismatches(bits, k, (m - 1) as nat);
        if d < rest { d } else { rest }
    }
}

proof fn lemma_hamming_le_len(a: Seq<bool>, b: Seq<bool>)
    ensures
        hamming(a, b) <= a.len(),
    decreases a.len(),
{
    if a.len() > 0 {
        lemma_hamming_le_len(a.drop_last(), b.drop_last());
    }
}

/// Counts the positions where two bit vectors of one length differ.
fn count_mismatches(a: &BitVec, b: &BitVec) -> (r: usize)
    requires
        bits_of(*a).len() == bits_of(*b).len(),
    ensures
        r == hamming(bits_of(*a), bits_of(*b)),
{
    let n = bv_len(a);
    let mut diff: usize = 0;
    let mut i: usize = 0;
    while i < n
        invariant
            n == bits_of(*a).len(),
            n == bits_of(*b).len(),
            i <= n,
            diff == hamming(bits_of(*a).take(i as int), bits_of(*b).take(i as int)),
            diff <= i,
        decreases n - i,
    {
        let x = bv_get(a, i);
        let y = bv_get(b, i);
        proof {
            let ta = bits_of(*a).take(i + 1);
            let tb = bits_of(*b).take(i + 1);
            assert(ta.drop_last() =~= bits_of(*a).take(i as int));
            assert(tb.drop_last() =~= bits_of(*b).take(i as int));
        }
        if x != y {
            diff = diff + 1;
        }
        i = i + 1;
    }
    proof {
        assert(bits_of(*a).take(n as int) =~= bits_of(*a));
        assert(bits_of(*b).take(n as int) =~= bits_of(*b));
    }
    diff
}

/// The least number of positions in which `bytes` differs from a run of
/// `num` set bits among zeros, over the start offsets `0 .. len - num`; the
/// last possible offset, `len - num`, is not tried. With no offset tried the
/// result is `usize::MAX`.
pub fn opt_dist(bytes: &BitVec, num: usize) -> (r: usize)
    requires
        num <= bits_of(*bytes).len(),
    ensures
        r == fewest_mismatches(bits_of(*bytes), num as int, (bits_of(*bytes).len() - num) as nat),
{
    let ghost bits = bits_of(*bytes);
    let n = bv_len(bytes);
    let mut mask = bv_new();
    let mut min: usize = usize::MAX;
    let mut start: usize = 0;
    while start < n - num
        invariant
            n == bits.len(),
            bits == bits_of(*bytes),
            num <= n,
            start <= n - num,
            min == fewest_mismatches(bits, num as int, start as nat),
        decreases n - num - start,
    {
        bv_truncate(&mut mask, 0);
        assert(bits_of(mask) =~= Seq::<bool>::empty());
        bv_grow(&mut mask, start, false);
        bv_grow(&mut mask, num, true);
        bv_grow(&mut mask, n - start - num, false);
        assert(bits_of(mask) =~= placement(n as nat, start as int, num as int));
        let diff = count_mismatches(bytes, &mask);
        if diff < min {
            min = diff;
        }
        start = start + 1;
    }
    min
}

/// The number of set bits in `x`.
pub open spec fn count_true(x: Seq<bool>) -> nat
    decreases x.len(),
{
    if x.len() == 0 {
        0
    } else {
        count_true(x.drop_last()) + if x.last() { 1nat } else { 0nat }
    }
}

/// The number of set bits of `bits` at the positions `s .. s + k`.
pub open spec fn set_in_window(bits: Seq<bool>, s: int, k: int) -> nat {
    count_true(Seq::new(bits.len(), |i: int| bits[i] && s <= i < s + k))
}

proof fn lemma_fewest_bounds(bits: Seq<bool>, k: int, m: nat)
    requires
        bits.len() <= usize::MAX,
    ensures
        forall|s: int| 0 <= s < m ==> fewest_mismatches(bits, k, m) <= #[trigger] placement_dist(bits, s, k),
        m > 0 ==> exists|s: int| 0 <= s < m && fewest_mismatches(bits, k, m) == #[trigger] placement_dist(bits, s, k),
    decreases m,
{
    if m > 0 {
        lemma_fewest_bounds(bits, k, (m - 1) as nat);
        let d = placement_dist(bits, m - 1, k);
        lemma_hamming_le_len(bits, placement(bits.len(), m - 1, k));
        if m == 1 || d < fewest_mismatches(bits, k, (m - 1) as nat) {
            assert(fewest_mismatches(bits, k, m) == placement_dist(bits, m - 1, k));
        } else {
            let w = choose|s: int| 0 <= s < m - 1 && fewest_mismatches(bits, k, (m - 1) as nat) == #[trigger] placement_dist(bits, s, k);
            assert(fewest_mismatches(bits, k, m) == placement_dist(bits, w, k));
        }
    }
}

proof fn lemma_hamming_identity(a: Seq<bool>, b: Seq<bool>)
    requires
        a.len() == b.len(),
    ensures
        hamming(a, b) + 2 * count_true(Seq::new(a.len(), |i: int| a[i] && b[i])) == count_true(a) + count_true(b),
    decreases a.len(),
{
    if a.len() > 0 {
        let both = Seq::new(a.len(), |i: int| a[i] && b[i]);
        let a1 = a.drop_last();
        let b1 = b.drop_last();
        lemma_hamming_identity(a1, b1);
        assert(both.drop_last() =~= Seq::new(a1.len(), |i: int| a1[i] && b1[i]));
        assert(b.drop_last() == b1);
    }
}

proof fn lemma_count_placement(n: nat, s: int, k: int)
    requires
        0 <= s,
        0 <= k,
        s + k <= n,
    ensures
        count_true(placement(n, s, k)) == k,
    decreases n,
{
    if n > 0 {
        let p = placement(n, s, k);
        if k == 0 {
            assert(p.drop_last() =~= placement((n - 1) as nat, 0, 0));
            lemma_count_placement((n - 1) as nat, 0, 0);
        } else if s + k < n {
            assert(p.drop_last() =~= placement((n - 1) as nat, s, k));
            lemma_count_placement((n - 1) as nat, s, k);
        } else {
            assert(p.drop_last() =~= placement((n - 1) as nat, s, k - 1));
            lemma_count_placement((n - 1) as nat, s, k - 1);
        }
    }
}

proof fn lemma_hamming_first(a: Seq<bool>, b: Seq<bool>)
    requires
        a.len() == b.len(),
        a.len() > 0,
    ensures
        hamming(a, b) == hamming(a.drop_first(), b.drop_first()) + if a[0] != b[0] { 1nat } else { 0nat },
    decreases a.len(),
{
    if a.len() > 1 {
        lemma_hamming_first(a.drop_last(), b.drop_last());
        assert(a.drop_last().drop_first() =~= a.drop_first().drop_last());
        assert(b.drop_last().drop_first() =~= b.drop_first().drop_last());
        assert(a.drop_first().last() == a.last());
        assert(b.drop_first()[a.drop_first().len() - 1] == b[a.len() - 1]);
        assert(hamming(a.drop_first(), b.drop_first()) == hamming(a.drop_first().drop_last(), b.drop_first().drop_last())
            + if a.last() != b[a.len() - 1] { 1nat } else { 0nat });
    } else {
        assert(a.drop_first().len() == 0);
        assert(a.drop_last().len() == 0);
        assert(hamming(a.drop_last(), b.drop_last()) == 0);
    }
}

proof fn lemma_hamming_reverse(a: Seq<bool>, b: Seq<bool>)
    requires
        a.len() == b.len(),
    ensures
        hamming(a.reverse(), b.reverse()) == hamming(a, b),
    decreases a.len(),
{
    if a.len() > 0 {
        lemma_hamming_reverse(a.drop_first(), b.drop_first());
        lemma_hamming_first(a, b);
        assert(a.reverse().drop_last() =~= a.drop_first().reverse());
        assert(b.reverse().drop_last() =~= b.drop_first().reverse());
    }
}

/// The run at `s` in the reversed sequence scores as the run at
/// `n - k - s` does in the sequence itself.
proof fn lemma_placement_dist_reverse(bits: Seq<bool>, s: int, k: int)
    requires
        0 <= s,
        0 <= k,
        s + k <= bits.len(),
    ensures
        placement_dist(bits.reverse(), s, k) == placement_dist(bits, bits.len() - k - s, k),
{
    let n = bits.len();
    let q = placement(n, n - k - s, k);
    assert(placement(n, s, k) =~= q.reverse());
    lemma_hamming_reverse(bits, q);
}

/// The distance is at most the run length whenever some tried placement of
/// the run covers at least half of the set bits: that placement misses the
/// set bits outside it and the clear bits inside it, at most `k` in all.
pub proof fn lemma_opt_dist_at_most_run_length(bits: Seq<bool>, k: nat, s: nat)
    requires
        bits.len() <= usize::MAX,
        s + k < bits.len(),
        2 * set_in_window(bits, s as int, k as int) >= count_true(bits),
    ensures
        0 <= fewest_mismatches(bits, k as int, (bits.len() - k) as nat) <= k,
{
    let n = bits.len();
    let p = placement(n, s as int, k as int);
    lemma_hamming_identity(bits, p);
    assert(Seq::new(n, |i: int| bits[i] && p[i]) =~= Seq::new(n, |i: int| bits[i] && s <= i < s + k));
    lemma_count_placement(n, s as int, k as int);
    lemma_fewest_bounds(bits, k as int, (n - k) as nat);
    assert(placement_dist(bits, s as int, k as int) <= k);
}

/// Reversing the sequence keeps the distance, except where the boundary
/// rule decides: on the reversed sequence the tried placements are those at
/// `1 ..= n - k` of the unreversed one, which itself tries `0 .. n - k`. The
/// two agree exactly when the two end placements score alike, or some
/// placement strictly between them scores no worse than either.
pub proof fn lemma_opt_dist_reversal(bits: Seq<bool>, k: nat)
    requires
        bits.len() <= usize::MAX,
        k <= bits.len(),
        k == bits.len()
            || placement_dist(bits, 0, k as int) == placement_dist(bits, bits.len() - k, k as int)
            || exists|s: int|
                0 < s < bits.len() - k
                && #[trigger] placement_dist(bits, s, k as int) <= placement_dist(bits, 0, k as int)
                && placement_dist(bits, s, k as int) <= placement_dist(bits, bits.len() - k, k as int),
    ensures
        fewest_mismatches(bits.reverse(), k as int, (bits.len() - k) as nat)
            == fewest_mismatches(bits, k as int, (bits.len() - k) as nat),
{
    let n = bits.len();
    let m = (n - k) as nat;
    let r = bits.reverse();
    assert(r.len() == n);
    if m > 0 {
        let ki = k as int;
        lemma_fewest_bounds(bits, ki, m);
        lemma_fewest_bounds(r, ki, m);
        let f = fewest_mismatches(bits, ki, m);
        let g = fewest_mismatches(r, ki, m);
        assert forall|s: int| 0 <= s <= m implies #[trigger] placement_dist(r, s, ki) == placement_dist(bits, m - s, ki) by {
            lemma_placement_dist_reverse(bits, s, ki);
        }
        let s0 = choose|s: int| 0 <= s < m && f == #[trigger] placement_dist(bits, s, ki);
        let s1 = choose|s: int| 0 <= s < m && g == #[trigger] placement_dist(r, s, ki);
        assert(placement_dist(r, m - 0, ki) == placement_dist(bits, 0, ki));
        assert(placement_dist(r, 0, ki) == placement_dist(bits, m as int, ki));
        assert(g == placement_dist(bits, m - s1, ki));
        if placement_dist(bits, 0, ki) != placement_dist(bits, m as int, ki) {
            let w = choose|s: int|
                0 < s < n - k
                && #[trigger] placement_dist(bits, s, ki) <= placement_dist(bits, 0, ki)
                && placement_dist(bits, s, ki) <= placement_dist(bits, n - k, ki);
            assert(placement_dist(r, m - w, ki) == placement_dist(bits, w, ki));
            assert(f <= placement_dist(bits, w, ki));
            assert(g <= placement_dist(r, m - w, ki));
        }
        if s0 > 0 {
            assert(placement_dist(r, m - s0, ki) == placement_dist(bits, s0, ki));
            assert(g <= f);
        }
        if s1 > 0 {
            assert(f <= placement_dist(bits, m - s1, ki));
        }
    }
}

} // verus!
