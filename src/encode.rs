//! Run-length signatures of boolean lines, and the penalty that measures how
//! far a signature is from a target.

use vstd::prelude::*;

verus! {

/// The lengths of the maximal runs of `true` in `row`, left to right.
/// Read from the last cell: a trailing `false` adds nothing, a `true` after a
/// `true` lengthens the last run, and any other `true` opens a run of one.
pub open spec fn encode(row: Seq<bool>) -> Seq<int>
    decreases row.len(),
{
    if row.len() == 0 {
        Seq::empty()
    } else {
        let prev = encode(row.drop_last());
        if !row.last() {
            prev
        } else if row.len() >= 2 && row[row.len() - 2] {
            prev.update(prev.len() - 1, prev.last() + 1)
        } else {
            prev.push(1)
        }
    }
}

/// A sequence of machine integers as mathematical integers.
pub open spec fn ints(v: Seq<usize>) -> Seq<int> {
    v.map_values(|x: usize| x as int)
}

/// The `i`-th entry of `a`, or zero past its end.
pub open spec fn entry(a: Seq<int>, i: int) -> int {
    if 0 <= i < a.len() { a[i] } else { 0 }
}

/// The sum of squared differences over the first `m` positions, a missing
/// entry counting as zero.
pub open spec fn score_upto(a: Seq<int>, b: Seq<int>, m: nat) -> int
    decreases m,
{
    if m == 0 {
        0
    } else {
        let d = entry(a, m - 1) - entry(b, m - 1);
        score_upto(a, b, (m - 1) as nat) + d * d
    }
}

/// The penalty of signature `a` against target `b`: the sum over all
/// positions of the squared difference, where the shorter sequence is read
/// as padded with zeros.
pub open spec fn score(a: Seq<int>, b: Seq<int>) -> int {
    score_upto(a, b, if a.len() >= b.len() { a.len() } else { b.len() })
}

/// Every entry of `a` is positive, as in a signature.
pub open spec fn positive(a: Seq<int>) -> bool {
    forall|i: int| 0 <= i < a.len() ==> a[i] > 0
}

/// Every run is at least one and at most the row's length long, and there
/// are no more runs than cells.
pub proof fn lemma_encode_bounds(row: Seq<bool>)
    ensures
        encode(row).len() <= row.len(),
        forall|i: int| 0 <= i < encode(row).len() ==> 1 <= #[trigger] encode(row)[i] <= row.len(),
        row.len() > 0 && row.last() ==> encode(row).len() > 0,
    decreases row.len(),
{
    if row.len() > 0 {
        let p = row.drop_last();
        lemma_encode_bounds(p);
        if row.last() && row.len() >= 2 && row[row.len() - 2] {
            assert(p.last() == row[row.len() - 2]);
        }
    }
}

/// Partial penalties are never negative and grow with the number of
/// positions summed.
pub proof fn lemma_score_upto_nonneg_mono(a: Seq<int>, b: Seq<int>, i: nat, j: nat)
    requires
        i <= j,
    ensures
        0 <= score_upto(a, b, i) <= score_upto(a, b, j),
    decreases j,
{
    if j > 0 {
        let d = entry(a, j - 1) - entry(b, j - 1);
        assert(d * d >= 0) by (nonlinear_arith);
        if i < j {
            lemma_score_upto_nonneg_mono(a, b, i, (j - 1) as nat);
        } else if i > 0 {
            lemma_score_upto_nonneg_mono(a, b, (i - 1) as nat, (j - 1) as nat);
        }
    }
}

proof fn lemma_score_upto_zero(a: Seq<int>, b: Seq<int>, m: nat)
    ensures
        score_upto(a, b, m) == 0 <==> forall|i: int| 0 <= i < m ==> entry(a, i) == entry(b, i),
    decreases m,
{
    if m > 0 {
        lemma_score_upto_zero(a, b, (m - 1) as nat);
        lemma_score_upto_nonneg_mono(a, b, (m - 1) as nat, (m - 1) as nat);
        let d = entry(a, m - 1) - entry(b, m - 1);
        assert(d * d >= 0 && (d * d == 0 <==> d == 0)) by (nonlinear_arith);
        if score_upto(a, b, m) == 0 {
            assert forall|i: int| 0 <= i < m implies entry(a, i) == entry(b, i) by {
                if i < m - 1 {
                    assert(entry(a, i) == entry(b, i));
                }
            }
        }
    }
}

/// A row meets a target signature of positive run lengths exactly when its
/// penalty against it is zero.
pub proof fn lemma_score_zero_iff_match(row: Seq<bool>, target: Seq<int>)
    requires
        positive(target),
    ensures
        score(encode(row), target) == 0 <==> encode(row) == target,
{
    let a = encode(row);
    let m: nat = if a.len() >= target.len() { a.len() } else { target.len() };
    lemma_encode_bounds(row);
    lemma_score_upto_zero(a, target, m);
    if score(a, target) == 0 {
        if a.len() < target.len() {
            assert(entry(a, a.len() as int) == entry(target, a.len() as int));
        } else if a.len() > target.len() {
            assert(entry(a, target.len() as int) == entry(target, target.len() as int));
        } else {
            assert forall|i: int| 0 <= i < a.len() implies a[i] == target[i] by {
                assert(entry(a, i) == entry(target, i));
            }
        }
        assert(a =~= target);
    }
}

/// Splits `row` into the maximal runs of `true` and returns their lengths in
/// order.
pub fn row_as_nums(row: &Vec<bool>) -> (nums: Vec<usize>)
    ensures
        ints(nums@) == encode(row@),
{
    let mut nums: Vec<usize> = Vec::new();
    let mut prev = false;
    let mut streak: usize = 0;
    let mut i: usize = 0;
    while i < row.len()
        invariant
            i <= row.len(),
            streak <= i,
            i == 0 ==> !prev,
            i > 0 ==> prev == row@[i - 1],
            prev ==> streak >= 1,
            encode(row@.take(i as int)) == if prev { ints(nums@).push(streak as int) } else { ints(nums@) },
        decreases row.len() - i,
    {
        let color = row[i];
        proof {
            let t = row@.take(i + 1);
            assert(t.drop_last() =~= row@.take(i as int));
            assert(t.last() == color);
            if i > 0 {
                assert(t[t.len() - 2] == prev);
            }
        }
        if prev == color {
            streak = streak + 1;
            proof {
                if prev {
                    let e = ints(nums@).push((streak - 1) as int);
                    assert(e.update(e.len() - 1, e.last() + 1) =~= ints(nums@).push(streak as int));
                }
            }
        } else {
            if streak > 0 && prev == true {
                let ghost before = nums@;
                nums.push(streak);
                assert(ints(nums@) =~= ints(before).push(streak as int));
            }
            streak = 1;
        }
        prev = color;
        i = i + 1;
    }
    if streak > 0 && prev == true {
        let ghost before = nums@;
        nums.push(streak);
        assert(ints(nums@) =~= ints(before).push(streak as int));
    }
    assert(row@.take(row.len() as int) =~= row@);
    nums
}

/// The penalty of `row` against its target signature: the sum of squared
/// differences between its run lengths and the target's, position by
/// position, a missing run counting as zero.
pub fn row_diff(row: &Vec<bool>, target_row: &Vec<usize>) -> (r: usize)
    requires
        score(encode(row@), ints(target_row@)) <= usize::MAX,
    ensures
        r == score(encode(row@), ints(target_row@)),
{
    let as_nums = row_as_nums(row);
    let ghost a = ints(as_nums@);
    let ghost b = ints(target_row@);
    let m: usize = if as_nums.len() >= target_row.len() { as_nums.len() } else { target_row.len() };
    let mut diff: usize = 0;
    let mut i: usize = 0;
    while i < m
        invariant
            a == encode(row@),
            a == ints(as_nums@),
            b == ints(target_row@),
            m as int == if a.len() >= b.len() { a.len() } else { b.len() },
            score(a, b) <= usize::MAX,
            i <= m,
            diff == score_upto(a, b, i as nat),
        decreases m - i,
    {
        let x: usize = if i < as_nums.len() { as_nums[i] } else { 0 };
        let y: usize = if i < target_row.len() { target_row[i] } else { 0 };
        let d: usize = if x >= y { x - y } else { y - x };
        proof {
            let e = entry(a, i as int) - entry(b, i as int);
            assert(e == x - y);
            assert((d as int) * (d as int) == e * e) by (nonlinear_arith)
                requires d == e || d == -e;
            lemma_score_upto_nonneg_mono(a, b, (i + 1) as nat, m as nat);
        }
        diff = diff + d * d;
        i = i + 1;
    }
    diff
}

} // verus!
