//! Reading a line of whitespace-separated decimal numbers, as a puzzle's
//! dimensions and signatures are written.

use vstd::prelude::*;
use crate::encode::ints;

verus! {

/// A line held a token that is not a decimal number that fits in `usize`.
#[derive(Debug, Clone, Copy, PartialEq, Eq, Structural)]
pub struct ParseError;

/// ASCII white space: space, tab, line feed, vertical tab, form feed and
/// carriage return.
pub open spec fn is_space(c: u8) -> bool {
    c == 32 || (9 <= c && c <= 13)
}

/// An ASCII decimal digit.
pub open spec fn is_digit(c: u8) -> bool {
    48 <= c && c <= 57
}

/// The maximal runs of non-space bytes of `b`, left to right.
pub open spec fn tokens(b: Seq<u8>) -> Seq<Seq<u8>>
    decreases b.len(),
{
    if b.len() == 0 {
        Seq::empty()
    } else {
        let prev = tokens(b.drop_last());
        if is_space(b.last()) {
            prev
        } else if b.len() >= 2 && !is_space(b[b.len() - 2]) {
            prev.update(prev.len() - 1, prev.last().push(b.last()))
        } else {
            prev.push(seq![b.last()])
        }
    }
}

/// The value of a sequence of decimal digits, most significant first.
pub open spec fn decimal(t: Seq<u8>) -> int
    decreases t.len(),
{
    if t.len() == 0 {
        0
    } else {
        10 * decimal(t.drop_last()) + (t.last() - 48)
    }
}

/// A token that reads as a `usize`: digits only, and not above `usize::MAX`.
pub open spec fn valid_number(t: Seq<u8>) -> bool {
    &&& forall|i: int| 0 <= i < t.len() ==> is_digit(#[trigger] t[i])
    &&& decimal(t) <= usize::MAX
}

/// Every token in `ts` reads as a `usize`.
pub open spec fn all_valid(ts: Seq<Seq<u8>>) -> bool {
    forall|j: int| 0 <= j < ts.len() ==> valid_number(#[trigger] ts[j])
}

/// Every token of `b` reads as a `usize`.
pub open spec fn all_numbers(b: Seq<u8>) -> bool {
    all_valid(tokens(b))
}

proof fn lemma_decimal_nonneg(t: Seq<u8>)
    requires
        forall|i: int| 0 <= i < t.len() ==> is_digit(#[trigger] t[i]),
    ensures
        decimal(t) >= 0,
    decreases t.len(),
{
    if t.len() > 0 {
        lemma_decimal_nonneg(t.drop_last());
    }
}

/// Appending a byte to the last token keeps every token a number exactly
/// when they all were, the byte is a digit and the value still fits.
proof fn lemma_extend_last(t0: Seq<Seq<u8>>, c: u8)
    requires
        t0.len() > 0,
    ensures
        all_valid(t0.update(t0.len() - 1, t0.last().push(c))) == (all_valid(t0) && is_digit(c)
            && 10 * decimal(t0.last()) + (c - 48) <= usize::MAX),
{
    let last = t0.last();
    let ext = last.push(c);
    let t1 = t0.update(t0.len() - 1, ext);
    assert(ext.drop_last() =~= last);
    assert(ext.last() == c);
    assert(decimal(ext) == 10 * decimal(last) + (c - 48));
    assert forall|j: int| 0 <= j < t0.len() - 1 implies t1[j] == t0[j] by {}
    assert(t1[t1.len() - 1] == ext);
    let all_digits = forall|k: int| 0 <= k < last.len() ==> is_digit(#[trigger] last[k]);
    assert((forall|k: int| 0 <= k < ext.len() ==> is_digit(#[trigger] ext[k])) == (all_digits && is_digit(c))) by {
        assert(ext[last.len() as int] == c);
        assert forall|k: int| 0 <= k < last.len() implies ext[k] == last[k] by {}
    }
    if all_digits {
        lemma_decimal_nonneg(last);
    }
    if all_valid(t1) {
        assert(valid_number(t1[t1.len() - 1]));
        assert forall|j: int| 0 <= j < t0.len() implies valid_number(#[trigger] t0[j]) by {
            if j < t0.len() - 1 {
                assert(valid_number(t1[j]));
            }
        }
    }
    if all_valid(t0) && is_digit(c) && 10 * decimal(last) + (c - 48) <= usize::MAX {
        assert(valid_number(t0[t0.len() - 1]));
        assert forall|j: int| 0 <= j < t1.len() implies valid_number(#[trigger] t1[j]) by {
            if j < t1.len() - 1 {
                assert(valid_number(t0[j]));
            }
        }
    }
}

/// Opening a token with one byte keeps every token a number exactly when
/// they all were and the byte is a digit.
proof fn lemma_open_token(t0: Seq<Seq<u8>>, c: u8)
    ensures
        all_valid(t0.push(seq![c])) == (all_valid(t0) && is_digit(c)),
        decimal(seq![c]) == c - 48,
{
    let one = seq![c];
    assert(one.drop_last() =~= Seq::<u8>::empty());
    assert(one.last() == c);
    assert(decimal(Seq::<u8>::empty()) == 0);
    assert(decimal(one) == c - 48);
    let t1 = t0.push(one);
    assert(t1[t0.len() as int] == one);
    if all_valid(t1) {
        assert(valid_number(t1[t0.len() as int]));
        assert(one[0] == c);
        assert forall|j: int| 0 <= j < t0.len() implies valid_number(#[trigger] t0[j]) by {
            assert(valid_number(t1[j]));
        }
    }
    if all_valid(t0) && is_digit(c) {
        assert forall|j: int| 0 <= j < t1.len() implies valid_number(#[trigger] t1[j]) by {
            if j < t0.len() {
                assert(valid_number(t0[j]));
            } else {
                assert forall|k: int| 0 <= k < one.len() implies is_digit(#[trigger] one[k]) by {}
            }
        }
    }
}

/// Reads every white-space separated token of `line` as a decimal `usize`.
/// Fails exactly when some token is not one.
pub fn parse_numbers(line: &[u8]) -> (r: Result<Vec<usize>, ParseError>)
    ensures
        r is Ok <==> all_numbers(line@),
        r matches Ok(v) ==> ints(v@) == tokens(line@).map_values(|t: Seq<u8>| decimal(t)),
{
    let ghost b = line@;
    let mut nums: Vec<usize> = Vec::new();
    let mut in_token = false;
    let mut ok = true;
    let mut cur: usize = 0;
    let mut i: usize = 0;
    while i < line.len()
        invariant
            b == line@,
            i <= b.len(),
            in_token == (i > 0 && !is_space(b[i - 1])),
            in_token ==> tokens(b.take(i as int)).len() > 0,
            ok == all_numbers(b.take(i as int)),
            ok ==> tokens(b.take(i as int)).map_values(|t: Seq<u8>| decimal(t))
                == if in_token { ints(nums@).push(cur as int) } else { ints(nums@) },
        decreases b.len() - i,
    {
        let c = line[i];
        let ghost t0 = tokens(b.take(i as int));
        let ghost nums0 = nums@;
        proof {
            let bt = b.take(i + 1);
            assert(bt.drop_last() =~= b.take(i as int));
            assert(bt.last() == c);
            if i > 0 {
                assert(bt[bt.len() - 2] == b[i - 1]);
            }
        }
        if c == 32 || (9 <= c && c <= 13) {
            if in_token && ok {
                nums.push(cur);
                assert(ints(nums@) =~= ints(nums0).push(cur as int));
            }
            in_token = false;
        } else if in_token {
            let ghost last = t0.last();
            let ghost t1 = t0.update(t0.len() - 1, last.push(c));
            assert(tokens(b.take(i + 1)) == t1);
            proof {
                lemma_extend_last(t0, c);
                if ok {
                    let m = t0.map_values(|t: Seq<u8>| decimal(t));
                    assert(m[t0.len() - 1] == decimal(last));
                    assert(m == ints(nums@).push(cur as int));
                    assert(decimal(last) == cur);
                }
            }
            if ok {
                if 48 <= c && c <= 57 {
                    let d = (c - 48) as usize;
                    match cur.checked_mul(10) {
                        Some(x) => match x.checked_add(d) {
                            Some(y) => {
                                cur = y;
                            },
                            None => {
                                ok = false;
                            },
                        },
                        None => {
                            ok = false;
                        },
                    }
                } else {
                    ok = false;
                }
            }
            proof {
                if ok {
                    let m = t0.map_values(|t: Seq<u8>| decimal(t));
                    assert(last.push(c).drop_last() =~= last);
                    assert(t1.map_values(|t: Seq<u8>| decimal(t)) =~= m.update(m.len() - 1, cur as int));
                    assert(ints(nums@).push(cur as int) =~= m.update(m.len() - 1, cur as int));
                }
            }
        } else {
            let ghost t1 = t0.push(seq![c]);
            assert(tokens(b.take(i + 1)) == t1);
            proof {
                lemma_open_token(t0, c);
            }
            if ok {
                if 48 <= c && c <= 57 {
                    cur = (c - 48) as usize;
                } else {
                    ok = false;
                }
            }
            proof {
                if ok {
                    assert(t1.map_values(|t: Seq<u8>| decimal(t)) =~= ints(nums@).push(cur as int));
                }
            }
            in_token = true;
        }
        i = i + 1;
    }
    assert(b.take(b.len() as int) =~= b);
    if !ok {
        return Err(ParseError);
    }
    if in_token {
        let ghost nums0 = nums@;
        nums.push(cur);
        assert(ints(nums@) =~= ints(nums0).push(cur as int));
    }
    Ok(nums)
}

} // verus!
