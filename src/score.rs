use vstd::prelude::*;
use vstd::math::{abs, max, min};

use crate::letter::{Letter, GAP};

verus! {

/// Score is an 64-bit signed integer (allows negative values).
pub type Score = i64;

/// Number of decimal digits of `n`.
pub open spec fn decimal_len(n: nat) -> nat
    decreases n,
{
    if n < 10 {
        1
    } else {
        1 + decimal_len(n / 10)
    }
}

/// Number of characters needed to render `score` in decimal, the minus sign
/// of a negative score included.
pub open spec fn score_width(score: int) -> nat {
    if score < 0 {
        decimal_len((-score) as nat) + 1
    } else {
        decimal_len(score as nat)
    }
}

/// Ten to the power `e`.
pub open spec fn pow10(e: nat) -> nat
    decreases e,
{
    if e == 0 {
        1
    } else {
        10 * pow10((e - 1) as nat)
    }
}

proof fn lemma_decimal_len_below(n: nat, d: nat)
    requires
        1 <= d,
        n < pow10(d),
    ensures
        decimal_len(n) <= d,
    decreases d,
{
    if n >= 10 {
        if d == 1 {
            assert(pow10(1) == 10 * pow10(0));
        } else {
            let p = pow10((d - 1) as nat);
            assert(n / 10 < p) by (nonlinear_arith)
                requires
                    n < 10 * p,
            ;
            lemma_decimal_len_below(n / 10, (d - 1) as nat);
        }
    }
}

proof fn lemma_u64_decimal_len(n: u64)
    ensures
        decimal_len(n as nat) <= 20,
{
    reveal_with_fuel(pow10, 21);
    assert(pow10(20) == 100000000000000000000nat);
    lemma_decimal_len_below(n as nat, 20);
}

/// Number of decimal digits of `n`.
fn u64_digit_count(n: u64) -> (r: u32)
    ensures
        r == decimal_len(n as nat),
        r <= 20,
{
    proof {
        lemma_u64_decimal_len(n);
    }
    let mut rest: u64 = n;
    let mut count: u32 = 1;
    while rest >= 10
        invariant
            count + decimal_len(rest as nat) == decimal_len(n as nat) + 1,
            decimal_len(n as nat) <= 20,
        decreases rest,
    {
        rest = rest / 10;
        count = count + 1;
    }
    count
}

/// Counts how many decimal digits `k` needs to be rendered.
pub fn index_digit_count(k: usize) -> (r: u32)
    ensures
        r == decimal_len(k as nat),
{
    u64_digit_count(k as u64)
}

/// Counts how many characters a score needs to be rendered in decimal,
/// including the minus sign of a negative score.
pub fn score_digit_count(score: Score) -> (r: u32)
    ensures
        r == score_width(score as int),
{
    if score < 0 {
        // -(score + 1) cannot overflow, even for the smallest score
        let magnitude: u64 = (-(score + 1)) as u64 + 1;
        u64_digit_count(magnitude) + 1
    } else {
        u64_digit_count(score as u64)
    }
}

/// The weight of aligning letter `a` against letter `b` on a diagonal step:
/// `match_w` when they are equal, `mismatch_w` otherwise.
pub open spec fn substitution(match_w: int, mismatch_w: int, a: Letter, b: Letter) -> int {
    if a == b {
        match_w
    } else {
        mismatch_w
    }
}

/// The weight of one column of an alignment: `gap_w` when either side is a
/// gap, else the substitution weight of the two letters.
pub open spec fn column_weight(match_w: int, mismatch_w: int, gap_w: int, a: Letter, b: Letter) -> int {
    if a == GAP || b == GAP {
        gap_w
    } else {
        substitution(match_w, mismatch_w, a, b)
    }
}

/// The score of an aligned pair, summed column by column.
pub open spec fn pair_score(match_w: int, mismatch_w: int, gap_w: int, a: Seq<Letter>, b: Seq<Letter>) -> int
    decreases a.len(),
{
    if a.len() == 0 || b.len() == 0 {
        0
    } else {
        pair_score(match_w, mismatch_w, gap_w, a.drop_last(), b.drop_last())
            + column_weight(match_w, mismatch_w, gap_w, a.last(), b.last())
    }
}

/// Adding one column to an aligned pair adds its weight to the score.
pub proof fn lemma_pair_score_push(
    match_w: int,
    mismatch_w: int,
    gap_w: int,
    a: Seq<Letter>,
    b: Seq<Letter>,
    x: Letter,
    y: Letter,
)
    ensures
        pair_score(match_w, mismatch_w, gap_w, a.push(x), b.push(y))
            == pair_score(match_w, mismatch_w, gap_w, a, b)
            + column_weight(match_w, mismatch_w, gap_w, x, y),
{
    assert(a.push(x).drop_last() =~= a);
    assert(b.push(y).drop_last() =~= b);
}

/// The largest magnitude of a weight.
pub open spec fn weight_bound(match_w: int, mismatch_w: int, gap_w: int) -> int {
    max(max(abs(match_w) as int, abs(mismatch_w) as int), abs(gap_w) as int)
}

/// Whether aligning sequences of lengths `n` and `m` stays within the
/// machine's limits: every score reached on the way (at most `n + m + 1`
/// weights) fits in a `Score`, the matrix fits in memory, and the count of
/// diagonal steps fits in a `u32`.
pub open spec fn alignment_fits(n: nat, m: nat, match_w: int, mismatch_w: int, gap_w: int) -> bool {
    &&& (n + m + 1) * weight_bound(match_w, mismatch_w, gap_w) <= i64::MAX
    &&& (n + 1) * (m + 1) <= usize::MAX
    &&& min(n as int, m as int) <= u32::MAX
}

/// Each side of a matrix that fits in memory fits in a `usize` with room
/// for one more.
pub proof fn lemma_dimensions_fit(n: nat, m: nat)
    requires
        (n + 1) * (m + 1) <= usize::MAX,
    ensures
        n + 1 <= usize::MAX,
        m + 1 <= usize::MAX,
{
    assert(n + 1 <= (n + 1) * (m + 1) && m + 1 <= (n + 1) * (m + 1)) by (nonlinear_arith);
}

/// The magnitude of a score.
fn magnitude(x: Score) -> (r: u128)
    ensures
        r == abs(x as int),
{
    if x < 0 {
        (-(x as i128)) as u128
    } else {
        x as u128
    }
}

/// Tells whether aligning sequences of lengths `row_len` and `column_len`
/// under the given weights stays within the machine's limits, as the
/// alignment functions require.
pub fn fits_machine_limits(
    row_len: usize,
    column_len: usize,
    match_w: Score,
    mismatch_w: Score,
    gap_w: Score,
) -> (r: bool)
    ensures
        r == alignment_fits(row_len as nat, column_len as nat, match_w as int, mismatch_w as int, gap_w as int),
{
    let (a, b, c) = (magnitude(match_w), magnitude(mismatch_w), magnitude(gap_w));
    let larger = if a >= b {
        a
    } else {
        b
    };
    let bound: u128 = if larger >= c {
        larger
    } else {
        c
    };
    let steps: u128 = row_len as u128 + column_len as u128 + 1;
    let scores_fit = match steps.checked_mul(bound) {
        Some(total) => total <= i64::MAX as u128,
        None => false,
    };
    let cells_fit = match (row_len as u128 + 1).checked_mul(column_len as u128 + 1) {
        Some(cells) => cells <= usize::MAX as u128,
        None => false,
    };
    let shorter = if row_len <= column_len {
        row_len
    } else {
        column_len
    };
    scores_fit && cells_fit && shorter as u128 <= u32::MAX as u128
}

} // verus!
