use vstd::prelude::*;
use vstd::math::max;

use crate::letter::{
    gap_free, lemma_push_reverse, lemma_without_gaps_push, reversed, without_gaps, Letter,
    NormalizeLetter, GAP,
};
use crate::matrix::{before, has_shape, AlignmentMatrix};
use crate::score::{
    alignment_fits, lemma_dimensions_fit, lemma_pair_score_push, pair_score, substitution, weight_bound,
    Score,
};

verus! {

/// Penalty/base score system of a global alignment.
#[derive(Debug, Clone, Copy, PartialEq, Eq)]
pub struct GlobalAlignmentConfig {
    /// Added when letters match.
    pub match_penalty: Score,
    /// Added when letters do not match, but it is not a gap.
    pub mismatch_penalty: Score,
    /// Added when there's a gap.
    pub gap_penalty: Score,
}

impl Default for GlobalAlignmentConfig {
    fn default() -> (r: Self)
        ensures
            r.match_penalty == 1,
            r.mismatch_penalty == -1,
            r.gap_penalty == -2,
    {
        Self { match_penalty: 1, mismatch_penalty: -1, gap_penalty: -2 }
    }
}

/// Result of the global alignment.
#[derive(Debug, Clone, PartialEq, Eq)]
pub struct GlobalAlignmentResult {
    /// The sequence that was associated with "row" display,
    /// aligned with the one displayed in a column.
    pub aligned_row_seq: Vec<Letter>,
    /// The sequence that was associated with "column" display,
    /// aligned with the one displayed in a row.
    pub aligned_column_seq: Vec<Letter>,
    /// Total score of the global alignment.
    pub score: Score,
    /// Numerator of the identity fraction (32-bit).
    pub identity_numer: u32,
    /// Denominator of the identity fraction (32-bit).
    pub identity_denom: u32,
}

/// Possible directions during traceback phase.
#[derive(Debug, Clone, Copy, PartialEq, Eq)]
enum TracebackStep {
    /// Towards i - 1, j -1
    TopLeft,
    /// Towards i - 1, j
    Top,
    /// Towards i, j - 1
    Left,
}

/// The value that the Needleman-Wunsch recurrence gives a cell whose row
/// letter is `a` and column letter `b`, from its top-left, top and left
/// neighbours: the best of a diagonal step and a gap step.
pub open spec fn nw_cell_value(
    cfg: GlobalAlignmentConfig,
    a: Letter,
    b: Letter,
    top_left: int,
    top: int,
    left: int,
) -> int {
    max(
        max(top, left) + cfg.gap_penalty,
        top_left + substitution(cfg.match_penalty as int, cfg.mismatch_penalty as int, a, b),
    )
}

/// Whether the two sums of that recurrence fit in a `Score`.
pub open spec fn nw_cell_fits(
    cfg: GlobalAlignmentConfig,
    a: Letter,
    b: Letter,
    top_left: int,
    top: int,
    left: int,
) -> bool {
    &&& i64::MIN <= top_left + substitution(cfg.match_penalty as int, cfg.mismatch_penalty as int, a, b) <= i64::MAX
    &&& i64::MIN <= max(top, left) + cfg.gap_penalty <= i64::MAX
}

/// The Needleman-Wunsch score of aligning the first `i` letters of `r`
/// against the first `j` letters of `c`.
pub open spec fn nw_score(r: Seq<Letter>, c: Seq<Letter>, cfg: GlobalAlignmentConfig, i: nat, j: nat) -> int
    decreases i + j,
{
    if i == 0 {
        j * cfg.gap_penalty
    } else if j == 0 {
        i * cfg.gap_penalty
    } else {
        nw_cell_value(
            cfg,
            r[i - 1],
            c[j - 1],
            nw_score(r, c, cfg, (i - 1) as nat, (j - 1) as nat),
            nw_score(r, c, cfg, (i - 1) as nat, j),
            nw_score(r, c, cfg, i, (j - 1) as nat),
        )
    }
}

/// The filled Needleman-Wunsch matrix of `r` (rows) and `c` (columns).
pub open spec fn nw_rows(r: Seq<Letter>, c: Seq<Letter>, cfg: GlobalAlignmentConfig) -> Seq<Seq<i64>> {
    Seq::new(
        r.len() + 1,
        |i: int| Seq::new(c.len() + 1, |j: int| nw_score(r, c, cfg, i as nat, j as nat) as i64),
    )
}

/// The traceback from cell `(i, j)` to the origin, as the aligned row, the
/// aligned column, the number of diagonal steps on equal letters and the
/// number of diagonal steps. Up is preferred to Left, and Left to Diagonal.
pub open spec fn nw_path(r: Seq<Letter>, c: Seq<Letter>, cfg: GlobalAlignmentConfig, i: nat, j: nat) -> (
    Seq<Letter>,
    Seq<Letter>,
    nat,
    nat,
)
    decreases i + j,
{
    let s = nw_score(r, c, cfg, i, j);
    if i == 0 && j == 0 {
        (Seq::empty(), Seq::empty(), 0, 0)
    } else if i > 0 && s == nw_score(r, c, cfg, (i - 1) as nat, j) + cfg.gap_penalty {
        let p = nw_path(r, c, cfg, (i - 1) as nat, j);
        (p.0.push(r[i - 1]), p.1.push(GAP), p.2, p.3)
    } else if j > 0 && s == nw_score(r, c, cfg, i, (j - 1) as nat) + cfg.gap_penalty {
        let p = nw_path(r, c, cfg, i, (j - 1) as nat);
        (p.0.push(GAP), p.1.push(c[j - 1]), p.2, p.3)
    } else if i > 0 && j > 0 {
        let p = nw_path(r, c, cfg, (i - 1) as nat, (j - 1) as nat);
        let same: nat = if r[i - 1] == c[j - 1] {
            1
        } else {
            0
        };
        (p.0.push(r[i - 1]), p.1.push(c[j - 1]), p.2 + same, p.3 + 1)
    } else {
        // never reached: on the borders the Up or Left test holds
        (Seq::empty(), Seq::empty(), 0, 0)
    }
}

/// Whether `res` is the global alignment of `r` against `c`: the traceback
/// from the bottom-right cell, its score, and the identity fraction with its
/// denominator floored to 1.
pub open spec fn is_global_alignment(
    res: GlobalAlignmentResult,
    r: Seq<Letter>,
    c: Seq<Letter>,
    cfg: GlobalAlignmentConfig,
) -> bool {
    let p = nw_path(r, c, cfg, r.len(), c.len());
    &&& res.aligned_row_seq@ == p.0
    &&& res.aligned_column_seq@ == p.1
    &&& res.score == nw_score(r, c, cfg, r.len(), c.len())
    &&& res.identity_numer == p.2
    &&& res.identity_denom == if p.3 == 0 {
        1
    } else {
        p.3
    }
}

/// Whether aligning `r` against `c` under `cfg` stays within machine limits.
pub open spec fn nw_fits(r: Seq<Letter>, c: Seq<Letter>, cfg: GlobalAlignmentConfig) -> bool {
    alignment_fits(
        r.len(),
        c.len(),
        cfg.match_penalty as int,
        cfg.mismatch_penalty as int,
        cfg.gap_penalty as int,
    )
}

spec fn bound_of(cfg: GlobalAlignmentConfig) -> int {
    weight_bound(cfg.match_penalty as int, cfg.mismatch_penalty as int, cfg.gap_penalty as int)
}

proof fn lemma_nw_bound(r: Seq<Letter>, c: Seq<Letter>, cfg: GlobalAlignmentConfig, i: nat, j: nat)
    requires
        i <= r.len(),
        j <= c.len(),
    ensures
        -((i + j) * bound_of(cfg)) <= nw_score(r, c, cfg, i, j) <= (i + j) * bound_of(cfg),
    decreases i + j,
{
    let b = bound_of(cfg);
    let g = cfg.gap_penalty as int;
    let k = (i + j) as int;
    assert(-b <= g <= b);
    assert(b >= 0);
    if i == 0 || j == 0 {
        let n: int = if i == 0 {
            j as int
        } else {
            i as int
        };
        assert(-(n * b) <= n * g <= n * b) by (nonlinear_arith)
            requires
                -b <= g <= b,
                n >= 0,
        ;
    } else {
        lemma_nw_bound(r, c, cfg, (i - 1) as nat, (j - 1) as nat);
        lemma_nw_bound(r, c, cfg, (i - 1) as nat, j);
        lemma_nw_bound(r, c, cfg, i, (j - 1) as nat);
        assert((k - 2) * b + b <= k * b && (k - 1) * b + b == k * b) by (nonlinear_arith)
            requires
                b >= 0,
        ;
        assert(-((k - 2) * b) - b >= -(k * b) && -((k - 1) * b) - b == -(k * b)) by (nonlinear_arith)
            requires
                b >= 0,
        ;
    }
}

/// Every score of the matrix, plus or minus any weight, fits in a `Score`.
proof fn lemma_nw_fits(r: Seq<Letter>, c: Seq<Letter>, cfg: GlobalAlignmentConfig, i: nat, j: nat)
    requires
        nw_fits(r, c, cfg),
        i <= r.len(),
        j <= c.len(),
    ensures
        i64::MIN < nw_score(r, c, cfg, i, j) - bound_of(cfg),
        nw_score(r, c, cfg, i, j) + bound_of(cfg) <= i64::MAX,
        -bound_of(cfg) <= cfg.gap_penalty <= bound_of(cfg),
        -bound_of(cfg) <= cfg.match_penalty <= bound_of(cfg),
        -bound_of(cfg) <= cfg.mismatch_penalty <= bound_of(cfg),
{
    let b = bound_of(cfg);
    let n = r.len() as int;
    let m = c.len() as int;
    lemma_nw_bound(r, c, cfg, i, j);
    assert((i + j) * b + b <= (n + m + 1) * b) by (nonlinear_arith)
        requires
            b >= 0,
            i <= n,
            j <= m,
    ;
}

/// On the borders, the traceback moves along the border.
proof fn lemma_nw_border(r: Seq<Letter>, c: Seq<Letter>, cfg: GlobalAlignmentConfig, i: nat, j: nat)
    ensures
        i == 0 && j > 0 ==> nw_score(r, c, cfg, 0, j) == nw_score(r, c, cfg, 0, (j - 1) as nat)
            + cfg.gap_penalty,
        j == 0 && i > 0 ==> nw_score(r, c, cfg, i, 0) == nw_score(r, c, cfg, (i - 1) as nat, 0)
            + cfg.gap_penalty,
{
    let g = cfg.gap_penalty as int;
    if i == 0 && j > 0 {
        assert(j * g == (j - 1) * g + g) by (nonlinear_arith);
    }
    if j == 0 && i > 0 {
        assert(i * g == (i - 1) * g + g) by (nonlinear_arith);
    }
}

/// Shape and counts of the traceback from `(i, j)`: both sides have one
/// length, between `max(i, j)` and `i + j`; equal-letter diagonal steps are
/// at most all diagonal steps, which are at most `min(i, j)`.
proof fn lemma_nw_path_shape(r: Seq<Letter>, c: Seq<Letter>, cfg: GlobalAlignmentConfig, i: nat, j: nat)
    requires
        i <= r.len(),
        j <= c.len(),
    ensures
        ({
            let p = nw_path(r, c, cfg, i, j);
            &&& p.0.len() == p.1.len()
            &&& i <= p.0.len() && j <= p.0.len() && p.0.len() <= i + j
            &&& p.2 <= p.3 && p.3 <= i && p.3 <= j
        }),
    decreases i + j,
{
    lemma_nw_border(r, c, cfg, i, j);
    if i > 0 {
        lemma_nw_path_shape(r, c, cfg, (i - 1) as nat, j);
    }
    if j > 0 {
        lemma_nw_path_shape(r, c, cfg, i, (j - 1) as nat);
    }
    if i > 0 && j > 0 {
        lemma_nw_path_shape(r, c, cfg, (i - 1) as nat, (j - 1) as nat);
    }
}

/// Removing the gaps of the traceback from `(i, j)` gives back the first `i`
/// letters of `r` and the first `j` letters of `c`.
proof fn lemma_nw_path_letters(r: Seq<Letter>, c: Seq<Letter>, cfg: GlobalAlignmentConfig, i: nat, j: nat)
    requires
        i <= r.len(),
        j <= c.len(),
        gap_free(r),
        gap_free(c),
    ensures
        without_gaps(nw_path(r, c, cfg, i, j).0) == r.take(i as int),
        without_gaps(nw_path(r, c, cfg, i, j).1) == c.take(j as int),
    decreases i + j,
{
    lemma_nw_border(r, c, cfg, i, j);
    let s = nw_score(r, c, cfg, i, j);
    if i == 0 && j == 0 {
        assert(without_gaps(Seq::empty()) =~= Seq::<Letter>::empty()) by {
            reveal(Seq::filter);
        }
        assert(r.take(0) =~= Seq::<Letter>::empty());
        assert(c.take(0) =~= Seq::<Letter>::empty());
    } else if i > 0 && s == nw_score(r, c, cfg, (i - 1) as nat, j) + cfg.gap_penalty {
        let p = nw_path(r, c, cfg, (i - 1) as nat, j);
        lemma_nw_path_letters(r, c, cfg, (i - 1) as nat, j);
        lemma_without_gaps_push(p.0, r[i - 1]);
        lemma_without_gaps_push(p.1, GAP);
        assert(r.take(i - 1).push(r[i - 1]) =~= r.take(i as int));
    } else if j > 0 && s == nw_score(r, c, cfg, i, (j - 1) as nat) + cfg.gap_penalty {
        let p = nw_path(r, c, cfg, i, (j - 1) as nat);
        lemma_nw_path_letters(r, c, cfg, i, (j - 1) as nat);
        lemma_without_gaps_push(p.0, GAP);
        lemma_without_gaps_push(p.1, c[j - 1]);
        assert(c.take(j - 1).push(c[j - 1]) =~= c.take(j as int));
    } else {
        let p = nw_path(r, c, cfg, (i - 1) as nat, (j - 1) as nat);
        lemma_nw_path_letters(r, c, cfg, (i - 1) as nat, (j - 1) as nat);
        lemma_without_gaps_push(p.0, r[i - 1]);
        lemma_without_gaps_push(p.1, c[j - 1]);
        assert(r.take(i - 1).push(r[i - 1]) =~= r.take(i as int));
        assert(c.take(j - 1).push(c[j - 1]) =~= c.take(j as int));
    }
}

/// Summing the weights of the columns of the traceback from `(i, j)` gives
/// the score of cell `(i, j)`.
proof fn lemma_nw_path_score(r: Seq<Letter>, c: Seq<Letter>, cfg: GlobalAlignmentConfig, i: nat, j: nat)
    requires
        i <= r.len(),
        j <= c.len(),
        gap_free(r),
        gap_free(c),
    ensures
        pair_score(
            cfg.match_penalty as int,
            cfg.mismatch_penalty as int,
            cfg.gap_penalty as int,
            nw_path(r, c, cfg, i, j).0,
            nw_path(r, c, cfg, i, j).1,
        ) == nw_score(r, c, cfg, i, j),
    decreases i + j,
{
    let (mt, mm, g) = (cfg.match_penalty as int, cfg.mismatch_penalty as int, cfg.gap_penalty as int);
    lemma_nw_border(r, c, cfg, i, j);
    let s = nw_score(r, c, cfg, i, j);
    if i == 0 && j == 0 {
    } else if i > 0 && s == nw_score(r, c, cfg, (i - 1) as nat, j) + cfg.gap_penalty {
        let p = nw_path(r, c, cfg, (i - 1) as nat, j);
        lemma_nw_path_score(r, c, cfg, (i - 1) as nat, j);
        lemma_pair_score_push(mt, mm, g, p.0, p.1, r[i - 1], GAP);
    } else if j > 0 && s == nw_score(r, c, cfg, i, (j - 1) as nat) + cfg.gap_penalty {
        let p = nw_path(r, c, cfg, i, (j - 1) as nat);
        lemma_nw_path_score(r, c, cfg, i, (j - 1) as nat);
        lemma_pair_score_push(mt, mm, g, p.0, p.1, GAP, c[j - 1]);
    } else {
        let p = nw_path(r, c, cfg, (i - 1) as nat, (j - 1) as nat);
        lemma_nw_path_score(r, c, cfg, (i - 1) as nat, (j - 1) as nat);
        lemma_pair_score_push(mt, mm, g, p.0, p.1, r[i - 1], c[j - 1]);
    }
}

/// The two sides of a global alignment have one length, at least that of
/// the longer sequence and at most the sum of both lengths.
pub proof fn lemma_global_alignment_length(r: Seq<Letter>, c: Seq<Letter>, cfg: GlobalAlignmentConfig)
    ensures
        ({
            let p = nw_path(r, c, cfg, r.len(), c.len());
            &&& p.0.len() == p.1.len()
            &&& max(r.len() as int, c.len() as int) <= p.0.len() <= r.len() + c.len()
        }),
{
    lemma_nw_path_shape(r, c, cfg, r.len(), c.len());
}

/// Removing the gaps of each side of a global alignment gives back the
/// aligned sequence, for sequences that hold no gap.
pub proof fn lemma_global_alignment_round_trip(r: Seq<Letter>, c: Seq<Letter>, cfg: GlobalAlignmentConfig)
    requires
        gap_free(r),
        gap_free(c),
    ensures
        without_gaps(nw_path(r, c, cfg, r.len(), c.len()).0) == r,
        without_gaps(nw_path(r, c, cfg, r.len(), c.len()).1) == c,
{
    lemma_nw_path_letters(r, c, cfg, r.len(), c.len());
    assert(r.take(r.len() as int) =~= r);
    assert(c.take(c.len() as int) =~= c);
}

/// Summing the weight of each column of a global alignment gives its score,
/// for sequences that hold no gap.
pub proof fn lemma_global_alignment_score(r: Seq<Letter>, c: Seq<Letter>, cfg: GlobalAlignmentConfig)
    requires
        gap_free(r),
        gap_free(c),
    ensures
        pair_score(
            cfg.match_penalty as int,
            cfg.mismatch_penalty as int,
            cfg.gap_penalty as int,
            nw_path(r, c, cfg, r.len(), c.len()).0,
            nw_path(r, c, cfg, r.len(), c.len()).1,
        ) == nw_score(r, c, cfg, r.len(), c.len()),
{
    lemma_nw_path_score(r, c, cfg, r.len(), c.len());
}

proof fn lemma_nw_path_first_row(r: Seq<Letter>, c: Seq<Letter>, cfg: GlobalAlignmentConfig, j: nat)
    requires
        j <= c.len(),
    ensures
        nw_path(r, c, cfg, 0, j).0 == Seq::new(j, |k: int| GAP),
        nw_path(r, c, cfg, 0, j).1 == c.take(j as int),
        nw_path(r, c, cfg, 0, j).2 == 0,
        nw_path(r, c, cfg, 0, j).3 == 0,
    decreases j,
{
    if j == 0 {
        assert(c.take(0) =~= Seq::<Letter>::empty());
        assert(Seq::new(0, |k: int| GAP) =~= Seq::<Letter>::empty());
    } else {
        lemma_nw_border(r, c, cfg, 0, j);
        lemma_nw_path_first_row(r, c, cfg, (j - 1) as nat);
        assert(Seq::new((j - 1) as nat, |k: int| GAP).push(GAP) =~= Seq::new(j, |k: int| GAP));
        assert(c.take(j - 1).push(c[j - 1]) =~= c.take(j as int));
    }
}

/// Aligning an empty row against any column gives a row of gaps only, the
/// column itself, a score of one gap weight per letter of the column, and
/// no diagonal step (an identity of 0 over the floored denominator 1).
pub proof fn lemma_global_empty_row(c: Seq<Letter>, cfg: GlobalAlignmentConfig)
    ensures
        ({
            let r = Seq::<Letter>::empty();
            let p = nw_path(r, c, cfg, 0, c.len());
            &&& p.0 == Seq::new(c.len(), |k: int| GAP)
            &&& p.1 == c
            &&& nw_score(r, c, cfg, 0, c.len()) == c.len() * cfg.gap_penalty
            &&& p.2 == 0
            &&& p.3 == 0
        }),
{
    lemma_nw_path_first_row(Seq::<Letter>::empty(), c, cfg, c.len());
    assert(c.take(c.len() as int) =~= c);
}

/// Whether cell `(a, b)` is computed once the interior cells whose top-left
/// neighbour comes before `(i, j)` in row-major order are.
spec fn nw_filled(a: int, b: int, i: int, j: int) -> bool {
    a == 0 || b == 0 || before(a - 1, b - 1, i, j)
}

/// Executes the Needleman-Wunsch algorithm and returns the global alignment.
/// `row_seq` and `column_seq` are the sequences to be aligned.
/// `row_seq` will be displayed as a row in the matrix, while `column_seq` will
/// be displayed as a column in the matrix.
pub fn needleman_wunsch(
    row_seq: &[Letter],
    column_seq: &[Letter],
    config: GlobalAlignmentConfig,
) -> (res: GlobalAlignmentResult)
    requires
        nw_fits(row_seq@, column_seq@, config),
    ensures
        is_global_alignment(res, row_seq@, column_seq@, config),
        res.identity_numer <= res.identity_denom,
        res.identity_denom >= 1,
        res.aligned_row_seq@.len() == res.aligned_column_seq@.len(),
        max(row_seq@.len() as int, column_seq@.len() as int) <= res.aligned_row_seq@.len(),
        res.aligned_row_seq@.len() <= row_seq@.len() + column_seq@.len(),
        gap_free(row_seq@) && gap_free(column_seq@) ==> {
            &&& without_gaps(res.aligned_row_seq@) == row_seq@
            &&& without_gaps(res.aligned_column_seq@) == column_seq@
            &&& pair_score(
                config.match_penalty as int,
                config.mismatch_penalty as int,
                config.gap_penalty as int,
                res.aligned_row_seq@,
                res.aligned_column_seq@,
            ) == res.score
        },
{
    let matrix = compute_nw_matrix(row_seq, column_seq, config);
    let res = traceback_nw_best_alignment(row_seq, column_seq, config, &matrix);
    proof {
        lemma_global_alignment_length(row_seq@, column_seq@, config);
        if gap_free(row_seq@) && gap_free(column_seq@) {
            lemma_global_alignment_round_trip(row_seq@, column_seq@, config);
            lemma_global_alignment_score(row_seq@, column_seq@, config);
        }
    }
    res
}

/// This function fills a Needleman-Wunsch score matrix.
pub fn compute_nw_matrix(
    row_seq: &[Letter],
    column_seq: &[Letter],
    config: GlobalAlignmentConfig,
) -> (matrix: AlignmentMatrix)
    requires
        nw_fits(row_seq@, column_seq@, config),
    ensures
        matrix@ == nw_rows(row_seq@, column_seq@, config),
{
    proof {
        lemma_dimensions_fit(row_seq@.len(), column_seq@.len());
    }
    let row_count = row_seq.len() + 1;
    let column_count = column_seq.len() + 1;
    let mut matrix = AlignmentMatrix::zeroed(row_count, column_count);
    fill_nw_matrix_base(row_seq, column_seq, config, &mut matrix);
    proof {
        lemma_nw_fill_fits(matrix@, row_seq@, column_seq@, config);
    }
    fill_nw_matrix_content(row_seq, column_seq, config, &mut matrix);
    matrix
}

/// This function fills the base "extra" cells of the Needleman-Wunsch score
/// matrix.
///
/// i.e. first column 0, gap, 2*gap, 3*gap, etc
///
/// and first row 0, gap, 2*gap, 3*gap, etc
fn fill_nw_matrix_base(
    row_seq: &[Letter],
    column_seq: &[Letter],
    config: GlobalAlignmentConfig,
    matrix: &mut AlignmentMatrix,
)
    requires
        nw_fits(row_seq@, column_seq@, config),
        has_shape(old(matrix)@, row_seq@.len() as int + 1, column_seq@.len() as int + 1),
    ensures
        has_shape(final(matrix)@, row_seq@.len() as int + 1, column_seq@.len() as int + 1),
        forall|a: int, b: int|
            #![trigger final(matrix)@[a][b]]
            0 <= a <= row_seq@.len() && 0 <= b <= column_seq@.len() ==> final(matrix)@[a][b] == if a
                == 0 || b == 0 {
                nw_score(row_seq@, column_seq@, config, a as nat, b as nat) as i64
            } else {
                old(matrix)@[a][b]
            },
{
    let ghost r = row_seq@;
    let ghost c = column_seq@;
    let ghost start = matrix@;
    let n = row_seq.len();
    let m = column_seq.len();
    proof {
        lemma_dimensions_fit(n as nat, m as nat);
    }
    let mut score: Score = 0;
    let mut j: usize = 0;
    while j <= m
        invariant
            n == r.len(),
            m == c.len(),
            n < usize::MAX,
            m < usize::MAX,
            nw_fits(r, c, config),
            j <= m + 1,
            j <= m ==> score == nw_score(r, c, config, 0, j as nat),
            has_shape(matrix@, n + 1, m + 1),
            forall|a: int, b: int|
                #![trigger matrix@[a][b]]
                0 <= a <= n && 0 <= b <= m ==> matrix@[a][b] == if a == 0 && b < j {
                    nw_score(r, c, config, a as nat, b as nat) as i64
                } else {
                    start[a][b]
                },
        decreases m + 1 - j,
    {
        matrix.put(0, j, score);
        if j < m {
            proof {
                lemma_nw_fits(r, c, config, 0, j as nat);
                lemma_nw_border(r, c, config, 0, (j + 1) as nat);
            }
            score = score + config.gap_penalty;
        }
        j = j + 1;
    }
    let mut score: Score = 0;
    let mut i: usize = 0;
    while i <= n
        invariant
            n == r.len(),
            m == c.len(),
            n < usize::MAX,
            m < usize::MAX,
            nw_fits(r, c, config),
            i <= n + 1,
            i <= n ==> score == nw_score(r, c, config, i as nat, 0),
            has_shape(matrix@, n + 1, m + 1),
            forall|a: int, b: int|
                #![trigger matrix@[a][b]]
                0 <= a <= n && 0 <= b <= m ==> matrix@[a][b] == if a == 0 || (b == 0 && a < i) {
                    nw_score(r, c, config, a as nat, b as nat) as i64
                } else {
                    start[a][b]
                },
        decreases n + 1 - i,
    {
        matrix.put(i, 0, score);
        if i < n {
            proof {
                lemma_nw_fits(r, c, config, i as nat, 0);
                lemma_nw_border(r, c, config, (i + 1) as nat, 0);
            }
            score = score + config.gap_penalty;
        }
        i = i + 1;
    }
}

/// The value of cell `(i, j)` once the interior of a matrix whose borders
/// are those of `border` is filled by the recurrence.
spec fn nw_fill(border: Seq<Seq<i64>>, r: Seq<Letter>, c: Seq<Letter>, cfg: GlobalAlignmentConfig, i: nat, j: nat) -> int
    decreases i + j,
{
    if i == 0 || j == 0 {
        border[i as int][j as int] as int
    } else {
        nw_cell_value(
            cfg,
            r[i - 1],
            c[j - 1],
            nw_fill(border, r, c, cfg, (i - 1) as nat, (j - 1) as nat),
            nw_fill(border, r, c, cfg, (i - 1) as nat, j),
            nw_fill(border, r, c, cfg, i, (j - 1) as nat),
        )
    }
}

/// Whether computing interior cell `(i, j)` of that fill stays within a
/// `Score`.
spec fn nw_fill_fits_at(border: Seq<Seq<i64>>, r: Seq<Letter>, c: Seq<Letter>, cfg: GlobalAlignmentConfig, i: nat, j: nat) -> bool {
    nw_cell_fits(
        cfg,
        r[i - 1],
        c[j - 1],
        nw_fill(border, r, c, cfg, (i - 1) as nat, (j - 1) as nat),
        nw_fill(border, r, c, cfg, (i - 1) as nat, j),
        nw_fill(border, r, c, cfg, i, (j - 1) as nat),
    )
}

/// Whether every interior cell of that fill is computed within a `Score`.
spec fn nw_fill_fits(border: Seq<Seq<i64>>, r: Seq<Letter>, c: Seq<Letter>, cfg: GlobalAlignmentConfig) -> bool {
    forall|i: nat, j: nat|
        1 <= i <= r.len() && 1 <= j <= c.len() ==> #[trigger] nw_fill_fits_at(border, r, c, cfg, i, j)
}

/// Whether the borders of `rows` hold the Needleman-Wunsch scores.
pub open spec fn nw_borders(rows: Seq<Seq<i64>>, r: Seq<Letter>, c: Seq<Letter>, cfg: GlobalAlignmentConfig) -> bool {
    forall|a: int, b: int|
        #![trigger rows[a][b]]
        0 <= a <= r.len() && 0 <= b <= c.len() && (a == 0 || b == 0) ==> rows[a][b]
            == nw_score(r, c, cfg, a as nat, b as nat) as i64
}

proof fn lemma_nw_fill_in_range(border: Seq<Seq<i64>>, r: Seq<Letter>, c: Seq<Letter>, cfg: GlobalAlignmentConfig, i: nat, j: nat)
    requires
        nw_fill_fits(border, r, c, cfg),
        i <= r.len(),
        j <= c.len(),
    ensures
        i64::MIN <= nw_fill(border, r, c, cfg, i, j) <= i64::MAX,
{
    if i > 0 && j > 0 {
        assert(nw_fill_fits_at(border, r, c, cfg, i, j));
    }
}

/// With Needleman-Wunsch borders, the fill gives the Needleman-Wunsch
/// scores.
proof fn lemma_nw_fill_is_score(border: Seq<Seq<i64>>, r: Seq<Letter>, c: Seq<Letter>, cfg: GlobalAlignmentConfig, i: nat, j: nat)
    requires
        nw_fits(r, c, cfg),
        has_shape(border, r.len() as int + 1, c.len() as int + 1),
        nw_borders(border, r, c, cfg),
        i <= r.len(),
        j <= c.len(),
    ensures
        nw_fill(border, r, c, cfg, i, j) == nw_score(r, c, cfg, i, j),
    decreases i + j,
{
    lemma_nw_fits(r, c, cfg, i, j);
    if i == 0 || j == 0 {
        assert(border[i as int][j as int] == nw_score(r, c, cfg, i, j) as i64);
    } else {
        lemma_nw_fill_is_score(border, r, c, cfg, (i - 1) as nat, (j - 1) as nat);
        lemma_nw_fill_is_score(border, r, c, cfg, (i - 1) as nat, j);
        lemma_nw_fill_is_score(border, r, c, cfg, i, (j - 1) as nat);
    }
}

/// With Needleman-Wunsch borders and weights within machine limits, every
/// interior cell is computed within a `Score`.
proof fn lemma_nw_fill_fits(border: Seq<Seq<i64>>, r: Seq<Letter>, c: Seq<Letter>, cfg: GlobalAlignmentConfig)
    requires
        nw_fits(r, c, cfg),
        has_shape(border, r.len() as int + 1, c.len() as int + 1),
        nw_borders(border, r, c, cfg),
    ensures
        nw_fill_fits(border, r, c, cfg),
{
    assert forall|i: nat, j: nat| 1 <= i <= r.len() && 1 <= j <= c.len() implies #[trigger] nw_fill_fits_at(
        border,
        r,
        c,
        cfg,
        i,
        j,
    ) by {
        lemma_nw_fill_is_score(border, r, c, cfg, (i - 1) as nat, (j - 1) as nat);
        lemma_nw_fill_is_score(border, r, c, cfg, (i - 1) as nat, j);
        lemma_nw_fill_is_score(border, r, c, cfg, i, (j - 1) as nat);
        lemma_nw_fits(r, c, cfg, (i - 1) as nat, (j - 1) as nat);
        lemma_nw_fits(r, c, cfg, (i - 1) as nat, j);
        lemma_nw_fits(r, c, cfg, i, (j - 1) as nat);
    }
}

/// This function fills the "derived" scores of a Needleman-Wunsch matrix
/// from the cells of its first row and first column, which it leaves as
/// they are. Cells are computed row by row.
fn fill_nw_matrix_content(
    row_seq: &[Letter],
    column_seq: &[Letter],
    config: GlobalAlignmentConfig,
    matrix: &mut AlignmentMatrix,
)
    requires
        has_shape(old(matrix)@, row_seq@.len() as int + 1, column_seq@.len() as int + 1),
        nw_fill_fits(old(matrix)@, row_seq@, column_seq@, config),
    ensures
        has_shape(final(matrix)@, row_seq@.len() as int + 1, column_seq@.len() as int + 1),
        forall|a: int, b: int|
            #![trigger final(matrix)@[a][b]]
            0 <= a <= row_seq@.len() && 0 <= b <= column_seq@.len() && (a == 0 || b == 0)
                ==> final(matrix)@[a][b] == old(matrix)@[a][b],
        forall|a: int, b: int|
            #![trigger final(matrix)@[a][b]]
            1 <= a <= row_seq@.len() && 1 <= b <= column_seq@.len() ==> final(matrix)@[a][b]
                == nw_cell_value(
                config,
                row_seq@[a - 1],
                column_seq@[b - 1],
                final(matrix)@[a - 1][b - 1] as int,
                final(matrix)@[a - 1][b] as int,
                final(matrix)@[a][b - 1] as int,
            ),
        nw_borders(old(matrix)@, row_seq@, column_seq@, config) && nw_fits(row_seq@, column_seq@, config)
            ==> final(matrix)@ == nw_rows(row_seq@, column_seq@, config),
{
    let ghost r = row_seq@;
    let ghost c = column_seq@;
    let ghost start = matrix@;
    let n = row_seq.len();
    let m = column_seq.len();
    let mut i: usize = 0;
    while i < n
        invariant
            r == row_seq@,
            c == column_seq@,
            n == r.len(),
            m == c.len(),
            nw_fill_fits(start, r, c, config),
            i <= n,
            has_shape(matrix@, n + 1, m + 1),
            has_shape(start, n + 1, m + 1),
            forall|a: int, b: int|
                #![trigger matrix@[a][b]]
                0 <= a <= n && 0 <= b <= m && nw_filled(a, b, i as int, 0) ==> matrix@[a][b]
                    == nw_fill(start, r, c, config, a as nat, b as nat),
            forall|a: int, b: int|
                #![trigger matrix@[a][b]]
                0 <= a <= n && 0 <= b <= m && (a == 0 || b == 0) ==> matrix@[a][b] == start[a][b],
        decreases n - i,
    {
        let mut j: usize = 0;
        while j < m
            invariant
                r == row_seq@,
                c == column_seq@,
                n == r.len(),
                m == c.len(),
                nw_fill_fits(start, r, c, config),
                i < n,
                j <= m,
                has_shape(matrix@, n + 1, m + 1),
                has_shape(start, n + 1, m + 1),
                forall|a: int, b: int|
                    #![trigger matrix@[a][b]]
                    0 <= a <= n && 0 <= b <= m && nw_filled(a, b, i as int, j as int) ==> matrix@[a][b]
                        == nw_fill(start, r, c, config, a as nat, b as nat),
                forall|a: int, b: int|
                    #![trigger matrix@[a][b]]
                    0 <= a <= n && 0 <= b <= m && (a == 0 || b == 0) ==> matrix@[a][b] == start[a][b],
            decreases m - j,
        {
            proof {
                assert(nw_fill_fits_at(start, r, c, config, (i + 1) as nat, (j + 1) as nat));
                lemma_nw_fill_in_range(start, r, c, config, (i + 1) as nat, (j + 1) as nat);
            }
            compute_nw_matrix_cell(row_seq, column_seq, config, matrix, i, j);
            j = j + 1;
        }
        i = i + 1;
    }
    proof {
        assert forall|a: int, b: int| 1 <= a <= n && 1 <= b <= m implies #[trigger] matrix@[a][b]
            == nw_cell_value(
            config,
            r[a - 1],
            c[b - 1],
            matrix@[a - 1][b - 1] as int,
            matrix@[a - 1][b] as int,
            matrix@[a][b - 1] as int,
        ) by {
            lemma_nw_fill_in_range(start, r, c, config, (a - 1) as nat, (b - 1) as nat);
            lemma_nw_fill_in_range(start, r, c, config, (a - 1) as nat, b as nat);
            lemma_nw_fill_in_range(start, r, c, config, a as nat, (b - 1) as nat);
            lemma_nw_fill_in_range(start, r, c, config, a as nat, b as nat);
        }
        if nw_borders(start, r, c, config) && nw_fits(r, c, config) {
            assert forall|a: int, b: int| 0 <= a <= n && 0 <= b <= m implies #[trigger] matrix@[a][b]
                == nw_rows(r, c, config)[a][b] by {
                lemma_nw_fill_is_score(start, r, c, config, a as nat, b as nat);
            }
            assert(matrix@ =~~= nw_rows(r, c, config));
        }
    }
}

/// Computes the score of an individual cell of a Needleman-Wunsch matrix
/// from its top-left (pred_i, pred_j), top (pred_i, pred_j + 1) and left
/// (pred_i + 1, pred_j) cells, whatever they hold.
fn compute_nw_matrix_cell(
    row_seq: &[Letter],
    column_seq: &[Letter],
    config: GlobalAlignmentConfig,
    matrix: &mut AlignmentMatrix,
    pred_i: usize,
    pred_j: usize,
)
    requires
        pred_i < row_seq@.len(),
        pred_j < column_seq@.len(),
        has_shape(old(matrix)@, row_seq@.len() as int + 1, column_seq@.len() as int + 1),
        nw_cell_fits(
            config,
            row_seq@[pred_i as int],
            column_seq@[pred_j as int],
            old(matrix)@[pred_i as int][pred_j as int] as int,
            old(matrix)@[pred_i as int][pred_j + 1] as int,
            old(matrix)@[pred_i + 1][pred_j as int] as int,
        ),
    ensures
        final(matrix)@ == old(matrix)@.update(
            pred_i + 1,
            old(matrix)@[pred_i + 1].update(
                pred_j + 1,
                nw_cell_value(
                    config,
                    row_seq@[pred_i as int],
                    column_seq@[pred_j as int],
                    old(matrix)@[pred_i as int][pred_j as int] as int,
                    old(matrix)@[pred_i as int][pred_j + 1] as int,
                    old(matrix)@[pred_i + 1][pred_j as int] as int,
                ) as i64,
            ),
        ),
{
    // both lengths fit in a `usize`, so the neighbours' indices do too
    let row_count = row_seq.len();
    let column_count = column_seq.len();
    proof {
        assert(pred_i + 1 <= row_count && pred_j + 1 <= column_count);
    }
    let top_left = matrix.at(pred_i, pred_j);
    let top = matrix.at(pred_i, pred_j + 1);
    let left = matrix.at(pred_i + 1, pred_j);

    let row_letter = row_seq.get(pred_i).normalize_letter();
    let column_letter = column_seq.get(pred_j).normalize_letter();
    let no_gap_penalty = if row_letter == column_letter {
        config.match_penalty
    } else {
        config.mismatch_penalty
    };
    let no_gap_score = top_left + no_gap_penalty;

    let best_gap_neighbor = if top >= left {
        top
    } else {
        left
    };
    let best_gap_score = best_gap_neighbor + config.gap_penalty;

    let best = if best_gap_score >= no_gap_score {
        best_gap_score
    } else {
        no_gap_score
    };
    matrix.put(pred_i + 1, pred_j + 1, best);
}

/// Given Needleman-Wunsch input and a score matrix already populated, this
/// function computes the alignment.
pub fn traceback_nw_best_alignment(
    row_seq: &[Letter],
    column_seq: &[Letter],
    config: GlobalAlignmentConfig,
    matrix: &AlignmentMatrix,
) -> (res: GlobalAlignmentResult)
    requires
        nw_fits(row_seq@, column_seq@, config),
        matrix@ == nw_rows(row_seq@, column_seq@, config),
    ensures
        is_global_alignment(res, row_seq@, column_seq@, config),
        res.identity_numer <= res.identity_denom,
        res.identity_denom >= 1,
{
    let ghost r = row_seq@;
    let ghost c = column_seq@;
    let ghost n = r.len();
    let ghost m = c.len();
    let ghost full = nw_path(r, c, config, n, m);
    proof {
        lemma_nw_path_shape(r, c, config, n, m);
        lemma_nw_fits(r, c, config, n, m);
        assert(matrix@[0].len() == m + 1);
    }
    let width = matrix.width();
    let mut current_i = matrix.height() - 1;
    let mut current_j = width - 1;

    let mut result = GlobalAlignmentResult {
        aligned_row_seq: Vec::new(),
        aligned_column_seq: Vec::new(),
        score: matrix.at(current_i, current_j),
        identity_numer: 0,
        identity_denom: 0,
    };

    while current_i > 0 || current_j > 0
        invariant
            r == row_seq@,
            c == column_seq@,
            n == r.len(),
            m == c.len(),
            nw_fits(r, c, config),
            matrix@ == nw_rows(r, c, config),
            full == nw_path(r, c, config, n, m),
            full.3 <= u32::MAX,
            full.2 <= full.3,
            current_i <= n,
            current_j <= m,
            result.score == nw_score(r, c, config, n, m),
            result.identity_numer <= result.identity_denom,
            ({
                let here = nw_path(r, c, config, current_i as nat, current_j as nat);
                &&& full.0 == here.0 + result.aligned_row_seq@.reverse()
                &&& full.1 == here.1 + result.aligned_column_seq@.reverse()
                &&& full.2 == here.2 + result.identity_numer
                &&& full.3 == here.3 + result.identity_denom
            }),
        decreases current_i + current_j,
    {
        let ghost i = current_i as nat;
        let ghost j = current_j as nat;
        let ghost rows_before = result.aligned_row_seq@;
        let ghost cols_before = result.aligned_column_seq@;
        proof {
            lemma_nw_border(r, c, config, i, j);
            lemma_nw_fits(r, c, config, i, j);
            if i > 0 {
                lemma_nw_fits(r, c, config, (i - 1) as nat, j);
            }
            if j > 0 {
                lemma_nw_fits(r, c, config, i, (j - 1) as nat);
            }
        }
        let current_score = matrix.at(current_i, current_j);
        let mut maybe_step: Option<TracebackStep> = None;
        if current_i > 0 {
            let previous_score = matrix.at(current_i - 1, current_j);
            let penalty = config.gap_penalty;
            if current_score == previous_score + penalty {
                maybe_step = Some(TracebackStep::Top);
            }
        }
        if maybe_step.is_none() && current_j > 0 {
            let previous_score = matrix.at(current_i, current_j - 1);
            let penalty = config.gap_penalty;
            if current_score == previous_score + penalty {
                maybe_step = Some(TracebackStep::Left);
            }
        }
        let step = match maybe_step {
            Some(step) => step,
            None => TracebackStep::TopLeft,
        };

        match step {
            TracebackStep::TopLeft => {
                current_i = current_i - 1;
                current_j = current_j - 1;
                let ghost p = nw_path(r, c, config, (i - 1) as nat, (j - 1) as nat);
                traceback_nw_top_left(row_seq, column_seq, &mut result, current_i, current_j);
                proof {
                    lemma_push_reverse(p.0, rows_before, r[i - 1]);
                    lemma_push_reverse(p.1, cols_before, c[j - 1]);
                }
            },
            TracebackStep::Top => {
                current_i = current_i - 1;
                let ghost p = nw_path(r, c, config, (i - 1) as nat, j);
                traceback_nw_top(row_seq, &mut result, current_i);
                proof {
                    lemma_push_reverse(p.0, rows_before, r[i - 1]);
                    lemma_push_reverse(p.1, cols_before, GAP);
                }
            },
            TracebackStep::Left => {
                current_j = current_j - 1;
                let ghost p = nw_path(r, c, config, i, (j - 1) as nat);
                traceback_nw_left(column_seq, &mut result, current_j);
                proof {
                    lemma_push_reverse(p.0, rows_before, GAP);
                    lemma_push_reverse(p.1, cols_before, c[j - 1]);
                }
            },
        }
    }

    proof {
        assert(full.0 =~= result.aligned_row_seq@.reverse());
        assert(full.1 =~= result.aligned_column_seq@.reverse());
    }
    result.aligned_row_seq = reversed(&result.aligned_row_seq);
    result.aligned_column_seq = reversed(&result.aligned_column_seq);
    if result.identity_denom < 1 {
        result.identity_denom = 1;
    }
    result
}

/// Registers result of a traceback going to a previous top-left cell in a
/// Needleman-Wunsch global alignment.
fn traceback_nw_top_left(
    row_seq: &[Letter],
    column_seq: &[Letter],
    result: &mut GlobalAlignmentResult,
    current_i: usize,
    current_j: usize,
)
    requires
        current_i < row_seq@.len(),
        current_j < column_seq@.len(),
        old(result).identity_denom < u32::MAX,
        old(result).identity_numer <= old(result).identity_denom,
    ensures
        final(result).aligned_row_seq@ == old(result).aligned_row_seq@.push(row_seq@[current_i as int]),
        final(result).aligned_column_seq@ == old(result).aligned_column_seq@.push(
            column_seq@[current_j as int],
        ),
        final(result).score == old(result).score,
        final(result).identity_denom == old(result).identity_denom + 1,
        final(result).identity_numer == old(result).identity_numer + if row_seq@[current_i as int]
            == column_seq@[current_j as int] {
            1int
        } else {
            0int
        },
{
    let row_letter = row_seq.get(current_i).normalize_letter();
    let column_letter = column_seq.get(current_j).normalize_letter();
    result.aligned_row_seq.push(row_letter);
    result.aligned_column_seq.push(column_letter);
    result.identity_denom = result.identity_denom + 1;
    if row_letter == column_letter {
        result.identity_numer = result.identity_numer + 1;
    }
}

/// Registers result of a traceback going to a previous top cell in a
/// Needleman-Wunsch global alignment.
fn traceback_nw_top(row_seq: &[Letter], result: &mut GlobalAlignmentResult, current_i: usize)
    requires
        current_i < row_seq@.len(),
    ensures
        final(result).aligned_row_seq@ == old(result).aligned_row_seq@.push(row_seq@[current_i as int]),
        final(result).aligned_column_seq@ == old(result).aligned_column_seq@.push(GAP),
        final(result).score == old(result).score,
        final(result).identity_denom == old(result).identity_denom,
        final(result).identity_numer == old(result).identity_numer,
{
    let row_letter = row_seq.get(current_i).normalize_letter();
    result.aligned_row_seq.push(row_letter);
    result.aligned_column_seq.push(GAP);
}

/// Registers result of a traceback going to a previous left cell in a
/// Needleman-Wunsch global alignment.
fn traceback_nw_left(column_seq: &[Letter], result: &mut GlobalAlignmentResult, current_j: usize)
    requires
        current_j < column_seq@.len(),
    ensures
        final(result).aligned_row_seq@ == old(result).aligned_row_seq@.push(GAP),
        final(result).aligned_column_seq@ == old(result).aligned_column_seq@.push(
            column_seq@[current_j as int],
        ),
        final(result).score == old(result).score,
        final(result).identity_denom == old(result).identity_denom,
        final(result).identity_numer == old(result).identity_numer,
{
    let column_letter = column_seq.get(current_j).normalize_letter();
    result.aligned_row_seq.push(GAP);
    result.aligned_column_seq.push(column_letter);
}

} // verus!
