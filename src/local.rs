use vstd::prelude::*;
use vstd::math::max;

use crate::letter::{
    gap_free, lemma_push_reverse, lemma_without_gaps_push, reversed, without_gaps, Letter,
    NormalizeLetter, GAP,
};
use crate::matrix::{before, has_shape, hits, in_range, is_max, lemma_hits_hold, max_value, AlignmentMatrix};
use crate::score::{
    alignment_fits, lemma_dimensions_fit, lemma_pair_score_push, pair_score, substitution,
    weight_bound, Score,
};

verus! {

/// Penalty/base score system of a local alignment.
#[derive(Debug, Clone, Copy, PartialEq, Eq)]
pub struct LocalAlignmentConfig {
    /// Added when letters match.
    pub match_penalty: Score,
    /// Added when letters do not match, but it is not a gap.
    pub mismatch_penalty: Score,
    /// Added when there's a gap.
    pub gap_penalty: Score,
}

impl Default for LocalAlignmentConfig {
    fn default() -> (r: Self)
        ensures
            r.match_penalty == 1,
            r.mismatch_penalty == -1,
            r.gap_penalty == -2,
    {
        Self { match_penalty: 1, mismatch_penalty: -1, gap_penalty: -2 }
    }
}

/// An aligned sequence, used in local alignment results.
///
/// Corresponds to a slice of an input sequence, possibly with gaps inserted.
#[derive(Debug, Clone, PartialEq, Eq)]
pub struct LocallyAlignedSeq {
    /// Position in the input sequence that delimits where the local alignment
    /// starts.
    pub start: usize,
    /// Position in the input sequence that delimits where the local alignment
    /// ends.
    pub end: usize,
    /// The aligned slice of the input sequence, with potential gaps.
    pub data: Vec<Letter>,
}

/// A local alignment, computed by Smith-Waterman.
#[derive(Debug, Clone, PartialEq, Eq)]
pub struct LocalAlignmentResult {
    /// The aligned version of the input sequence that was associated with a
    /// "row" display in the matrix. It is aligned with the sequence displayed
    /// as a "column".
    pub aligned_row_seq: LocallyAlignedSeq,
    /// The aligned version of the input sequence that was associated with a
    /// "column" display in the matrix. It is aligned with the sequence
    /// displayed as a "row".
    pub aligned_column_seq: LocallyAlignedSeq,
    /// Total score of the alignment.
    pub score: Score,
    /// Numerator of the identity fraction (32-bit).
    pub identity_numer: u32,
    /// Denominator of the identity fraction (32-bit).
    pub identity_denom: u32,
}

/// Possible directions during traceback phase.
#[derive(Debug, Clone, Copy, PartialEq, Eq)]
enum TracebackStep {
    /// Towards i - 1, j -1
    TopLeft,
    /// Towards i - 1, j
    Top,
    /// Towards i, j - 1
    Left,
}

/// The value that the Smith-Waterman recurrence gives a cell whose row
/// letter is `a` and column letter `b`, from its top-left, top and left
/// neighbours: the best of a diagonal step and a gap step, never below zero.
pub open spec fn sw_cell_value(
    cfg: LocalAlignmentConfig,
    a: Letter,
    b: Letter,
    top_left: int,
    top: int,
    left: int,
) -> int {
    max(
        max(
            max(top, left) + cfg.gap_penalty,
            top_left + substitution(cfg.match_penalty as int, cfg.mismatch_penalty as int, a, b),
        ),
        0,
    )
}

/// Whether the two sums of that recurrence fit in a `Score`.
pub open spec fn sw_cell_fits(
    cfg: LocalAlignmentConfig,
    a: Letter,
    b: Letter,
    top_left: int,
    top: int,
    left: int,
) -> bool {
    &&& i64::MIN <= top_left + substitution(cfg.match_penalty as int, cfg.mismatch_penalty as int, a, b) <= i64::MAX
    &&& i64::MIN <= max(top, left) + cfg.gap_penalty <= i64::MAX
}

/// The Smith-Waterman score of cell `(i, j)`: the best score of an
/// alignment of a substring of `r` ending at `i` against a substring of `c`
/// ending at `j`, never below zero.
pub open spec fn sw_score(r: Seq<Letter>, c: Seq<Letter>, cfg: LocalAlignmentConfig, i: nat, j: nat) -> int
    decreases i + j,
{
    if i == 0 || j == 0 {
        0
    } else {
        sw_cell_value(
            cfg,
            r[i - 1],
            c[j - 1],
            sw_score(r, c, cfg, (i - 1) as nat, (j - 1) as nat),
            sw_score(r, c, cfg, (i - 1) as nat, j),
            sw_score(r, c, cfg, i, (j - 1) as nat),
        )
    }
}

/// The filled Smith-Waterman matrix of `r` (rows) and `c` (columns).
pub open spec fn sw_rows(r: Seq<Letter>, c: Seq<Letter>, cfg: LocalAlignmentConfig) -> Seq<Seq<i64>> {
    Seq::new(
        r.len() + 1,
        |i: int| Seq::new(c.len() + 1, |j: int| sw_score(r, c, cfg, i as nat, j as nat) as i64),
    )
}

/// The traceback from cell `(i, j)` back to the first cell of score zero, as
/// the aligned row, the aligned column, the number of diagonal steps on
/// equal letters, the number of diagonal steps, and the coordinates of the
/// cell where it stops. Up is preferred to Left, and Left to Diagonal.
pub open spec fn sw_path(r: Seq<Letter>, c: Seq<Letter>, cfg: LocalAlignmentConfig, i: nat, j: nat) -> (
    Seq<Letter>,
    Seq<Letter>,
    nat,
    nat,
    nat,
    nat,
)
    decreases i + j,
{
    let s = sw_score(r, c, cfg, i, j);
    if i == 0 || j == 0 || s == 0 {
        (Seq::empty(), Seq::empty(), 0, 0, i, j)
    } else if s == sw_score(r, c, cfg, (i - 1) as nat, j) + cfg.gap_penalty {
        let p = sw_path(r, c, cfg, (i - 1) as nat, j);
        (p.0.push(r[i - 1]), p.1.push(GAP), p.2, p.3, p.4, p.5)
    } else if s == sw_score(r, c, cfg, i, (j - 1) as nat) + cfg.gap_penalty {
        let p = sw_path(r, c, cfg, i, (j - 1) as nat);
        (p.0.push(GAP), p.1.push(c[j - 1]), p.2, p.3, p.4, p.5)
    } else {
        let p = sw_path(r, c, cfg, (i - 1) as nat, (j - 1) as nat);
        let same: nat = if r[i - 1] == c[j - 1] {
            1
        } else {
            0
        };
        (p.0.push(r[i - 1]), p.1.push(c[j - 1]), p.2 + same, p.3 + 1, p.4, p.5)
    }
}

/// Whether `res` is the local alignment traced back from cell `(i, j)`:
/// the windows `[start, end)` end at `i` and `j` and start where the
/// traceback stops, the aligned letters, the score of cell `(i, j)`, and the
/// identity fraction with its denominator floored to 1.
pub open spec fn is_local_alignment(
    res: LocalAlignmentResult,
    r: Seq<Letter>,
    c: Seq<Letter>,
    cfg: LocalAlignmentConfig,
    i: nat,
    j: nat,
) -> bool {
    let p = sw_path(r, c, cfg, i, j);
    &&& res.aligned_row_seq.start == p.4
    &&& res.aligned_row_seq.end == i
    &&& res.aligned_row_seq.data@ == p.0
    &&& res.aligned_column_seq.start == p.5
    &&& res.aligned_column_seq.end == j
    &&& res.aligned_column_seq.data@ == p.1
    &&& res.score == sw_score(r, c, cfg, i, j)
    &&& res.identity_numer == p.2
    &&& res.identity_denom == if p.3 == 0 {
        1
    } else {
        p.3
    }
}

/// The cells of the Smith-Waterman matrix that hold its largest score, in
/// row-major order.
pub open spec fn sw_best_cells(r: Seq<Letter>, c: Seq<Letter>, cfg: LocalAlignmentConfig) -> Seq<(usize, usize)> {
    let rows = sw_rows(r, c, cfg);
    hits(rows, max_value(rows), rows.len() as int)
}

/// Whether aligning `r` against `c` under `cfg` stays within machine limits.
pub open spec fn sw_fits(r: Seq<Letter>, c: Seq<Letter>, cfg: LocalAlignmentConfig) -> bool {
    alignment_fits(
        r.len(),
        c.len(),
        cfg.match_penalty as int,
        cfg.mismatch_penalty as int,
        cfg.gap_penalty as int,
    )
}

spec fn bound_of(cfg: LocalAlignmentConfig) -> int {
    weight_bound(cfg.match_penalty as int, cfg.mismatch_penalty as int, cfg.gap_penalty as int)
}

proof fn lemma_sw_bound(r: Seq<Letter>, c: Seq<Letter>, cfg: LocalAlignmentConfig, i: nat, j: nat)
    requires
        i <= r.len(),
        j <= c.len(),
    ensures
        0 <= sw_score(r, c, cfg, i, j) <= (i + j) * bound_of(cfg),
    decreases i + j,
{
    let b = bound_of(cfg);
    let k = (i + j) as int;
    if i > 0 && j > 0 {
        lemma_sw_bound(r, c, cfg, (i - 1) as nat, (j - 1) as nat);
        lemma_sw_bound(r, c, cfg, (i - 1) as nat, j);
        lemma_sw_bound(r, c, cfg, i, (j - 1) as nat);
        assert((k - 2) * b + b <= k * b && (k - 1) * b + b == k * b && 0 <= k * b) by (nonlinear_arith)
            requires
                b >= 0,
                k >= 2,
        ;
    }
}

/// Every score of the matrix, plus any weight, fits in a `Score`.
proof fn lemma_sw_fits(r: Seq<Letter>, c: Seq<Letter>, cfg: LocalAlignmentConfig, i: nat, j: nat)
    requires
        sw_fits(r, c, cfg),
        i <= r.len(),
        j <= c.len(),
    ensures
        0 <= sw_score(r, c, cfg, i, j),
        sw_score(r, c, cfg, i, j) + bound_of(cfg) <= i64::MAX,
        -bound_of(cfg) <= cfg.gap_penalty <= bound_of(cfg),
        -bound_of(cfg) <= cfg.match_penalty <= bound_of(cfg),
        -bound_of(cfg) <= cfg.mismatch_penalty <= bound_of(cfg),
{
    let b = bound_of(cfg);
    let n = r.len() as int;
    let m = c.len() as int;
    lemma_sw_bound(r, c, cfg, i, j);
    assert((i + j) * b + b <= (n + m + 1) * b) by (nonlinear_arith)
        requires
            b >= 0,
            i <= n,
            j <= m,
    ;
}

/// Shape and counts of the traceback from `(i, j)`: both sides have one
/// length; it stops at a cell of score zero above and to the left of
/// `(i, j)`; equal-letter diagonal steps are at most all diagonal steps,
/// which are at most `min(i, j)`.
proof fn lemma_sw_path_shape(r: Seq<Letter>, c: Seq<Letter>, cfg: LocalAlignmentConfig, i: nat, j: nat)
    requires
        i <= r.len(),
        j <= c.len(),
    ensures
        ({
            let p = sw_path(r, c, cfg, i, j);
            &&& p.0.len() == p.1.len()
            &&& p.4 <= i && p.5 <= j
            &&& sw_score(r, c, cfg, p.4, p.5) == 0
            &&& p.2 <= p.3 && p.3 <= i && p.3 <= j
        }),
    decreases i + j,
{
    if i > 0 && j > 0 {
        lemma_sw_path_shape(r, c, cfg, (i - 1) as nat, j);
        lemma_sw_path_shape(r, c, cfg, i, (j - 1) as nat);
        lemma_sw_path_shape(r, c, cfg, (i - 1) as nat, (j - 1) as nat);
    }
}

/// Removing the gaps of the traceback from `(i, j)` gives back the letters
/// of `r` and `c` in its windows.
proof fn lemma_sw_path_letters(r: Seq<Letter>, c: Seq<Letter>, cfg: LocalAlignmentConfig, i: nat, j: nat)
    requires
        i <= r.len(),
        j <= c.len(),
        gap_free(r),
        gap_free(c),
    ensures
        sw_path(r, c, cfg, i, j).4 <= i,
        sw_path(r, c, cfg, i, j).5 <= j,
        without_gaps(sw_path(r, c, cfg, i, j).0) == r.subrange(sw_path(r, c, cfg, i, j).4 as int, i as int),
        without_gaps(sw_path(r, c, cfg, i, j).1) == c.subrange(sw_path(r, c, cfg, i, j).5 as int, j as int),
    decreases i + j,
{
    let s = sw_score(r, c, cfg, i, j);
    let p = sw_path(r, c, cfg, i, j);
    if i == 0 || j == 0 || s == 0 {
        assert(without_gaps(Seq::empty()) =~= Seq::<Letter>::empty()) by {
            reveal(Seq::filter);
        }
        assert(r.subrange(i as int, i as int) =~= Seq::<Letter>::empty());
        assert(c.subrange(j as int, j as int) =~= Seq::<Letter>::empty());
    } else if s == sw_score(r, c, cfg, (i - 1) as nat, j) + cfg.gap_penalty {
        let q = sw_path(r, c, cfg, (i - 1) as nat, j);
        lemma_sw_path_letters(r, c, cfg, (i - 1) as nat, j);
        lemma_without_gaps_push(q.0, r[i - 1]);
        lemma_without_gaps_push(q.1, GAP);
        assert(r.subrange(q.4 as int, i - 1).push(r[i - 1]) =~= r.subrange(q.4 as int, i as int));
    } else if s == sw_score(r, c, cfg, i, (j - 1) as nat) + cfg.gap_penalty {
        let q = sw_path(r, c, cfg, i, (j - 1) as nat);
        lemma_sw_path_letters(r, c, cfg, i, (j - 1) as nat);
        lemma_without_gaps_push(q.0, GAP);
        lemma_without_gaps_push(q.1, c[j - 1]);
        assert(c.subrange(q.5 as int, j - 1).push(c[j - 1]) =~= c.subrange(q.5 as int, j as int));
    } else {
        let q = sw_path(r, c, cfg, (i - 1) as nat, (j - 1) as nat);
        lemma_sw_path_letters(r, c, cfg, (i - 1) as nat, (j - 1) as nat);
        lemma_without_gaps_push(q.0, r[i - 1]);
        lemma_without_gaps_push(q.1, c[j - 1]);
        assert(r.subrange(q.4 as int, i - 1).push(r[i - 1]) =~= r.subrange(q.4 as int, i as int));
        assert(c.subrange(q.5 as int, j - 1).push(c[j - 1]) =~= c.subrange(q.5 as int, j as int));
    }
}

/// Summing the weights of the columns of the traceback from `(i, j)` gives
/// the score of cell `(i, j)`.
proof fn lemma_sw_path_score(r: Seq<Letter>, c: Seq<Letter>, cfg: LocalAlignmentConfig, i: nat, j: nat)
    requires
        i <= r.len(),
        j <= c.len(),
        gap_free(r),
        gap_free(c),
    ensures
        pair_score(
            cfg.match_penalty as int,
            cfg.mismatch_penalty as int,
            cfg.gap_penalty as int,
            sw_path(r, c, cfg, i, j).0,
            sw_path(r, c, cfg, i, j).1,
        ) == sw_score(r, c, cfg, i, j),
    decreases i + j,
{
    let (mt, mm, g) = (cfg.match_penalty as int, cfg.mismatch_penalty as int, cfg.gap_penalty as int);
    let s = sw_score(r, c, cfg, i, j);
    if i == 0 || j == 0 || s == 0 {
    } else if s == sw_score(r, c, cfg, (i - 1) as nat, j) + cfg.gap_penalty {
        let p = sw_path(r, c, cfg, (i - 1) as nat, j);
        lemma_sw_path_score(r, c, cfg, (i - 1) as nat, j);
        lemma_pair_score_push(mt, mm, g, p.0, p.1, r[i - 1], GAP);
    } else if s == sw_score(r, c, cfg, i, (j - 1) as nat) + cfg.gap_penalty {
        let p = sw_path(r, c, cfg, i, (j - 1) as nat);
        lemma_sw_path_score(r, c, cfg, i, (j - 1) as nat);
        lemma_pair_score_push(mt, mm, g, p.0, p.1, GAP, c[j - 1]);
    } else {
        let p = sw_path(r, c, cfg, (i - 1) as nat, (j - 1) as nat);
        lemma_sw_path_score(r, c, cfg, (i - 1) as nat, (j - 1) as nat);
        lemma_pair_score_push(mt, mm, g, p.0, p.1, r[i - 1], c[j - 1]);
    }
}

/// Removing the gaps of each side of the local alignment traced back from a
/// cell gives back the window of each sequence, for sequences that hold no
/// gap.
pub proof fn lemma_local_alignment_round_trip(
    r: Seq<Letter>,
    c: Seq<Letter>,
    cfg: LocalAlignmentConfig,
    i: nat,
    j: nat,
)
    requires
        gap_free(r),
        gap_free(c),
        i <= r.len(),
        j <= c.len(),
    ensures
        ({
            let p = sw_path(r, c, cfg, i, j);
            &&& p.4 <= i && p.5 <= j
            &&& without_gaps(p.0) == r.subrange(p.4 as int, i as int)
            &&& without_gaps(p.1) == c.subrange(p.5 as int, j as int)
        }),
{
    lemma_sw_path_letters(r, c, cfg, i, j);
}

/// Summing the weight of each column of the local alignment traced back
/// from a cell gives the score of that cell, for sequences that hold no gap.
pub proof fn lemma_local_alignment_score(
    r: Seq<Letter>,
    c: Seq<Letter>,
    cfg: LocalAlignmentConfig,
    i: nat,
    j: nat,
)
    requires
        gap_free(r),
        gap_free(c),
        i <= r.len(),
        j <= c.len(),
    ensures
        pair_score(
            cfg.match_penalty as int,
            cfg.mismatch_penalty as int,
            cfg.gap_penalty as int,
            sw_path(r, c, cfg, i, j).0,
            sw_path(r, c, cfg, i, j).1,
        ) == sw_score(r, c, cfg, i, j),
{
    lemma_sw_path_score(r, c, cfg, i, j);
}

/// Whether cell `(a, b)` is computed once the interior cells whose top-left
/// neighbour comes before `(i, j)` in row-major order are.
spec fn sw_filled(a: int, b: int, i: int, j: int) -> bool {
    a == 0 || b == 0 || before(a - 1, b - 1, i, j)
}

/// Computes the Smith-Waterman algorithm, and returns all the local alignments
/// with the best score, one per cell of the matrix that holds it, in
/// row-major order of those cells.
/// `row_seq` and `column_seq` are the sequences to be aligned.
/// `row_seq` will be displayed as a row in the matrix, while `column_seq` will
/// be displayed as a column in the matrix.
///
/// When no pair of letters scores above zero, the best score is zero and
/// every cell holds it: each cell then gives one empty alignment, so the
/// result has one entry per cell of the matrix.
pub fn best_smith_waterman(
    row_seq: &[Letter],
    column_seq: &[Letter],
    config: LocalAlignmentConfig,
) -> (res: Vec<LocalAlignmentResult>)
    requires
        sw_fits(row_seq@, column_seq@, config),
    ensures
        res@.len() == sw_best_cells(row_seq@, column_seq@, config).len(),
        forall|k: int|
            0 <= k < res@.len() ==> is_local_alignment(
                #[trigger] res@[k],
                row_seq@,
                column_seq@,
                config,
                sw_best_cells(row_seq@, column_seq@, config)[k].0 as nat,
                sw_best_cells(row_seq@, column_seq@, config)[k].1 as nat,
            ),
        forall|k: int|
            0 <= k < res@.len() ==> (#[trigger] res@[k]).score == max_value(sw_rows(row_seq@, column_seq@, config))
                && res@[k].identity_numer <= res@[k].identity_denom && res@[k].identity_denom >= 1,
        is_max(sw_rows(row_seq@, column_seq@, config), max_value(sw_rows(row_seq@, column_seq@, config))),
        gap_free(row_seq@) && gap_free(column_seq@) ==> forall|k: int|
            0 <= k < res@.len() ==> {
                let row = (#[trigger] res@[k]).aligned_row_seq;
                let col = res@[k].aligned_column_seq;
                &&& row.start <= row.end <= row_seq@.len()
                &&& col.start <= col.end <= column_seq@.len()
                &&& without_gaps(row.data@) == row_seq@.subrange(row.start as int, row.end as int)
                &&& without_gaps(col.data@) == column_seq@.subrange(col.start as int, col.end as int)
                &&& pair_score(
                    config.match_penalty as int,
                    config.mismatch_penalty as int,
                    config.gap_penalty as int,
                    row.data@,
                    col.data@,
                ) == res@[k].score
            },
{
    let matrix = compute_sw_matrix(row_seq, column_seq, config);
    let res = traceback_best_sw_alignment(row_seq, column_seq, config, &matrix);
    proof {
        let r = row_seq@;
        let c = column_seq@;
        let rows = sw_rows(r, c, config);
        let cells = sw_best_cells(r, c, config);
        lemma_dimensions_fit(r.len(), c.len());
        lemma_hits_hold(rows, max_value(rows), rows.len() as int);
        if gap_free(r) && gap_free(c) {
            assert forall|k: int| 0 <= k < res@.len() implies {
                let row = (#[trigger] res@[k]).aligned_row_seq;
                let col = res@[k].aligned_column_seq;
                &&& row.start <= row.end <= r.len()
                &&& col.start <= col.end <= c.len()
                &&& without_gaps(row.data@) == r.subrange(row.start as int, row.end as int)
                &&& without_gaps(col.data@) == c.subrange(col.start as int, col.end as int)
                &&& pair_score(
                    config.match_penalty as int,
                    config.mismatch_penalty as int,
                    config.gap_penalty as int,
                    row.data@,
                    col.data@,
                ) == res@[k].score
            } by {
                let (i, j) = cells[k];
                assert(in_range(rows, i as int, j as int));
                lemma_local_alignment_round_trip(r, c, config, i as nat, j as nat);
                lemma_local_alignment_score(r, c, config, i as nat, j as nat);
            }
        }
    }
    res
}

/// Given Smith-Waterman input and a score matrix already populated, this
/// function computes the best local alignments, one per cell that holds the
/// largest score, in row-major order of those cells.
pub fn traceback_best_sw_alignment(
    row_seq: &[Letter],
    column_seq: &[Letter],
    config: LocalAlignmentConfig,
    matrix: &AlignmentMatrix,
) -> (res: Vec<LocalAlignmentResult>)
    requires
        sw_fits(row_seq@, column_seq@, config),
        matrix@ == sw_rows(row_seq@, column_seq@, config),
    ensures
        res@.len() == sw_best_cells(row_seq@, column_seq@, config).len(),
        forall|k: int|
            0 <= k < res@.len() ==> is_local_alignment(
                #[trigger] res@[k],
                row_seq@,
                column_seq@,
                config,
                sw_best_cells(row_seq@, column_seq@, config)[k].0 as nat,
                sw_best_cells(row_seq@, column_seq@, config)[k].1 as nat,
            ),
        forall|k: int|
            0 <= k < res@.len() ==> (#[trigger] res@[k]).score == max_value(sw_rows(row_seq@, column_seq@, config))
                && res@[k].identity_numer <= res@[k].identity_denom && res@[k].identity_denom >= 1,
        is_max(sw_rows(row_seq@, column_seq@, config), max_value(sw_rows(row_seq@, column_seq@, config))),
{
    let ghost r = row_seq@;
    let ghost c = column_seq@;
    let ghost rows = sw_rows(r, c, config);
    let ghost best = max_value(rows);
    let ghost cells = sw_best_cells(r, c, config);
    proof {
        lemma_dimensions_fit(r.len(), c.len());
        lemma_hits_hold(rows, best, rows.len() as int);
        assert(in_range(rows, 0, 0));
    }
    let maxima = matrix.argmax_many();
    let mut results: Vec<LocalAlignmentResult> = Vec::new();
    let mut k: usize = 0;
    while k < maxima.len()
        invariant
            r == row_seq@,
            c == column_seq@,
            sw_fits(r, c, config),
            rows == sw_rows(r, c, config),
            matrix@ == rows,
            best == max_value(rows),
            cells == sw_best_cells(r, c, config),
            maxima@ == cells,
            is_max(rows, best),
            k <= maxima.len(),
            results@.len() == k,
            forall|t: int|
                #![trigger cells[t]]
                0 <= t < cells.len() ==> {
                    let (a, b) = cells[t];
                    &&& in_range(rows, a as int, b as int)
                    &&& rows[a as int][b as int] == best
                },
            forall|t: int|
                0 <= t < k ==> is_local_alignment(
                    #[trigger] results@[t],
                    r,
                    c,
                    config,
                    cells[t].0 as nat,
                    cells[t].1 as nat,
                ),
            forall|t: int|
                0 <= t < k ==> (#[trigger] results@[t]).score == best
                    && results@[t].identity_numer <= results@[t].identity_denom
                    && results@[t].identity_denom >= 1,
        decreases maxima.len() - k,
    {
        let (max_i, max_j) = maxima[k];
        proof {
            assert(in_range(rows, cells[k as int].0 as int, cells[k as int].1 as int));
            lemma_sw_fits(r, c, config, max_i as nat, max_j as nat);
        }
        let result = traceback_sw_from(row_seq, column_seq, config, matrix, max_i, max_j);
        results.push(result);
        k = k + 1;
    }
    results
}

/// Traces back one local alignment from cell `(max_i, max_j)` of a populated
/// Smith-Waterman matrix, until a cell of score zero.
fn traceback_sw_from(
    row_seq: &[Letter],
    column_seq: &[Letter],
    config: LocalAlignmentConfig,
    matrix: &AlignmentMatrix,
    max_i: usize,
    max_j: usize,
) -> (result: LocalAlignmentResult)
    requires
        sw_fits(row_seq@, column_seq@, config),
        matrix@ == sw_rows(row_seq@, column_seq@, config),
        max_i <= row_seq@.len(),
        max_j <= column_seq@.len(),
    ensures
        is_local_alignment(result, row_seq@, column_seq@, config, max_i as nat, max_j as nat),
        result.identity_numer <= result.identity_denom,
        result.identity_denom >= 1,
{
    let ghost r = row_seq@;
    let ghost c = column_seq@;
    let ghost n = r.len();
    let ghost m = c.len();
    let ghost full = sw_path(r, c, config, max_i as nat, max_j as nat);
    proof {
        lemma_sw_path_shape(r, c, config, max_i as nat, max_j as nat);
        lemma_sw_fits(r, c, config, max_i as nat, max_j as nat);
    }
    let mut current_i = max_i;
    let mut current_j = max_j;

    let mut result = LocalAlignmentResult {
        aligned_row_seq: LocallyAlignedSeq { start: max_i, end: max_i, data: Vec::new() },
        aligned_column_seq: LocallyAlignedSeq { start: max_j, end: max_j, data: Vec::new() },
        score: matrix.at(max_i, max_j),
        identity_numer: 0,
        identity_denom: 0,
    };

    while matrix.at(current_i, current_j) != 0
        invariant
            r == row_seq@,
            c == column_seq@,
            n == r.len(),
            m == c.len(),
            sw_fits(r, c, config),
            matrix@ == sw_rows(r, c, config),
            full == sw_path(r, c, config, max_i as nat, max_j as nat),
            max_i <= n,
            max_j <= m,
            full.3 <= u32::MAX,
            full.2 <= full.3,
            current_i <= max_i,
            current_j <= max_j,
            result.score == sw_score(r, c, config, max_i as nat, max_j as nat),
            result.aligned_row_seq.start == current_i,
            result.aligned_row_seq.end == max_i,
            result.aligned_column_seq.start == current_j,
            result.aligned_column_seq.end == max_j,
            result.identity_numer <= result.identity_denom,
            ({
                let here = sw_path(r, c, config, current_i as nat, current_j as nat);
                &&& full.0 == here.0 + result.aligned_row_seq.data@.reverse()
                &&& full.1 == here.1 + result.aligned_column_seq.data@.reverse()
                &&& full.2 == here.2 + result.identity_numer
                &&& full.3 == here.3 + result.identity_denom
                &&& full.4 == here.4
                &&& full.5 == here.5
            }),
        decreases current_i + current_j,
    {
        let ghost i = current_i as nat;
        let ghost j = current_j as nat;
        let ghost rows_before = result.aligned_row_seq.data@;
        let ghost cols_before = result.aligned_column_seq.data@;
        proof {
            lemma_sw_fits(r, c, config, i, j);
            if i > 0 {
                lemma_sw_fits(r, c, config, (i - 1) as nat, j);
            }
            if j > 0 {
                lemma_sw_fits(r, c, config, i, (j - 1) as nat);
            }
        }
        let current_score = matrix.at(current_i, current_j);
        let mut maybe_step: Option<TracebackStep> = None;
        if current_i > 0 {
            let previous_score = matrix.at(current_i - 1, current_j);
            let penalty = config.gap_penalty;
            if current_score == previous_score + penalty {
                maybe_step = Some(TracebackStep::Top);
            }
        }
        if maybe_step.is_none() && current_j > 0 {
            let previous_score = matrix.at(current_i, current_j - 1);
            let penalty = config.gap_penalty;
            if current_score == previous_score + penalty {
                maybe_step = Some(TracebackStep::Left);
            }
        }
        let step = match maybe_step {
            Some(step) => step,
            None => TracebackStep::TopLeft,
        };

        match step {
            TracebackStep::TopLeft => {
                current_i = current_i - 1;
                current_j = current_j - 1;
                let ghost p = sw_path(r, c, config, (i - 1) as nat, (j - 1) as nat);
                traceback_sw_top_left(row_seq, column_seq, &mut result, current_i, current_j);
                proof {
                    lemma_push_reverse(p.0, rows_before, r[i - 1]);
                    lemma_push_reverse(p.1, cols_before, c[j - 1]);
                }
            },
            TracebackStep::Top => {
                current_i = current_i - 1;
                let ghost p = sw_path(r, c, config, (i - 1) as nat, j);
                traceback_sw_top(row_seq, &mut result, current_i);
                proof {
                    lemma_push_reverse(p.0, rows_before, r[i - 1]);
                    lemma_push_reverse(p.1, cols_before, GAP);
                }
            },
            TracebackStep::Left => {
                current_j = current_j - 1;
                let ghost p = sw_path(r, c, config, i, (j - 1) as nat);
                traceback_sw_left(column_seq, &mut result, current_j);
                proof {
                    lemma_push_reverse(p.0, rows_before, GAP);
                    lemma_push_reverse(p.1, cols_before, c[j - 1]);
                }
            },
        }
    }

    proof {
        lemma_sw_fits(r, c, config, current_i as nat, current_j as nat);
        assert(full.0 =~= result.aligned_row_seq.data@.reverse());
        assert(full.1 =~= result.aligned_column_seq.data@.reverse());
    }
    result.aligned_row_seq.data = reversed(&result.aligned_row_seq.data);
    result.aligned_column_seq.data = reversed(&result.aligned_column_seq.data);
    if result.identity_denom < 1 {
        result.identity_denom = 1;
    }
    result
}

/// This function fills a Smith-Waterman score matrix.
pub fn compute_sw_matrix(
    row_seq: &[Letter],
    column_seq: &[Letter],
    config: LocalAlignmentConfig,
) -> (matrix: AlignmentMatrix)
    requires
        sw_fits(row_seq@, column_seq@, config),
    ensures
        matrix@ == sw_rows(row_seq@, column_seq@, config),
{
    proof {
        lemma_dimensions_fit(row_seq@.len(), column_seq@.len());
    }
    let row_count = row_seq.len() + 1;
    let column_count = column_seq.len() + 1;
    let mut matrix = AlignmentMatrix::zeroed(row_count, column_count);
    proof {
        lemma_sw_fill_fits(matrix@, row_seq@, column_seq@, config);
    }
    fill_sw_matrix_content(row_seq, column_seq, config, &mut matrix);
    matrix
}

/// The value of cell `(i, j)` once the interior of a matrix whose borders
/// are those of `border` is filled by the recurrence.
spec fn sw_fill(border: Seq<Seq<i64>>, r: Seq<Letter>, c: Seq<Letter>, cfg: LocalAlignmentConfig, i: nat, j: nat) -> int
    decreases i + j,
{
    if i == 0 || j == 0 {
        border[i as int][j as int] as int
    } else {
        sw_cell_value(
            cfg,
            r[i - 1],
            c[j - 1],
            sw_fill(border, r, c, cfg, (i - 1) as nat, (j - 1) as nat),
            sw_fill(border, r, c, cfg, (i - 1) as nat, j),
            sw_fill(border, r, c, cfg, i, (j - 1) as nat),
        )
    }
}

/// Whether computing interior cell `(i, j)` of that fill stays within a
/// `Score`.
spec fn sw_fill_fits_at(border: Seq<Seq<i64>>, r: Seq<Letter>, c: Seq<Letter>, cfg: LocalAlignmentConfig, i: nat, j: nat) -> bool {
    sw_cell_fits(
        cfg,
        r[i - 1],
        c[j - 1],
        sw_fill(border, r, c, cfg, (i - 1) as nat, (j - 1) as nat),
        sw_fill(border, r, c, cfg, (i - 1) as nat, j),
        sw_fill(border, r, c, cfg, i, (j - 1) as nat),
    )
}

/// Whether every interior cell of that fill is computed within a `Score`.
spec fn sw_fill_fits(border: Seq<Seq<i64>>, r: Seq<Letter>, c: Seq<Letter>, cfg: LocalAlignmentConfig) -> bool {
    forall|i: nat, j: nat|
        1 <= i <= r.len() && 1 <= j <= c.len() ==> #[trigger] sw_fill_fits_at(border, r, c, cfg, i, j)
}

/// Whether the borders of `rows` hold the Smith-Waterman scores.
pub open spec fn sw_borders(rows: Seq<Seq<i64>>, r: Seq<Letter>, c: Seq<Letter>, cfg: LocalAlignmentConfig) -> bool {
    forall|a: int, b: int|
        #![trigger rows[a][b]]
        0 <= a <= r.len() && 0 <= b <= c.len() && (a == 0 || b == 0) ==> rows[a][b]
            == sw_score(r, c, cfg, a as nat, b as nat) as i64
}

proof fn lemma_sw_fill_in_range(border: Seq<Seq<i64>>, r: Seq<Letter>, c: Seq<Letter>, cfg: LocalAlignmentConfig, i: nat, j: nat)
    requires
        sw_fill_fits(border, r, c, cfg),
        i <= r.len(),
        j <= c.len(),
    ensures
        i64::MIN <= sw_fill(border, r, c, cfg, i, j) <= i64::MAX,
{
    if i > 0 && j > 0 {
        assert(sw_fill_fits_at(border, r, c, cfg, i, j));
    }
}

/// With Smith-Waterman borders, the fill gives the Smith-Waterman
/// scores.
proof fn lemma_sw_fill_is_score(border: Seq<Seq<i64>>, r: Seq<Letter>, c: Seq<Letter>, cfg: LocalAlignmentConfig, i: nat, j: nat)
    requires
        sw_fits(r, c, cfg),
        has_shape(border, r.len() as int + 1, c.len() as int + 1),
        sw_borders(border, r, c, cfg),
        i <= r.len(),
        j <= c.len(),
    ensures
        sw_fill(border, r, c, cfg, i, j) == sw_score(r, c, cfg, i, j),
    decreases i + j,
{
    lemma_sw_fits(r, c, cfg, i, j);
    if i == 0 || j == 0 {
        assert(border[i as int][j as int] == sw_score(r, c, cfg, i, j) as i64);
    } else {
        lemma_sw_fill_is_score(border, r, c, cfg, (i - 1) as nat, (j - 1) as nat);
        lemma_sw_fill_is_score(border, r, c, cfg, (i - 1) as nat, j);
        lemma_sw_fill_is_score(border, r, c, cfg, i, (j - 1) as nat);
    }
}

/// With Smith-Waterman borders and weights within machine limits, every
/// interior cell is computed within a `Score`.
proof fn lemma_sw_fill_fits(border: Seq<Seq<i64>>, r: Seq<Letter>, c: Seq<Letter>, cfg: LocalAlignmentConfig)
    requires
        sw_fits(r, c, cfg),
        has_shape(border, r.len() as int + 1, c.len() as int + 1),
        sw_borders(border, r, c, cfg),
    ensures
        sw_fill_fits(border, r, c, cfg),
{
    assert forall|i: nat, j: nat| 1 <= i <= r.len() && 1 <= j <= c.len() implies #[trigger] sw_fill_fits_at(
        border,
        r,
        c,
        cfg,
        i,
        j,
    ) by {
        lemma_sw_fill_is_score(border, r, c, cfg, (i - 1) as nat, (j - 1) as nat);
        lemma_sw_fill_is_score(border, r, c, cfg, (i - 1) as nat, j);
        lemma_sw_fill_is_score(border, r, c, cfg, i, (j - 1) as nat);
        lemma_sw_fits(r, c, cfg, (i - 1) as nat, (j - 1) as nat);
        lemma_sw_fits(r, c, cfg, (i - 1) as nat, j);
        lemma_sw_fits(r, c, cfg, i, (j - 1) as nat);
    }
}

/// This function fills the scores of a Smith-Waterman matrix from the cells
/// of its first row and first column, which it leaves as they are. Cells
/// are computed row by row.
fn fill_sw_matrix_content(
    row_seq: &[Letter],
    column_seq: &[Letter],
    config: LocalAlignmentConfig,
    matrix: &mut AlignmentMatrix,
)
    requires
        has_shape(old(matrix)@, row_seq@.len() as int + 1, column_seq@.len() as int + 1),
        sw_fill_fits(old(matrix)@, row_seq@, column_seq@, config),
    ensures
        has_shape(final(matrix)@, row_seq@.len() as int + 1, column_seq@.len() as int + 1),
        forall|a: int, b: int|
            #![trigger final(matrix)@[a][b]]
            0 <= a <= row_seq@.len() && 0 <= b <= column_seq@.len() && (a == 0 || b == 0)
                ==> final(matrix)@[a][b] == old(matrix)@[a][b],
        forall|a: int, b: int|
            #![trigger final(matrix)@[a][b]]
            1 <= a <= row_seq@.len() && 1 <= b <= column_seq@.len() ==> final(matrix)@[a][b]
                == sw_cell_value(
                config,
                row_seq@[a - 1],
                column_seq@[b - 1],
                final(matrix)@[a - 1][b - 1] as int,
                final(matrix)@[a - 1][b] as int,
                final(matrix)@[a][b - 1] as int,
            ),
        sw_borders(old(matrix)@, row_seq@, column_seq@, config) && sw_fits(row_seq@, column_seq@, config)
            ==> final(matrix)@ == sw_rows(row_seq@, column_seq@, config),
{
    let ghost r = row_seq@;
    let ghost c = column_seq@;
    let ghost start = matrix@;
    let n = row_seq.len();
    let m = column_seq.len();
    let mut i: usize = 0;
    while i < n
        invariant
            r == row_seq@,
            c == column_seq@,
            n == r.len(),
            m == c.len(),
            sw_fill_fits(start, r, c, config),
            i <= n,
            has_shape(matrix@, n + 1, m + 1),
            has_shape(start, n + 1, m + 1),
            forall|a: int, b: int|
                #![trigger matrix@[a][b]]
                0 <= a <= n && 0 <= b <= m && sw_filled(a, b, i as int, 0) ==> matrix@[a][b]
                    == sw_fill(start, r, c, config, a as nat, b as nat),
            forall|a: int, b: int|
                #![trigger matrix@[a][b]]
                0 <= a <= n && 0 <= b <= m && (a == 0 || b == 0) ==> matrix@[a][b] == start[a][b],
        decreases n - i,
    {
        let mut j: usize = 0;
        while j < m
            invariant
                r == row_seq@,
                c == column_seq@,
                n == r.len(),
                m == c.len(),
                sw_fill_fits(start, r, c, config),
                i < n,
                j <= m,
                has_shape(matrix@, n + 1, m + 1),
                has_shape(start, n + 1, m + 1),
                forall|a: int, b: int|
                    #![trigger matrix@[a][b]]
                    0 <= a <= n && 0 <= b <= m && sw_filled(a, b, i as int, j as int) ==> matrix@[a][b]
                        == sw_fill(start, r, c, config, a as nat, b as nat),
                forall|a: int, b: int|
                    #![trigger matrix@[a][b]]
                    0 <= a <= n && 0 <= b <= m && (a == 0 || b == 0) ==> matrix@[a][b] == start[a][b],
            decreases m - j,
        {
            proof {
                assert(sw_fill_fits_at(start, r, c, config, (i + 1) as nat, (j + 1) as nat));
                lemma_sw_fill_in_range(start, r, c, config, (i + 1) as nat, (j + 1) as nat);
            }
            compute_sw_matrix_cell(row_seq, column_seq, config, matrix, i, j);
            j = j + 1;
        }
        i = i + 1;
    }
    proof {
        assert forall|a: int, b: int| 1 <= a <= n && 1 <= b <= m implies #[trigger] matrix@[a][b]
            == sw_cell_value(
            config,
            r[a - 1],
            c[b - 1],
            matrix@[a - 1][b - 1] as int,
            matrix@[a - 1][b] as int,
            matrix@[a][b - 1] as int,
        ) by {
            lemma_sw_fill_in_range(start, r, c, config, (a - 1) as nat, (b - 1) as nat);
            lemma_sw_fill_in_range(start, r, c, config, (a - 1) as nat, b as nat);
            lemma_sw_fill_in_range(start, r, c, config, a as nat, (b - 1) as nat);
            lemma_sw_fill_in_range(start, r, c, config, a as nat, b as nat);
        }
        if sw_borders(start, r, c, config) && sw_fits(r, c, config) {
            assert forall|a: int, b: int| 0 <= a <= n && 0 <= b <= m implies #[trigger] matrix@[a][b]
                == sw_rows(r, c, config)[a][b] by {
                lemma_sw_fill_is_score(start, r, c, config, a as nat, b as nat);
            }
            assert(matrix@ =~~= sw_rows(r, c, config));
        }
    }
}

/// Computes the score of an individual cell of a Smith-Waterman matrix
/// from its top-left (pred_i, pred_j), top (pred_i, pred_j + 1) and left
/// (pred_i + 1, pred_j) cells, whatever they hold.
fn compute_sw_matrix_cell(
    row_seq: &[Letter],
    column_seq: &[Letter],
    config: LocalAlignmentConfig,
    matrix: &mut AlignmentMatrix,
    pred_i: usize,
    pred_j: usize,
)
    requires
        pred_i < row_seq@.len(),
        pred_j < column_seq@.len(),
        has_shape(old(matrix)@, row_seq@.len() as int + 1, column_seq@.len() as int + 1),
        sw_cell_fits(
            config,
            row_seq@[pred_i as int],
            column_seq@[pred_j as int],
            old(matrix)@[pred_i as int][pred_j as int] as int,
            old(matrix)@[pred_i as int][pred_j + 1] as int,
            old(matrix)@[pred_i + 1][pred_j as int] as int,
        ),
    ensures
        final(matrix)@ == old(matrix)@.update(
            pred_i + 1,
            old(matrix)@[pred_i + 1].update(
                pred_j + 1,
                sw_cell_value(
                    config,
                    row_seq@[pred_i as int],
                    column_seq@[pred_j as int],
                    old(matrix)@[pred_i as int][pred_j as int] as int,
                    old(matrix)@[pred_i as int][pred_j + 1] as int,
                    old(matrix)@[pred_i + 1][pred_j as int] as int,
                ) as i64,
            ),
        ),
{
    // both lengths fit in a `usize`, so the neighbours' indices do too
    let row_count = row_seq.len();
    let column_count = column_seq.len();
    proof {
        assert(pred_i + 1 <= row_count && pred_j + 1 <= column_count);
    }
    let top_left = matrix.at(pred_i, pred_j);
    let top = matrix.at(pred_i, pred_j + 1);
    let left = matrix.at(pred_i + 1, pred_j);

    let row_letter = row_seq.get(pred_i).normalize_letter();
    let column_letter = column_seq.get(pred_j).normalize_letter();
    let no_gap_penalty = if row_letter == column_letter {
        config.match_penalty
    } else {
        config.mismatch_penalty
    };
    let no_gap_score = top_left + no_gap_penalty;

    let best_gap_neighbor = if top >= left {
        top
    } else {
        left
    };
    let best_gap_score = best_gap_neighbor + config.gap_penalty;

    let best = if best_gap_score >= no_gap_score {
        best_gap_score
    } else {
        no_gap_score
    };
    let clamped = if best >= 0 {
        best
    } else {
        0
    };
    matrix.put(pred_i + 1, pred_j + 1, clamped);
}

/// Registers result of a traceback going to a previous top-left cell in a
/// Smith-Waterman local alignment.
fn traceback_sw_top_left(
    row_seq: &[Letter],
    column_seq: &[Letter],
    result: &mut LocalAlignmentResult,
    current_i: usize,
    current_j: usize,
)
    requires
        current_i < row_seq@.len(),
        current_j < column_seq@.len(),
        old(result).aligned_row_seq.start == current_i + 1,
        old(result).aligned_column_seq.start == current_j + 1,
        old(result).identity_denom < u32::MAX,
        old(result).identity_numer <= old(result).identity_denom,
    ensures
        final(result).aligned_row_seq.start == current_i,
        final(result).aligned_row_seq.end == old(result).aligned_row_seq.end,
        final(result).aligned_row_seq.data@ == old(result).aligned_row_seq.data@.push(
            row_seq@[current_i as int],
        ),
        final(result).aligned_column_seq.start == current_j,
        final(result).aligned_column_seq.end == old(result).aligned_column_seq.end,
        final(result).aligned_column_seq.data@ == old(result).aligned_column_seq.data@.push(
            column_seq@[current_j as int],
        ),
        final(result).score == old(result).score,
        final(result).identity_denom == old(result).identity_denom + 1,
        final(result).identity_numer == old(result).identity_numer + if row_seq@[current_i as int]
            == column_seq@[current_j as int] {
            1int
        } else {
            0int
        },
{
    let row_letter = row_seq.get(current_i).normalize_letter();
    let column_letter = column_seq.get(current_j).normalize_letter();
    result.aligned_row_seq.start = result.aligned_row_seq.start - 1;
    result.aligned_row_seq.data.push(row_letter);
    result.aligned_column_seq.start = result.aligned_column_seq.start - 1;
    result.aligned_column_seq.data.push(column_letter);
    result.identity_denom = result.identity_denom + 1;
    if row_letter == column_letter {
        result.identity_numer = result.identity_numer + 1;
    }
}

/// Registers result of a traceback going to a previous top cell in a
/// Smith-Waterman local alignment.
fn traceback_sw_top(row_seq: &[Letter], result: &mut LocalAlignmentResult, current_i: usize)
    requires
        current_i < row_seq@.len(),
        old(result).aligned_row_seq.start == current_i + 1,
    ensures
        final(result).aligned_row_seq.start == current_i,
        final(result).aligned_row_seq.end == old(result).aligned_row_seq.end,
        final(result).aligned_row_seq.data@ == old(result).aligned_row_seq.data@.push(
            row_seq@[current_i as int],
        ),
        final(result).aligned_column_seq.start == old(result).aligned_column_seq.start,
        final(result).aligned_column_seq.end == old(result).aligned_column_seq.end,
        final(result).aligned_column_seq.data@ == old(result).aligned_column_seq.data@.push(GAP),
        final(result).score == old(result).score,
        final(result).identity_denom == old(result).identity_denom,
        final(result).identity_numer == old(result).identity_numer,
{
    let row_letter = row_seq.get(current_i).normalize_letter();
    result.aligned_row_seq.start = result.aligned_row_seq.start - 1;
    result.aligned_row_seq.data.push(row_letter);
    result.aligned_column_seq.data.push(GAP);
}

/// Registers result of a traceback going to a previous left cell in a
/// Smith-Waterman local alignment.
fn traceback_sw_left(column_seq: &[Letter], result: &mut LocalAlignmentResult, current_j: usize)
    requires
        current_j < column_seq@.len(),
        old(result).aligned_column_seq.start == current_j + 1,
    ensures
        final(result).aligned_row_seq.start == old(result).aligned_row_seq.start,
        final(result).aligned_row_seq.end == old(result).aligned_row_seq.end,
        final(result).aligned_row_seq.data@ == old(result).aligned_row_seq.data@.push(GAP),
        final(result).aligned_column_seq.start == current_j,
        final(result).aligned_column_seq.end == old(result).aligned_column_seq.end,
        final(result).aligned_column_seq.data@ == old(result).aligned_column_seq.data@.push(
            column_seq@[current_j as int],
        ),
        final(result).score == old(result).score,
        final(result).identity_denom == old(result).identity_denom,
        final(result).identity_numer == old(result).identity_numer,
{
    let column_letter = column_seq.get(current_j).normalize_letter();
    result.aligned_row_seq.data.push(GAP);
    result.aligned_column_seq.start = result.aligned_column_seq.start - 1;
    result.aligned_column_seq.data.push(column_letter);
}

} // verus!
