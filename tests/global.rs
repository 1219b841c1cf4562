use seq_align::global::{
    compute_nw_matrix, needleman_wunsch, traceback_nw_best_alignment, GlobalAlignmentConfig,
    GlobalAlignmentResult,
};
use seq_align::letter::{Letter, GAP};

fn without_gaps(s: &[Letter]) -> Vec<Letter> {
    s.iter().copied().filter(|&x| x != GAP).collect()
}

fn recomputed_score(row: &[Letter], col: &[Letter], config: GlobalAlignmentConfig) -> i64 {
    row.iter()
        .zip(col)
        .map(|(&a, &b)| {
            if a == GAP || b == GAP {
                config.gap_penalty
            } else if a == b {
                config.match_penalty
            } else {
                config.mismatch_penalty
            }
        })
        .sum()
}

#[test]
fn simple_what_why_with_gap() {
    let input_row_seq = ['W', 'H', 'A', 'T'];
    let input_column_seq = ['W', 'H', 'Y'];
    let input_config = GlobalAlignmentConfig {
        match_penalty: 1,
        mismatch_penalty: -1,
        gap_penalty: -2,
    };

    let expected_result = GlobalAlignmentResult {
        aligned_row_seq: vec!['W', 'H', 'A', 'T'],
        aligned_column_seq: vec!['W', 'H', 'Y', '-'],
        score: -1,
        identity_numer: 2,
        identity_denom: 3,
    };

    let actual_result = needleman_wunsch(&input_row_seq[..], &input_column_seq[..], input_config);

    assert_eq!(actual_result, expected_result);
}

#[test]
fn multiple_inner_gaps() {
    let input_row_seq = ['G', 'C', 'A', 'T', 'G', 'C', 'G'];
    let input_column_seq = ['G', 'A', 'T', 'T', 'A', 'C', 'A'];
    let input_config = GlobalAlignmentConfig {
        match_penalty: 1,
        mismatch_penalty: -1,
        gap_penalty: -1,
    };

    let expected_result = GlobalAlignmentResult {
        aligned_row_seq: vec!['G', 'C', 'A', 'T', 'G', '-', 'C', 'G'],
        aligned_column_seq: vec!['G', '-', 'A', 'T', 'T', 'A', 'C', 'A'],
        score: 0,
        identity_numer: 4,
        identity_denom: 6,
    };

    let actual_result = needleman_wunsch(&input_row_seq[..], &input_column_seq[..], input_config);

    assert_eq!(actual_result, expected_result);
}

#[test]
fn default_global_config() {
    let config = GlobalAlignmentConfig::default();
    assert_eq!(config.match_penalty, 1);
    assert_eq!(config.mismatch_penalty, -1);
    assert_eq!(config.gap_penalty, -2);
}

#[test]
fn empty_row_against_letters_is_all_gaps() {
    let config = GlobalAlignmentConfig::default();
    let result = needleman_wunsch(&[], &['W', 'H', 'Y'], config);
    assert_eq!(result.aligned_row_seq, vec!['-', '-', '-']);
    assert_eq!(result.aligned_column_seq, vec!['W', 'H', 'Y']);
    assert_eq!(result.score, -6);
    assert_eq!(result.identity_numer, 0);
    assert_eq!(result.identity_denom, 1);
}

#[test]
fn letters_against_empty_column_is_all_gaps() {
    let config = GlobalAlignmentConfig { match_penalty: 2, mismatch_penalty: -1, gap_penalty: -3 };
    let result = needleman_wunsch(&['A', 'B'], &[], config);
    assert_eq!(result.aligned_row_seq, vec!['A', 'B']);
    assert_eq!(result.aligned_column_seq, vec!['-', '-']);
    assert_eq!(result.score, -6);
    assert_eq!(result.identity_numer, 0);
    assert_eq!(result.identity_denom, 1);
}

#[test]
fn both_empty_align_to_nothing() {
    let result = needleman_wunsch(&[], &[], GlobalAlignmentConfig::default());
    assert!(result.aligned_row_seq.is_empty());
    assert!(result.aligned_column_seq.is_empty());
    assert_eq!(result.score, 0);
    assert_eq!(result.identity_numer, 0);
    assert_eq!(result.identity_denom, 1);
}

#[test]
fn global_lengths_stay_between_bounds() {
    let config = GlobalAlignmentConfig { match_penalty: 1, mismatch_penalty: -1, gap_penalty: -1 };
    let row = ['G', 'C', 'A', 'T', 'G', 'C', 'G'];
    let col = ['G', 'A', 'T', 'T', 'A', 'C', 'A', 'T', 'T'];
    let result = needleman_wunsch(&row, &col, config);
    let len = result.aligned_row_seq.len();
    assert_eq!(len, result.aligned_column_seq.len());
    assert!(len >= row.len().max(col.len()));
    assert!(len <= row.len() + col.len());
}

#[test]
fn global_gaps_removed_give_back_inputs() {
    let config = GlobalAlignmentConfig { match_penalty: 1, mismatch_penalty: -1, gap_penalty: -1 };
    let row = ['G', 'C', 'A', 'T', 'G', 'C', 'G'];
    let col = ['G', 'A', 'T', 'T', 'A', 'C', 'A'];
    let result = needleman_wunsch(&row, &col, config);
    assert_eq!(without_gaps(&result.aligned_row_seq), row.to_vec());
    assert_eq!(without_gaps(&result.aligned_column_seq), col.to_vec());
}

#[test]
fn global_score_is_sum_of_columns() {
    let config = GlobalAlignmentConfig { match_penalty: 2, mismatch_penalty: -3, gap_penalty: -1 };
    let row = ['A', 'C', 'C', 'G', 'T', 'A'];
    let col = ['A', 'G', 'T', 'T', 'A', 'C', 'C'];
    let result = needleman_wunsch(&row, &col, config);
    assert_eq!(
        recomputed_score(&result.aligned_row_seq, &result.aligned_column_seq, config),
        result.score
    );
}

#[test]
fn global_identity_fraction_is_proper() {
    let config = GlobalAlignmentConfig::default();
    let result = needleman_wunsch(&['X', 'Y', 'Z'], &['A', 'B'], config);
    assert!(result.identity_denom >= 1);
    assert!(result.identity_numer <= result.identity_denom);
    assert_eq!(result.identity_numer, 0);
}

#[test]
fn nw_matrix_of_what_why() {
    let config = GlobalAlignmentConfig::default();
    let row = ['W', 'H', 'A', 'T'];
    let col = ['W', 'H', 'Y'];
    let matrix = compute_nw_matrix(&row, &col, config);
    let expected: [[i64; 4]; 5] = [
        [0, -2, -4, -6],
        [-2, 1, -1, -3],
        [-4, -1, 2, 0],
        [-6, -3, 0, 1],
        [-8, -5, -2, -1],
    ];
    assert_eq!(matrix.height(), 5);
    assert_eq!(matrix.width(), 4);
    for (i, line) in expected.iter().enumerate() {
        for (j, &value) in line.iter().enumerate() {
            assert_eq!(matrix.get(i, j), Some(value));
        }
    }
}

#[test]
fn nw_traceback_of_computed_matrix() {
    let config = GlobalAlignmentConfig::default();
    let row = ['W', 'H', 'A', 'T'];
    let col = ['W', 'H', 'Y'];
    let matrix = compute_nw_matrix(&row, &col, config);
    let result = traceback_nw_best_alignment(&row, &col, config, &matrix);
    assert_eq!(result, needleman_wunsch(&row, &col, config));
    assert_eq!(result.aligned_column_seq, vec!['W', 'H', 'Y', '-']);
}
