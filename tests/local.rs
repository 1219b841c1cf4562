use seq_align::letter::{Letter, GAP};
use seq_align::local::{
    best_smith_waterman, compute_sw_matrix, traceback_best_sw_alignment, LocalAlignmentConfig,
    LocalAlignmentResult, LocallyAlignedSeq,
};

fn without_gaps(s: &[Letter]) -> Vec<Letter> {
    s.iter().copied().filter(|&x| x != GAP).collect()
}

#[test]
fn easy_case() {
    let input_row_seq = ['G', 'G', 'T', 'T', 'G', 'A', 'C', 'T', 'A'];
    let input_column_seq = ['T', 'G', 'T', 'T', 'A', 'C', 'G', 'G'];
    let input_config = LocalAlignmentConfig {
        match_penalty: 3,
        mismatch_penalty: -3,
        gap_penalty: -2,
    };

    let expected_result = vec![LocalAlignmentResult {
        aligned_row_seq: LocallyAlignedSeq {
            start: 1,
            end: 7,
            data: vec!['G', 'T', 'T', 'G', 'A', 'C'],
        },
        aligned_column_seq: LocallyAlignedSeq {
            start: 1,
            end: 6,
            data: vec!['G', 'T', 'T', '-', 'A', 'C'],
        },
        score: 13,
        identity_numer: 5,
        identity_denom: 5,
    }];

    let actual_result =
        best_smith_waterman(&input_row_seq[..], &input_column_seq[..], input_config);

    assert_eq!(actual_result, expected_result);
}

#[test]
fn default_local_config() {
    let config = LocalAlignmentConfig::default();
    assert_eq!(config.match_penalty, 1);
    assert_eq!(config.mismatch_penalty, -1);
    assert_eq!(config.gap_penalty, -2);
}

#[test]
fn local_windows_give_back_letters_and_score() {
    let config = LocalAlignmentConfig { match_penalty: 3, mismatch_penalty: -3, gap_penalty: -2 };
    let row = ['G', 'G', 'T', 'T', 'G', 'A', 'C', 'T', 'A'];
    let col = ['T', 'G', 'T', 'T', 'A', 'C', 'G', 'G'];
    let results = best_smith_waterman(&row, &col, config);
    assert!(!results.is_empty());
    for result in &results {
        let r = &result.aligned_row_seq;
        let c = &result.aligned_column_seq;
        assert_eq!(without_gaps(&r.data), row[r.start..r.end].to_vec());
        assert_eq!(without_gaps(&c.data), col[c.start..c.end].to_vec());
        let recomputed: i64 = r
            .data
            .iter()
            .zip(&c.data)
            .map(|(&a, &b)| {
                if a == GAP || b == GAP {
                    config.gap_penalty
                } else if a == b {
                    config.match_penalty
                } else {
                    config.mismatch_penalty
                }
            })
            .sum();
        assert_eq!(recomputed, result.score);
    }
}

#[test]
fn local_results_all_reach_matrix_maximum() {
    let config = LocalAlignmentConfig { match_penalty: 2, mismatch_penalty: -1, gap_penalty: -2 };
    let row = ['A', 'B', 'X', 'A', 'B'];
    let col = ['A', 'B'];
    let matrix = compute_sw_matrix(&row, &col, config);
    let best = matrix.max().unwrap();
    assert_eq!(best, 4);
    let results = best_smith_waterman(&row, &col, config);
    assert_eq!(results.len(), 2);
    for result in &results {
        assert_eq!(result.score, best);
        assert_eq!(result.aligned_row_seq.data, vec!['A', 'B']);
        assert_eq!(result.identity_numer, 2);
        assert_eq!(result.identity_denom, 2);
    }
    assert_eq!(results[0].aligned_row_seq.start, 0);
    assert_eq!(results[0].aligned_row_seq.end, 2);
    assert_eq!(results[1].aligned_row_seq.start, 3);
    assert_eq!(results[1].aligned_row_seq.end, 5);
}

#[test]
fn local_without_positive_region_lists_every_cell() {
    let config = LocalAlignmentConfig::default();
    let results = best_smith_waterman(&['A'], &['C'], config);
    assert_eq!(results.len(), 4);
    let origins: Vec<(usize, usize)> = results
        .iter()
        .map(|r| (r.aligned_row_seq.end, r.aligned_column_seq.end))
        .collect();
    assert_eq!(origins, vec![(0, 0), (0, 1), (1, 0), (1, 1)]);
    for result in &results {
        assert_eq!(result.score, 0);
        assert!(result.aligned_row_seq.data.is_empty());
        assert_eq!(result.aligned_row_seq.start, result.aligned_row_seq.end);
        assert_eq!(result.identity_numer, 0);
        assert_eq!(result.identity_denom, 1);
    }
}

#[test]
fn sw_matrix_is_clamped_at_zero() {
    let config = LocalAlignmentConfig { match_penalty: 3, mismatch_penalty: -3, gap_penalty: -2 };
    let matrix = compute_sw_matrix(&['A', 'C'], &['A', 'G'], config);
    assert_eq!(matrix.height(), 3);
    assert_eq!(matrix.width(), 3);
    assert_eq!(matrix.get(1, 1), Some(3));
    assert_eq!(matrix.get(1, 2), Some(1));
    assert_eq!(matrix.get(2, 1), Some(1));
    assert_eq!(matrix.get(2, 2), Some(0));
    assert_eq!(matrix.min(), Some(0));
}

#[test]
fn sw_traceback_of_computed_matrix() {
    let config = LocalAlignmentConfig { match_penalty: 3, mismatch_penalty: -3, gap_penalty: -2 };
    let row = ['G', 'G', 'T', 'T', 'G', 'A', 'C', 'T', 'A'];
    let col = ['T', 'G', 'T', 'T', 'A', 'C', 'G', 'G'];
    let matrix = compute_sw_matrix(&row, &col, config);
    let results = traceback_best_sw_alignment(&row, &col, config, &matrix);
    assert_eq!(results, best_smith_waterman(&row, &col, config));
    assert_eq!(results[0].score, 13);
}
