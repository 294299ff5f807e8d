use seq_align::aligners::{Aligner, GlobalAligner};
use seq_align::output::AlignmentResultOutput;

#[test]
fn test_dp_matrix_output_format() {
    let aligner = GlobalAligner::with_defaults();
    let result = aligner.align(b"AC", b"AC").unwrap();

    let output = AlignmentResultOutput::from(&result);

    assert_eq!(output.dp_matrix.rows, 3);
    assert_eq!(output.dp_matrix.cols, 3);
    assert_eq!(output.dp_matrix.scores.len(), 9);
    assert_eq!(output.dp_matrix.arrows.len(), 9);
}

#[test]
fn test_traceback_paths_format() {
    let aligner = GlobalAligner::with_defaults();
    let result = aligner.align(b"AC", b"AC").unwrap();

    let output = AlignmentResultOutput::from(&result);

    assert!(!output.traceback_paths.is_empty());
    for path in &output.traceback_paths {
        assert!(!path.is_empty());
        for coord in path {
            assert_eq!(coord.len(), 2);
        }
    }
}

#[test]
fn output_keeps_every_value() {
    let aligner = GlobalAligner::with_defaults();
    let result = aligner.align(b"AC", b"AC").unwrap();
    let output = AlignmentResultOutput::from(&result);
    assert_eq!(output.seq1, "AC");
    assert_eq!(output.seq2, "AC");
    assert_eq!(output.alignment_score, 6);
    assert_eq!(output.alignments.len(), 1);
    assert_eq!(output.alignments[0].seq1, "AC");
    assert_eq!(output.alignments[0].seq2, "AC");
    assert_eq!(output.traceback_paths, vec![vec![[2, 2], [1, 1], [0, 0]]]);
    assert_eq!(output.dp_matrix.scores, vec![0, -2, -4, -2, 3, 1, -4, 1, 6]);
    assert_eq!(output.dp_matrix.arrows, vec![0, 4, 4, 2, 1, 4, 2, 2, 1]);
    assert_eq!(output.scoring, result.scoring);
}
