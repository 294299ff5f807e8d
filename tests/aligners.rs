use seq_align::aligners::{Aligner, GlobalAligner, LocalAligner};
use seq_align::matrices::BuiltinMatrix;
use seq_align::scoring::{AlignmentError, ScoringConfig, SubstitutionScorer};

#[test]
fn test_identical_sequences() {
    let aligner = GlobalAligner::with_defaults();
    let result = aligner.align(b"ACGT", b"ACGT").unwrap();

    assert_eq!(result.final_score, 12);
    assert_eq!(result.alignments.len(), 1);
    assert_eq!(result.alignments[0].seq1_aligned, "ACGT");
    assert_eq!(result.alignments[0].seq2_aligned, "ACGT");
}

#[test]
fn test_simple_alignment() {
    let scoring = ScoringConfig::linear(1, -1, -1, -1);
    let aligner = GlobalAligner::new(scoring);
    let result = aligner.align(b"GAC", b"ACG").unwrap();

    assert_eq!(result.final_score, 0);
}

#[test]
fn test_with_gaps() {
    let aligner = GlobalAligner::with_defaults();
    let result = aligner.align(b"ACGT", b"AGT").unwrap();

    assert!(result
        .alignments
        .iter()
        .any(|a| a.seq1_aligned.contains('-') || a.seq2_aligned.contains('-')));
}

#[test]
fn test_empty_sequence() {
    let aligner = GlobalAligner::with_defaults();
    let result = aligner.align(b"ACGT", b"").unwrap();

    assert_eq!(result.final_score, -8);
}

#[test]
fn test_with_matrix_alignment() {
    let scoring = ScoringConfig::with_matrix(BuiltinMatrix::Blosum62, -2, -2);
    let aligner = GlobalAligner::new(scoring);
    let result = aligner.align(b"HEAGAWGHEE", b"PAWHEAE").unwrap();
    assert!(result.final_score > 0);
}

#[test]
fn test_invalid_character_alignment() {
    let scoring = ScoringConfig::with_matrix(BuiltinMatrix::Ednafull, -2, -2);
    let aligner = GlobalAligner::new(scoring);
    let result = aligner.align(b"ATGCX", b"ATGC");
    assert!(matches!(result, Err(AlignmentError::InvalidCharacter(b'X'))));
}

#[test]
fn aligners_test_identical_sequences() {
    let aligner = LocalAligner::with_defaults();
    let result = aligner.align(b"ACGT", b"ACGT").unwrap();

    assert_eq!(result.final_score, 12);
    assert_eq!(result.alignments.len(), 1);
    assert_eq!(result.alignments[0].seq1_aligned, "ACGT");
    assert_eq!(result.alignments[0].seq2_aligned, "ACGT");
}

#[test]
fn test_local_alignment_finds_best_region() {
    let scoring = ScoringConfig::linear(2, -1, -2, -2);
    let aligner = LocalAligner::new(scoring);

    let result = aligner.align(b"AAAGCTAAA", b"CGCT").unwrap();

    assert_eq!(result.final_score, 6);
    assert!(result
        .alignments
        .iter()
        .any(|a| a.seq1_aligned.contains("GCT") && a.seq2_aligned.contains("GCT")));
}

#[test]
fn test_no_good_alignment() {
    let scoring = ScoringConfig::linear(1, -3, -3, -3);
    let aligner = LocalAligner::new(scoring);

    let result = aligner.align(b"AAAA", b"TTTT").unwrap();

    assert!(result.final_score <= 0 || result.alignments.is_empty());
}

#[test]
fn test_first_row_col_are_zero() {
    let aligner = LocalAligner::with_defaults();
    let result = aligner.align(b"ACG", b"ACG").unwrap();

    for j in 0..=3 {
        assert_eq!(result.matrix.get(0, j).score, 0);
    }
    for i in 0..=3 {
        assert_eq!(result.matrix.get(i, 0).score, 0);
    }
}

#[test]
fn test_no_negative_scores() {
    let aligner = LocalAligner::with_defaults();
    let result = aligner.align(b"ACGT", b"TGCA").unwrap();

    for cell in &result.matrix.cells {
        assert!(cell.score >= 0, "Found negative score: {}", cell.score);
    }
}

fn strip_gaps(s: &str) -> String {
    s.chars().filter(|c| *c != '-').collect()
}

#[test]
fn global_result_is_complete_for_a_tie() {
    // The single A of the second sequence may face either A of the first.
    let aligner = GlobalAligner::new(ScoringConfig::linear(1, -1, -1, -1));
    let result = aligner.align(b"AA", b"A").unwrap();
    assert_eq!(result.final_score, 0);
    assert_eq!(result.alignments.len(), 2);
    assert_eq!(result.traceback_paths.len(), 2);
    let mut pairs: Vec<(String, String)> = result
        .alignments
        .iter()
        .map(|a| (a.seq1_aligned.clone(), a.seq2_aligned.clone()))
        .collect();
    pairs.sort();
    assert_eq!(
        pairs,
        vec![
            ("AA".to_string(), "-A".to_string()),
            ("AA".to_string(), "A-".to_string())
        ]
    );
    for path in &result.traceback_paths {
        assert_eq!((path.steps[0].i, path.steps[0].j), (2, 1));
        let last = path.steps.last().unwrap();
        assert_eq!((last.i, last.j), (0, 0));
    }
}

#[test]
fn global_alignments_round_trip_to_the_inputs() {
    let aligner = GlobalAligner::with_defaults();
    let result = aligner.align(b"GATTACA", b"GCATGCU").unwrap();
    assert!(!result.alignments.is_empty());
    for a in &result.alignments {
        assert_eq!(a.seq1_aligned.len(), a.seq2_aligned.len());
        assert_eq!(strip_gaps(&a.seq1_aligned), "GATTACA");
        assert_eq!(strip_gaps(&a.seq2_aligned), "GCATGCU");
    }
    assert_eq!(result.seq1, "GATTACA");
    assert_eq!(result.seq2, "GCATGCU");
}

#[test]
fn local_alignments_are_pieces_of_the_inputs() {
    let aligner = LocalAligner::new(ScoringConfig::linear(2, -1, -2, -2));
    let result = aligner.align(b"AAAGCTAAA", b"CGCT").unwrap();
    for a in &result.alignments {
        assert_eq!(a.seq1_aligned.len(), a.seq2_aligned.len());
        assert!("AAAGCTAAA".contains(&strip_gaps(&a.seq1_aligned)));
        assert!("CGCT".contains(&strip_gaps(&a.seq2_aligned)));
    }
}

#[test]
fn global_against_empty_is_all_gaps() {
    let aligner = GlobalAligner::with_defaults();
    let result = aligner.align(b"ACGT", b"").unwrap();
    assert_eq!(result.alignments.len(), 1);
    assert_eq!(result.alignments[0].seq1_aligned, "ACGT");
    assert_eq!(result.alignments[0].seq2_aligned, "----");

    let result = aligner.align(b"", b"ACG").unwrap();
    assert_eq!(result.final_score, -6);
    assert_eq!(result.alignments.len(), 1);
    assert_eq!(result.alignments[0].seq1_aligned, "---");
    assert_eq!(result.alignments[0].seq2_aligned, "ACG");

    let result = aligner.align(b"", b"").unwrap();
    assert_eq!(result.final_score, 0);
    assert_eq!(result.alignments.len(), 1);
    assert_eq!(result.alignments[0].seq1_aligned, "");
}

#[test]
fn local_without_similarity_returns_nothing() {
    let aligner = LocalAligner::new(ScoringConfig::linear(1, -3, -3, -3));
    let result = aligner.align(b"AAAA", b"TTTT").unwrap();
    assert_eq!(result.final_score, 0);
    assert!(result.alignments.is_empty());
    assert!(result.traceback_paths.is_empty());
    for cell in &result.matrix.cells {
        assert_eq!(cell.score, 0);
        assert_eq!(cell.arrows.bits(), 0);
    }
}

#[test]
fn local_ties_start_from_every_best_cell() {
    let aligner = LocalAligner::new(ScoringConfig::linear(2, -3, -3, -3));
    let result = aligner.align(b"ATA", b"A").unwrap();
    assert_eq!(result.final_score, 2);
    assert_eq!(result.alignments.len(), 2);
    let starts: Vec<(usize, usize)> = result
        .traceback_paths
        .iter()
        .map(|p| (p.steps[0].i, p.steps[0].j))
        .collect();
    assert_eq!(starts, vec![(1, 1), (3, 1)]);
    for a in &result.alignments {
        assert_eq!(a.seq1_aligned, "A");
        assert_eq!(a.seq2_aligned, "A");
    }
}

#[test]
fn forbidden_pair_is_never_aligned() {
    // A against W scores the least i32; gaps are preferred over it.
    let scoring = ScoringConfig::linear(7, i32::MIN, -10, -10);
    let aligner = GlobalAligner::new(scoring);
    let result = aligner.align(b"AA", b"AW").unwrap();
    assert_eq!(result.final_score, -13);
    assert_eq!(result.alignments.len(), 3);
    for aln in &result.alignments {
        assert_ne!(aln.seq1_aligned, "AA");
        assert_ne!(aln.seq2_aligned, "AW");
        for (x, y) in aln.seq1_aligned.chars().zip(aln.seq2_aligned.chars()) {
            assert!(!(x == 'A' && y == 'W'));
        }
    }
}

#[test]
fn global_matrix_borders_and_arrows() {
    let aligner = GlobalAligner::with_defaults();
    let result = aligner.align(b"AC", b"AC").unwrap();
    let m = &result.matrix;
    assert_eq!((m.rows, m.cols), (3, 3));
    assert_eq!(m.get(0, 0).score, 0);
    assert_eq!(m.get(0, 0).arrows.bits(), 0);
    assert_eq!(m.get(2, 0).score, -4);
    assert!(m.get(2, 0).arrows.has_up());
    assert_eq!(m.get(0, 2).score, -4);
    assert!(m.get(0, 2).arrows.has_left());
    assert_eq!(m.get(1, 1).score, 3);
    assert!(m.get(1, 1).arrows.has_diagonal());
    assert_eq!(m.get(2, 2).score, 6);
    assert_eq!(m.get(2, 2).arrows.bits(), 1);
}

#[test]
fn errors_come_in_order() {
    let affine = ScoringConfig {
        scorer: SubstitutionScorer::Matrix(BuiltinMatrix::Ednafull),
        gap_open: -3,
        gap_extend: -1,
    };
    assert!(matches!(
        GlobalAligner::new(affine).align(b"X", b"Y"),
        Err(AlignmentError::Other(_))
    ));
    let dna = ScoringConfig::with_matrix(BuiltinMatrix::Ednafull, -2, -2);
    assert!(matches!(
        LocalAligner::new(dna).align(b"ACXZ", b"Y"),
        Err(AlignmentError::InvalidCharacter(b'X'))
    ));
    assert!(matches!(
        LocalAligner::new(dna).align(b"ACGT", b"AQ"),
        Err(AlignmentError::InvalidCharacter(b'Q'))
    ));
}
