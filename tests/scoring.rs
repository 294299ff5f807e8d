use seq_align::matrices::{matrix_data_by_name, BuiltinMatrix};
use seq_align::scoring::{saturating_add, AlignmentError, ScoringConfig, SubstitutionScorer};

#[test]
fn test_simple_scoring() {
    let scorer = SubstitutionScorer::Simple {
        match_score: 5,
        mismatch_score: -3,
    };
    assert_eq!(scorer.score(b'A', b'A').unwrap(), 5);
    assert_eq!(scorer.score(b'A', b'T').unwrap(), -3);
    assert_eq!(scorer.score(b'a', b'A').unwrap(), 5);
}

#[test]
fn test_blosum62_scoring() {
    let scorer = SubstitutionScorer::Matrix(BuiltinMatrix::Blosum62);
    assert_eq!(scorer.score(b'A', b'A').unwrap(), 4);
    assert_eq!(scorer.score(b'a', b'A').unwrap(), 4);
    assert_eq!(scorer.score(b'A', b'R').unwrap(), -1);
    assert_eq!(scorer.score(b'W', b'W').unwrap(), 11);
}

#[test]
fn test_ednafull_scoring() {
    let scorer = SubstitutionScorer::Matrix(BuiltinMatrix::Ednafull);
    assert_eq!(scorer.score(b'A', b'A').unwrap(), 5);
    assert_eq!(scorer.score(b'A', b'T').unwrap(), -4);
    assert_eq!(scorer.score(b'N', b'N').unwrap(), -1);
}

#[test]
fn test_pam250_scoring() {
    let scorer = SubstitutionScorer::Matrix(BuiltinMatrix::from_str("PAM250").unwrap());
    assert_eq!(scorer.score(b'A', b'A').unwrap(), 2);
    assert_eq!(scorer.score(b'A', b'R').unwrap(), -2);
    assert_eq!(scorer.score(b'W', b'W').unwrap(), 17);
}

#[test]
fn test_invalid_character_error() {
    let scorer = SubstitutionScorer::Matrix(BuiltinMatrix::Ednafull);
    let res = scorer.score(b'X', b'A');
    assert!(matches!(res, Err(AlignmentError::InvalidCharacter(b'X'))));

    let res_v = scorer.validate(b"ATGCX");
    assert!(matches!(res_v, Err(AlignmentError::InvalidCharacter(b'X'))));
}

#[test]
fn test_scoring_config_gap_penalty() {
    let config = ScoringConfig::linear(3, -1, -2, -2);
    assert_eq!(config.gap_penalty(0), 0);
    assert_eq!(config.gap_penalty(1), -2);
    assert_eq!(config.gap_penalty(3), -6);
}

#[test]
fn test_affine_gap_not_supported() {
    let config = ScoringConfig {
        scorer: SubstitutionScorer::Simple {
            match_score: 1,
            mismatch_score: -1,
        },
        gap_open: -2,
        gap_extend: -1,
    };
    let err = config.ensure_linear().unwrap_err();
    assert!(matches!(err, AlignmentError::Other(_)));
}

#[test]
fn test_matrix_data_by_name() {
    let data = matrix_data_by_name("BLOSUM62").expect("matrix not found");
    let n = data.alphabet.len();
    assert_eq!(data.name, "BLOSUM62");
    assert_eq!(data.scores.len(), n * n);
}

#[test]
fn affine_message_names_both_costs() {
    let config = ScoringConfig {
        scorer: SubstitutionScorer::Simple {
            match_score: 1,
            mismatch_score: -1,
        },
        gap_open: -5,
        gap_extend: -1,
    };
    match config.ensure_linear() {
        Err(AlignmentError::Other(msg)) => {
            assert!(msg.contains("gap_open=-5"));
            assert!(msg.contains("gap_extend=-1"));
        }
        _ => panic!("affine gaps accepted"),
    }
    assert!(ScoringConfig::linear(1, -1, -2, -2).ensure_linear().is_ok());
    assert!(config.is_affine());
}

#[test]
fn gap_penalty_saturates() {
    let config = ScoringConfig::linear(1, -1, i32::MIN, i32::MIN);
    assert_eq!(config.gap_penalty(2), i32::MIN);
    let config = ScoringConfig::linear(1, -1, -3, -3);
    assert_eq!(config.gap_penalty(usize::MAX), i32::MIN);
    let affine = ScoringConfig {
        scorer: SubstitutionScorer::Simple {
            match_score: 1,
            mismatch_score: -1,
        },
        gap_open: -10,
        gap_extend: -1,
    };
    assert_eq!(affine.gap_penalty(1), -10);
    assert_eq!(affine.gap_penalty(4), -13);
}

#[test]
fn saturating_add_clamps() {
    assert_eq!(saturating_add(i32::MIN, -1), i32::MIN);
    assert_eq!(saturating_add(i32::MAX, 1), i32::MAX);
    assert_eq!(saturating_add(i32::MIN, 5), i32::MIN + 5);
    assert_eq!(saturating_add(2, 3), 5);
}

#[test]
fn matrix_lookup_ignores_case_and_reports_unknown_residues() {
    assert_eq!(BuiltinMatrix::from_str("blosum62"), Some(BuiltinMatrix::Blosum62));
    assert_eq!(BuiltinMatrix::from_str("EdnaFull"), Some(BuiltinMatrix::Ednafull));
    assert_eq!(BuiltinMatrix::from_str("BLOSUM6"), None);
    assert_eq!(BuiltinMatrix::from_str(""), None);
    let scorer = SubstitutionScorer::Matrix(BuiltinMatrix::Blosum62);
    assert_eq!(scorer.score(b'*', b'*').unwrap(), 1);
    assert_eq!(scorer.score(b'w', b'y').unwrap(), 2);
    assert!(matches!(scorer.score(b'A', b'J'), Err(AlignmentError::InvalidCharacter(b'J'))));
    assert!(matches!(scorer.score(b'O', b'J'), Err(AlignmentError::InvalidCharacter(b'O'))));
    assert!(scorer.validate(b"").is_ok());
    assert!(matches!(scorer.validate(b"ARJO"), Err(AlignmentError::InvalidCharacter(b'J'))));
    assert!(matches!(
        SubstitutionScorer::Matrix(BuiltinMatrix::Ednafull).validate(b"acgu"),
        Err(AlignmentError::InvalidCharacter(b'u'))
    ));
}

#[test]
fn matrix_data_is_square_for_every_matrix() {
    for name in ["blosum62", "PAM250", "ednafull"] {
        let data = matrix_data_by_name(name).unwrap();
        let n = data.alphabet.len();
        assert_eq!(data.scores.len(), n * n);
        assert_eq!(data.name, name.to_ascii_uppercase());
    }
    assert!(matrix_data_by_name("PAM30").is_none());
    assert_eq!(BuiltinMatrix::all().len(), 3);
}

#[test]
fn affine_message_renders_extreme_costs() {
    let config = ScoringConfig::linear(1, -1, i32::MIN, i32::MAX);
    match config.ensure_linear() {
        Err(AlignmentError::Other(msg)) => assert_eq!(
            msg,
            "Affine gap penalties are not supported yet (gap_open=-2147483648, gap_extend=2147483647)"
        ),
        _ => panic!("affine gaps accepted"),
    }
    let config = ScoringConfig::linear(1, -1, 0, 10);
    match config.ensure_linear() {
        Err(AlignmentError::Other(msg)) => assert_eq!(
            msg,
            "Affine gap penalties are not supported yet (gap_open=0, gap_extend=10)"
        ),
        _ => panic!("affine gaps accepted"),
    }
}
