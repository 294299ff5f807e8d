use seq_align::config::{AlignConfig, AlignMode, ConfigProblem};
use seq_align::matrices::BuiltinMatrix;
use seq_align::scoring::{ScoringConfig, SubstitutionScorer};

fn config(
    mode: &str,
    matrix: Option<&str>,
    match_score: Option<i32>,
    mismatch_score: Option<i32>,
    gap_open: i32,
    gap_extend: i32,
) -> AlignConfig {
    AlignConfig {
        mode: mode.to_string(),
        matrix: matrix.map(|m| m.to_string()),
        match_score,
        mismatch_score,
        gap_open,
        gap_extend,
    }
}

#[test]
fn config_rules_in_order() {
    assert_eq!(
        config("global", Some("BLOSUM62"), Some(1), None, -2, -1).validate(),
        Err(ConfigProblem::MatrixWithScores)
    );
    assert_eq!(
        config("global", None, Some(1), None, -2, -2).validate(),
        Err(ConfigProblem::IncompleteScores)
    );
    assert_eq!(
        config("global", None, None, None, -2, -2).validate(),
        Err(ConfigProblem::MissingScoring)
    );
    assert_eq!(
        config("global", None, Some(1), Some(-1), -2, -1).validate(),
        Err(ConfigProblem::AffineGaps {
            gap_open: -2,
            gap_extend: -1
        })
    );
    assert_eq!(config("global", None, Some(1), Some(-1), -2, -2).validate(), Ok(()));
}

#[test]
fn config_selects_scoring() {
    assert_eq!(
        config("local", Some("pam250"), None, None, -4, -4).scoring(),
        Ok(ScoringConfig::with_matrix(BuiltinMatrix::Pam250, -4, -4))
    );
    assert_eq!(
        config("local", Some("PAM999"), None, None, -4, -4).scoring(),
        Err(ConfigProblem::UnknownMatrix)
    );
    assert_eq!(
        config("local", None, Some(2), Some(-1), -2, -2).scoring(),
        Ok(ScoringConfig {
            scorer: SubstitutionScorer::Simple {
                match_score: 2,
                mismatch_score: -1
            },
            gap_open: -2,
            gap_extend: -2
        })
    );
    assert_eq!(
        config("local", None, None, Some(-1), -2, -2).scoring(),
        Err(ConfigProblem::IncompleteScores)
    );
}

#[test]
fn config_names_the_mode() {
    assert_eq!(config("Global", None, None, None, 0, 0).align_mode(), Ok(AlignMode::Global));
    assert_eq!(config("LOCAL", None, None, None, 0, 0).align_mode(), Ok(AlignMode::Local));
    assert_eq!(
        config("semi-global", None, None, None, 0, 0).align_mode(),
        Err(ConfigProblem::UnknownMode)
    );
}
