//! A request's alignment settings: their consistency rules, the scoring they
//! select and the alignment mode they name.

use vstd::prelude::*;
use vstd::string::StringSliceAdditionalSpecFns;
use vstd::utf8::encode_utf8;

use crate::matrices::{builtin_named, names_match, BuiltinMatrix};
use crate::scoring::{upper, to_upper, ScoringConfig, SubstitutionScorer};

verus! {

/// The alignment mode a request names.
#[derive(Debug, Clone, Copy, PartialEq, Eq, Structural)]
pub enum AlignMode {
    Global,
    Local,
}

/// Why a request's settings are refused.
#[derive(Debug, Clone, PartialEq, Eq, Structural)]
pub enum ConfigProblem {
    /// A matrix and match/mismatch scores were both given.
    MatrixWithScores,
    /// Only one of match and mismatch score was given.
    IncompleteScores,
    /// Neither a matrix nor match/mismatch scores were given.
    MissingScoring,
    /// Opening and extending a gap cost differently.
    AffineGaps { gap_open: i32, gap_extend: i32 },
    /// The matrix name is not a built-in matrix.
    UnknownMatrix,
    /// The mode is neither `global` nor `local`.
    UnknownMode,
}

/// The settings of an alignment request.
#[derive(Debug, Clone)]
pub struct AlignConfig {
    pub mode: String,
    pub matrix: Option<String>,
    pub match_score: Option<i32>,
    pub mismatch_score: Option<i32>,
    pub gap_open: i32,
    pub gap_extend: i32,
}

/// `GLOBAL` and `LOCAL`, as ASCII bytes.
pub const GLOBAL_NAME: [u8; 6] = [71, 76, 79, 66, 65, 76];

pub const LOCAL_NAME: [u8; 5] = [76, 79, 67, 65, 76];

/// The mode that `given` names, ASCII case ignored.
pub open spec fn mode_named(given: Seq<u8>) -> Option<AlignMode> {
    if names_match(given, GLOBAL_NAME@) {
        Some(AlignMode::Global)
    } else if names_match(given, LOCAL_NAME@) {
        Some(AlignMode::Local)
    } else {
        None
    }
}

fn spelled(given: &[u8], name: &[u8]) -> (r: bool)
    ensures
        r == names_match(given@, name@),
{
    if given.len() != name.len() {
        return false;
    }
    let mut k: usize = 0;
    while k < name.len()
        invariant
            k <= name@.len(),
            given@.len() == name@.len(),
            forall|j: int| 0 <= j < k ==> upper(#[trigger] given@[j]) == name@[j],
        decreases name@.len() - k,
    {
        if to_upper(given[k]) != name[k] {
            return false;
        }
        k += 1;
    }
    true
}

impl AlignConfig {
    /// The first rule the settings break, if any: a matrix excludes
    /// match/mismatch scores, those two come together, one of the two ways
    /// must be given, and gap costs must be linear.
    pub open spec fn spec_problem(self) -> Option<ConfigProblem> {
        let has_matrix = self.matrix is Some;
        let has_match = self.match_score is Some;
        let has_mismatch = self.mismatch_score is Some;
        if has_matrix && (has_match || has_mismatch) {
            Some(ConfigProblem::MatrixWithScores)
        } else if !has_matrix && has_match != has_mismatch {
            Some(ConfigProblem::IncompleteScores)
        } else if !has_matrix && !has_match {
            Some(ConfigProblem::MissingScoring)
        } else if self.gap_open != self.gap_extend {
            Some(ConfigProblem::AffineGaps { gap_open: self.gap_open, gap_extend: self.gap_extend })
        } else {
            None
        }
    }

    /// Checks the settings against their rules.
    pub fn validate(&self) -> (r: Result<(), ConfigProblem>)
        ensures
            r is Ok <==> self.spec_problem() is None,
            r matches Err(p) ==> self.spec_problem() == Some(p),
    {
        let has_matrix = self.matrix.is_some();
        let has_match = self.match_score.is_some();
        let has_mismatch = self.mismatch_score.is_some();
        if has_matrix && (has_match || has_mismatch) {
            return Err(ConfigProblem::MatrixWithScores);
        }
        if !has_matrix && has_match != has_mismatch {
            return Err(ConfigProblem::IncompleteScores);
        }
        if !has_matrix && !has_match {
            return Err(ConfigProblem::MissingScoring);
        }
        if self.gap_open != self.gap_extend {
            return Err(
                ConfigProblem::AffineGaps { gap_open: self.gap_open, gap_extend: self.gap_extend },
            );
        }
        Ok(())
    }

    /// The scoring the settings select: the named built-in matrix, or
    /// match/mismatch scores, with the gap costs.
    pub fn scoring(&self) -> (r: Result<ScoringConfig, ConfigProblem>)
        ensures
            self.spec_problem() matches Some(p) ==> r == Err::<ScoringConfig, ConfigProblem>(p),
            self.spec_problem() is None ==> (match self.matrix {
                Some(name) => match builtin_named(encode_utf8(name@)) {
                    Some(bm) => r == Ok::<ScoringConfig, ConfigProblem>(
                        ScoringConfig {
                            scorer: SubstitutionScorer::Matrix(bm),
                            gap_open: self.gap_open,
                            gap_extend: self.gap_extend,
                        },
                    ),
                    None => r == Err::<ScoringConfig, ConfigProblem>(ConfigProblem::UnknownMatrix),
                },
                None => r == Ok::<ScoringConfig, ConfigProblem>(
                    ScoringConfig {
                        scorer: SubstitutionScorer::Simple {
                            match_score: self.match_score->Some_0,
                            mismatch_score: self.mismatch_score->Some_0,
                        },
                        gap_open: self.gap_open,
                        gap_extend: self.gap_extend,
                    },
                ),
            }),
    {
        match self.validate() {
            Ok(()) => {},
            Err(p) => return Err(p),
        }
        match &self.matrix {
            Some(name) => {
                match BuiltinMatrix::from_str(name.as_str()) {
                    Some(bm) => Ok(ScoringConfig::with_matrix(bm, self.gap_open, self.gap_extend)),
                    None => Err(ConfigProblem::UnknownMatrix),
                }
            },
            None => {
                match (self.match_score, self.mismatch_score) {
                    (Some(m), Some(mm)) => Ok(
                        ScoringConfig::linear(m, mm, self.gap_open, self.gap_extend),
                    ),
                    _ => Err(ConfigProblem::MissingScoring),
                }
            },
        }
    }

    /// The mode the settings name, ASCII case ignored.
    pub fn align_mode(&self) -> (r: Result<AlignMode, ConfigProblem>)
        ensures
            mode_named(encode_utf8(self.mode@)) matches Some(m) ==> r == Ok::<
                AlignMode,
                ConfigProblem,
            >(m),
            mode_named(encode_utf8(self.mode@)) is None ==> r == Err::<
                AlignMode,
                ConfigProblem,
            >(ConfigProblem::UnknownMode),
    {
        let given = self.mode.as_str().as_bytes();
        if spelled(given, GLOBAL_NAME.as_slice()) {
            Ok(AlignMode::Global)
        } else if spelled(given, LOCAL_NAME.as_slice()) {
            Ok(AlignMode::Local)
        } else {
            Err(ConfigProblem::UnknownMode)
        }
    }
}

} // verus!
