//! Substitution scoring and gap costs.

use vstd::prelude::*;

use crate::matrices::{push_char, BuiltinMatrix};

verus! {

/// The value of `x` clamped to the range of `i32`.
pub open spec fn clamp_i32(x: int) -> int {
    if x < i32::MIN {
        i32::MIN as int
    } else if x > i32::MAX {
        i32::MAX as int
    } else {
        x
    }
}

/// Adds two scores, clamping to the representable range instead of wrapping.
pub fn saturating_add(a: i32, b: i32) -> (r: i32)
    ensures
        r == clamp_i32(a + b),
{
    let s: i64 = a as i64 + b as i64;
    if s < i32::MIN as i64 {
        i32::MIN
    } else if s > i32::MAX as i64 {
        i32::MAX
    } else {
        s as i32
    }
}

/// The byte with an ASCII lower-case letter turned into upper case.
pub open spec fn upper(c: u8) -> u8 {
    if 97 <= c && c <= 122 {
        (c - 32) as u8
    } else {
        c
    }
}

/// Turns an ASCII lower-case letter into upper case; other bytes are kept.
pub fn to_upper(c: u8) -> (r: u8)
    ensures
        r == upper(c),
{
    if 97 <= c && c <= 122 {
        c - 32
    } else {
        c
    }
}

/// Error of an alignment or of a scoring lookup.
#[derive(Debug, Clone)]
pub enum AlignmentError {
    /// A residue that the active scorer does not know.
    InvalidCharacter(u8),
    /// A configuration that the engine does not support.
    Other(String),
}

/// The character of decimal digit `d`.
pub open spec fn digit_char(d: nat) -> char {
    ((48 + d) as u8) as char
}

/// The decimal digits of `n`, most significant first.
pub open spec fn digits(n: nat) -> Seq<char>
    decreases n,
{
    if n < 10 {
        seq![digit_char(n)]
    } else {
        digits(n / 10).push(digit_char(n % 10))
    }
}

/// The decimal text of `x`, with a leading minus sign when negative.
pub open spec fn decimal(x: int) -> Seq<char> {
    if x < 0 {
        seq!['-'] + digits((-x) as nat)
    } else {
        digits(x as nat)
    }
}

/// The message of a rejected affine gap configuration: it names both costs.
pub open spec fn affine_gap_message(gap_open: i32, gap_extend: i32) -> Seq<char> {
    "Affine gap penalties are not supported yet (gap_open="@ + decimal(gap_open as int)
        + ", gap_extend="@ + decimal(gap_extend as int) + ")"@
}

/// Relies on `String::push_str`: appends the text.
#[verifier::external_body]
fn push_str(s: &mut String, t: &str)
    ensures
        final(s)@ == old(s)@ + t@,
{
    s.push_str(t)
}

fn push_digits(s: &mut String, n: u64)
    ensures
        final(s)@ == old(s)@ + digits(n as nat),
    decreases n,
{
    let ghost before = s@;
    if n >= 10 {
        push_digits(s, n / 10);
    }
    let d: u8 = (n % 10) as u8;
    push_char(s, (48 + d) as char);
    proof {
        if n >= 10 {
            assert(s@ =~= before + digits(n as nat));
        } else {
            assert(s@ =~= before + digits(n as nat));
        }
    }
}

fn push_decimal(s: &mut String, x: i32)
    ensures
        final(s)@ == old(s)@ + decimal(x as int),
{
    let ghost before = s@;
    if x < 0 {
        push_char(s, '-');
        let n: i64 = -(x as i64);
        push_digits(s, n as u64);
        assert(s@ =~= before + decimal(x as int));
    } else {
        push_digits(s, x as u64);
    }
}

/// The message of a rejected affine gap configuration.
fn affine_message(gap_open: i32, gap_extend: i32) -> (r: String)
    ensures
        r@ == affine_gap_message(gap_open, gap_extend),
{
    let mut r = String::new();
    push_str(&mut r, "Affine gap penalties are not supported yet (gap_open=");
    push_decimal(&mut r, gap_open);
    push_str(&mut r, ", gap_extend=");
    push_decimal(&mut r, gap_extend);
    push_str(&mut r, ")");
    assert(r@ =~= affine_gap_message(gap_open, gap_extend));
    r
}

/// Source of substitution scores: match/mismatch or a built-in matrix.
#[derive(Debug, Clone, Copy, PartialEq, Eq, Structural)]
pub enum SubstitutionScorer {
    /// One score for equal residues (ASCII case ignored), one for the others.
    Simple { match_score: i32, mismatch_score: i32 },
    /// A built-in substitution matrix.
    Matrix(BuiltinMatrix),
}

impl SubstitutionScorer {
    /// Whether the scorer knows residue `c`.
    pub open spec fn accepts(self, c: u8) -> bool {
        match self {
            SubstitutionScorer::Simple { .. } => true,
            SubstitutionScorer::Matrix(bm) => bm.spec_index(c) is Some,
        }
    }

    /// Whether every residue of `s` is known.
    pub open spec fn accepts_all(self, s: Seq<u8>) -> bool {
        forall|k: int| 0 <= k < s.len() ==> self.accepts(#[trigger] s[k])
    }

    /// The score of the pair `a`, `b` (meaningful when both are accepted).
    pub open spec fn spec_score(self, a: u8, b: u8) -> i32 {
        match self {
            SubstitutionScorer::Simple { match_score, mismatch_score } => {
                if upper(a) == upper(b) {
                    match_score
                } else {
                    mismatch_score
                }
            },
            SubstitutionScorer::Matrix(bm) => bm.spec_pair_score(a, b),
        }
    }

    /// Returns the score for aligning residue `a` with residue `b`.
    pub fn score(&self, a: u8, b: u8) -> (r: Result<i32, AlignmentError>)
        ensures
            self.accepts(a) && self.accepts(b) ==> r == Ok::<i32, AlignmentError>(
                self.spec_score(a, b),
            ),
            !self.accepts(a) ==> r == Err::<i32, AlignmentError>(
                AlignmentError::InvalidCharacter(a),
            ),
            self.accepts(a) && !self.accepts(b) ==> r == Err::<i32, AlignmentError>(
                AlignmentError::InvalidCharacter(b),
            ),
    {
        match self {
            SubstitutionScorer::Simple { match_score, mismatch_score } => {
                if to_upper(a) == to_upper(b) {
                    Ok(*match_score)
                } else {
                    Ok(*mismatch_score)
                }
            },
            SubstitutionScorer::Matrix(bm) => bm.score(a, b),
        }
    }

    /// Checks that every residue of `seq` is known; the first unknown one is
    /// reported.
    pub fn validate(&self, seq: &[u8]) -> (r: Result<(), AlignmentError>)
        ensures
            r is Ok <==> self.accepts_all(seq@),
            r is Err ==> exists|k: int|
                0 <= k < seq@.len() && !self.accepts(seq@[k]) && (forall|j: int|
                    0 <= j < k ==> self.accepts(#[trigger] seq@[j])) && r == Err::<
                    (),
                    AlignmentError,
                >(AlignmentError::InvalidCharacter(seq@[k])),
    {
        match self {
            SubstitutionScorer::Simple { .. } => Ok(()),
            SubstitutionScorer::Matrix(bm) => {
                let mut k: usize = 0;
                while k < seq.len()
                    invariant
                        *self == SubstitutionScorer::Matrix(*bm),
                        k <= seq@.len(),
                        forall|j: int| 0 <= j < k ==> self.accepts(#[trigger] seq@[j]),
                    decreases seq@.len() - k,
                {
                    let c = seq[k];
                    match bm.index_of(c) {
                        None => {
                            assert(!self.accepts(seq@[k as int]));
                            return Err(AlignmentError::InvalidCharacter(c));
                        },
                        Some(_) => {},
                    }
                    k += 1;
                }
                Ok(())
            },
        }
    }
}

proof fn lemma_i128_product(a: i32, n: usize)
    ensures
        -0x8000_0000_0000_0000_0000_0000 <= a * n <= 0x8000_0000_0000_0000_0000_0000,
{
    assert(-0x8000_0000_0000_0000_0000_0000 <= a * n <= 0x8000_0000_0000_0000_0000_0000)
        by (nonlinear_arith)
        requires
            -0x8000_0000 <= a <= 0x7fff_ffff,
            0 <= n <= 0xffff_ffff_ffff_ffff,
    ;
}

/// Scorer and gap costs of an alignment.
#[derive(Debug, Clone, Copy, PartialEq, Eq, Structural)]
pub struct ScoringConfig {
    pub scorer: SubstitutionScorer,
    pub gap_open: i32,
    pub gap_extend: i32,
}

impl Default for ScoringConfig {
    /// Match 3, mismatch -1, linear gap cost -2.
    fn default() -> (r: Self)
        ensures
            r == (ScoringConfig {
                scorer: SubstitutionScorer::Simple { match_score: 3i32, mismatch_score: -1i32 },
                gap_open: -2i32,
                gap_extend: -2i32,
            }),
    {
        ScoringConfig {
            scorer: SubstitutionScorer::Simple { match_score: 3, mismatch_score: -1 },
            gap_open: -2,
            gap_extend: -2,
        }
    }
}

impl ScoringConfig {
    /// Whether opening and extending a gap cost differently.
    pub open spec fn spec_is_affine(self) -> bool {
        self.gap_open != self.gap_extend
    }

    /// Cost of a gap run of `len` positions.
    pub open spec fn spec_gap_penalty(self, len: int) -> int {
        if len == 0 {
            0
        } else if self.spec_is_affine() {
            clamp_i32(self.gap_open + clamp_i32(self.gap_extend * (len - 1)))
        } else {
            clamp_i32(self.gap_open * len)
        }
    }

    /// Match/mismatch scoring with the given gap costs.
    pub fn linear(match_score: i32, mismatch_score: i32, gap_open: i32, gap_extend: i32) -> (r:
        Self)
        ensures
            r == (ScoringConfig {
                scorer: SubstitutionScorer::Simple { match_score, mismatch_score },
                gap_open,
                gap_extend,
            }),
    {
        ScoringConfig {
            scorer: SubstitutionScorer::Simple { match_score, mismatch_score },
            gap_open,
            gap_extend,
        }
    }

    /// Built-in matrix scoring with the given gap costs.
    pub fn with_matrix(matrix: BuiltinMatrix, gap_open: i32, gap_extend: i32) -> (r: Self)
        ensures
            r == (ScoringConfig { scorer: SubstitutionScorer::Matrix(matrix), gap_open, gap_extend }),
    {
        ScoringConfig { scorer: SubstitutionScorer::Matrix(matrix), gap_open, gap_extend }
    }

    pub fn is_affine(&self) -> (r: bool)
        ensures
            r == self.spec_is_affine(),
    {
        self.gap_open != self.gap_extend
    }

    pub fn substitution_score(&self, a: u8, b: u8) -> (r: Result<i32, AlignmentError>)
        ensures
            self.scorer.accepts(a) && self.scorer.accepts(b) ==> r == Ok::<i32, AlignmentError>(
                self.scorer.spec_score(a, b),
            ),
            !self.scorer.accepts(a) ==> r == Err::<i32, AlignmentError>(
                AlignmentError::InvalidCharacter(a),
            ),
            self.scorer.accepts(a) && !self.scorer.accepts(b) ==> r == Err::<i32, AlignmentError>(
                AlignmentError::InvalidCharacter(b),
            ),
    {
        self.scorer.score(a, b)
    }

    /// Cost of a gap run of `length` positions, clamped to the range of `i32`.
    pub fn gap_penalty(&self, length: usize) -> (r: i32)
        ensures
            r == self.spec_gap_penalty(length as int),
    {
        if length == 0 {
            0
        } else if self.is_affine() {
            proof {
                lemma_i128_product(self.gap_extend, (length - 1) as usize);
            }
            let ext: i128 = self.gap_extend as i128 * (length - 1) as i128;
            let ext32: i32 = if ext < i32::MIN as i128 {
                i32::MIN
            } else if ext > i32::MAX as i128 {
                i32::MAX
            } else {
                ext as i32
            };
            saturating_add(self.gap_open, ext32)
        } else {
            proof {
                lemma_i128_product(self.gap_open, length);
            }
            let total: i128 = self.gap_open as i128 * length as i128;
            if total < i32::MIN as i128 {
                i32::MIN
            } else if total > i32::MAX as i128 {
                i32::MAX
            } else {
                total as i32
            }
        }
    }

    /// Fails when the gap costs are affine, which the engine does not support.
    pub fn ensure_linear(&self) -> (r: Result<(), AlignmentError>)
        ensures
            !self.spec_is_affine() ==> r is Ok,
            self.spec_is_affine() ==> exists|s: String|
                s@ == affine_gap_message(self.gap_open, self.gap_extend) && r == Err::<
                    (),
                    AlignmentError,
                >(AlignmentError::Other(s)),
    {
        if self.is_affine() {
            Err(AlignmentError::Other(affine_message(self.gap_open, self.gap_extend)))
        } else {
            Ok(())
        }
    }
}

} // verus!
