//! Data of the built-in substitution matrices.

use vstd::prelude::*;

verus! {

/// Residues of BLOSUM62, in the order of the rows and columns of its table.
/// (A R N D C Q E G H I L K M F P S T W Y V B Z X *)
pub const BLOSUM62_ALPHABET: [u8; 24] = [65, 82, 78, 68, 67, 81, 69, 71, 72, 73, 76, 75, 77, 70, 80, 83, 84, 87, 89, 86, 66, 90, 88, 42];

/// Scores of BLOSUM62, row-major: the pair of residues `a`, `b` at `a * 24 + b`.
pub const BLOSUM62_SCORES: [i32; 576] = [
    4, -1, -2, -2, 0, -1, -1, 0, -2, -1, -1, -1, -1, -2, -1, 1, 0, -3, -2, 0, -2, -1, 0, -4,
    -1, 5, 0, -2, -3, 1, 0, -2, 0, -3, -2, 2, -1, -3, -2, -1, -1, -3, -2, -3, -1, 0, -1, -4,
    -2, 0, 6, 1, -3, 0, 0, 0, 1, -3, -3, 0, -2, -3, -2, 1, 0, -4, -2, -3, 3, 0, -1, -4,
    -2, -2, 1, 6, -3, 0, 2, -1, -1, -3, -4, -1, -3, -3, -1, 0, -1, -4, -3, -3, 4, 1, -1, -4,
    0, -3, -3, -3, 9, -3, -4, -3, -3, -1, -1, -3, -1, -2, -3, -1, -1, -2, -2, -1, -3, -3, -2, -4,
    -1, 1, 0, 0, -3, 5, 2, -2, 0, -3, -2, 1, 0, -3, -1, 0, -1, -2, -1, -2, 0, 3, -1, -4,
    -1, 0, 0, 2, -4, 2, 5, -2, 0, -3, -3, 1, -2, -3, -1, 0, -1, -3, -2, -2, 1, 4, -1, -4,
    0, -2, 0, -1, -3, -2, -2, 6, -2, -4, -4, -2, -3, -3, -2, 0, -2, -2, -3, -3, -1, -2, -1, -4,
    -2, 0, 1, -1, -3, 0, 0, -2, 8, -3, -3, -1, -2, -1, -2, -1, -2, -2, 2, -3, 0, 0, -1, -4,
    -1, -3, -3, -3, -1, -3, -3, -4, -3, 4, 2, -3, 1, 0, -3, -2, -1, -3, -1, 3, -3, -3, -1, -4,
    -1, -2, -3, -4, -1, -2, -3, -4, -3, 2, 4, -2, 2, 0, -3, -2, -1, -2, -1, 1, -4, -3, -1, -4,
    -1, 2, 0, -1, -3, 1, 1, -2, -1, -3, -2, 5, -1, -3, -1, 0, -1, -3, -2, -2, 0, 1, -1, -4,
    -1, -1, -2, -3, -1, 0, -2, -3, -2, 1, 2, -1, 5, 0, -2, -1, -1, -1, -1, 1, -3, -1, -1, -4,
    -2, -3, -3, -3, -2, -3, -3, -3, -1, 0, 0, -3, 0, 6, -4, -2, -2, 1, 3, -1, -3, -3, -1, -4,
    -1, -2, -2, -1, -3, -1, -1, -2, -2, -3, -3, -1, -2, -4, 7, -1, -1, -4, -3, -2, -2, -1, -2, -4,
    1, -1, 1, 0, -1, 0, 0, 0, -1, -2, -2, 0, -1, -2, -1, 4, 1, -3, -2, -2, 0, 0, 0, -4,
    0, -1, 0, -1, -1, -1, -1, -2, -2, -1, -1, -1, -1, -2, -1, 1, 5, -2, -2, 0, -1, -1, 0, -4,
    -3, -3, -4, -4, -2, -2, -3, -2, -2, -3, -2, -3, -1, 1, -4, -3, -2, 11, 2, -3, -4, -3, -2, -4,
    -2, -2, -2, -3, -2, -1, -2, -3, 2, -1, -1, -2, -1, 3, -3, -2, -2, 2, 7, -1, -3, -2, -1, -4,
    0, -3, -3, -3, -1, -2, -2, -3, -3, 3, 1, -2, 1, -1, -2, -2, 0, -3, -1, 4, -3, -2, -1, -4,
    -2, -1, 3, 4, -3, 0, 1, -1, 0, -3, -4, 0, -3, -3, -2, 0, -1, -4, -3, -3, 4, 1, -1, -4,
    -1, 0, 0, 1, -3, 3, 4, -2, 0, -3, -3, 1, -1, -3, -1, 0, -1, -3, -2, -2, 1, 4, -1, -4,
    0, -1, -1, -1, -2, -1, -1, -1, -1, -1, -1, -1, -1, -1, -2, 0, 0, -2, -1, -1, -1, -1, -1, -4,
    -4, -4, -4, -4, -4, -4, -4, -4, -4, -4, -4, -4, -4, -4, -4, -4, -4, -4, -4, -4, -4, -4, -4, 1,
];

/// Residues of PAM250, in the order of the rows and columns of its table.
/// (A R N D C Q E G H I L K M F P S T W Y V B Z X *)
pub const PAM250_ALPHABET: [u8; 24] = [65, 82, 78, 68, 67, 81, 69, 71, 72, 73, 76, 75, 77, 70, 80, 83, 84, 87, 89, 86, 66, 90, 88, 42];

/// Scores of PAM250, row-major: the pair of residues `a`, `b` at `a * 24 + b`.
pub const PAM250_SCORES: [i32; 576] = [
    2, -2, 0, 0, -2, 0, 0, 1, -1, -1, -2, -1, -1, -3, 1, 1, 1, -6, -3, 0, 0, 0, 0, -8,
    -2, 6, 0, -1, -4, 1, -1, -3, 2, -2, -3, 3, 0, -4, 0, 0, -1, 2, -4, -2, -1, 0, -1, -8,
    0, 0, 2, 2, -4, 1, 1, 0, 2, -2, -3, 1, -2, -3, 0, 1, 0, -4, -2, -2, 2, 1, 0, -8,
    0, -1, 2, 4, -5, 2, 3, 1, 1, -2, -4, 0, -3, -6, -1, 0, 0, -7, -4, -2, 3, 3, -1, -8,
    -2, -4, -4, -5, 12, -5, -5, -3, -3, -2, -6, -5, -5, -4, -3, 0, -2, -8, 0, -2, -4, -5, -3, -8,
    0, 1, 1, 2, -5, 4, 2, -1, 3, -2, -2, 1, -1, -5, 0, -1, -1, -5, -4, -2, 1, 3, -1, -8,
    0, -1, 1, 3, -5, 2, 4, 0, 1, -2, -3, 0, -2, -5, -1, 0, 0, -7, -4, -2, 3, 3, -1, -8,
    1, -3, 0, 1, -3, -1, 0, 5, -2, -3, -4, -2, -3, -5, 0, 1, 0, -7, -5, -1, 0, 0, -1, -8,
    -1, 2, 2, 1, -3, 3, 1, -2, 6, -2, -2, 0, -2, -2, 0, -1, -1, -3, 0, -2, 1, 2, -1, -8,
    -1, -2, -2, -2, -2, -2, -2, -3, -2, 5, 2, -2, 2, 1, -2, -1, 0, -5, -1, 4, -2, -2, -1, -8,
    -2, -3, -3, -4, -6, -2, -3, -4, -2, 2, 6, -3, 4, 2, -3, -3, -2, -2, -1, 2, -3, -3, -1, -8,
    -1, 3, 1, 0, -5, 1, 0, -2, 0, -2, -3, 5, 0, -5, -1, 0, 0, -3, -4, -2, 1, 0, -1, -8,
    -1, 0, -2, -3, -5, -1, -2, -3, -2, 2, 4, 0, 6, 0, -2, -2, -1, -4, -2, 2, -2, -2, -1, -8,
    -3, -4, -3, -6, -4, -5, -5, -5, -2, 1, 2, -5, 0, 9, -5, -3, -3, 0, 7, -1, -4, -5, -2, -8,
    1, 0, 0, -1, -3, 0, -1, 0, 0, -2, -3, -1, -2, -5, 6, 1, 0, -6, -5, -1, -1, 0, -1, -8,
    1, 0, 1, 0, 0, -1, 0, 1, -1, -1, -3, 0, -2, -3, 1, 2, 1, -2, -3, -1, 0, 0, 0, -8,
    1, -1, 0, 0, -2, -1, 0, 0, -1, 0, -2, 0, -1, -3, 0, 1, 3, -5, -3, 0, 0, -1, 0, -8,
    -6, 2, -4, -7, -8, -5, -7, -7, -3, -5, -2, -3, -4, 0, -6, -2, -5, 17, 0, -6, -5, -6, -4, -8,
    -3, -4, -2, -4, 0, -4, -4, -5, 0, -1, -1, -4, -2, 7, -5, -3, -3, 0, 10, -2, -3, -4, -2, -8,
    0, -2, -2, -2, -2, -2, -2, -1, -2, 4, 2, -2, 2, -1, -1, -1, 0, -6, -2, 4, -2, -2, -1, -8,
    0, -1, 2, 3, -4, 1, 3, 0, 1, -2, -3, 1, -2, -4, -1, 0, 0, -5, -3, -2, 3, 2, -1, -8,
    0, 0, 1, 3, -5, 3, 3, 0, 2, -2, -3, 0, -2, -5, 0, 0, -1, -6, -4, -2, 2, 3, -1, -8,
    0, -1, 0, -1, -3, -1, -1, -1, -1, -1, -1, -1, -1, -2, -1, 0, 0, -4, -2, -1, -1, -1, -1, -8,
    -8, -8, -8, -8, -8, -8, -8, -8, -8, -8, -8, -8, -8, -8, -8, -8, -8, -8, -8, -8, -8, -8, -8, 1,
];

/// Residues of EDNAFULL, in the order of the rows and columns of its table.
/// (A T G C S W R Y K M B V H D N)
pub const EDNAFULL_ALPHABET: [u8; 15] = [65, 84, 71, 67, 83, 87, 82, 89, 75, 77, 66, 86, 72, 68, 78];

/// Scores of EDNAFULL, row-major: the pair of residues `a`, `b` at `a * 15 + b`.
pub const EDNAFULL_SCORES: [i32; 225] = [
    5, -4, -4, -4, -4, 1, 1, -4, -4, 1, -4, -1, -1, -1, -2,
    -4, 5, -4, -4, -4, 1, -4, 1, 1, -4, -1, -4, -1, -1, -2,
    -4, -4, 5, -4, 1, -4, 1, -4, 1, -4, -1, -1, -4, -1, -2,
    -4, -4, -4, 5, 1, -4, -4, 1, -4, 1, -1, -1, -1, -4, -2,
    -4, -4, 1, 1, -1, -4, -2, -2, -2, -2, -1, -1, -3, -3, -1,
    1, 1, -4, -4, -4, -1, -2, -2, -2, -2, -3, -3, -1, -1, -1,
    1, -4, 1, -4, -2, -2, -1, -4, -2, -2, -3, -1, -3, -1, -1,
    -4, 1, -4, 1, -2, -2, -4, -1, -2, -2, -1, -3, -1, -3, -1,
    -4, 1, 1, -4, -2, -2, -2, -2, -1, -4, -1, -3, -3, -1, -1,
    1, -4, -4, 1, -2, -2, -2, -2, -4, -1, -3, -1, -1, -3, -1,
    -4, -1, -1, -1, -1, -3, -3, -1, -1, -3, -1, -2, -2, -2, -1,
    -1, -4, -1, -1, -1, -3, -1, -3, -3, -1, -2, -1, -2, -2, -1,
    -1, -1, -4, -1, -3, -1, -3, -1, -3, -1, -2, -2, -1, -2, -1,
    -1, -1, -1, -4, -3, -1, -1, -3, -1, -3, -2, -2, -2, -1, -1,
    -2, -2, -2, -2, -1, -1, -1, -1, -1, -1, -1, -1, -1, -1, -1,
];

/// Names of the built-in matrices, as ASCII bytes.
pub const BLOSUM62_NAME: [u8; 8] = [66, 76, 79, 83, 85, 77, 54, 50];

pub const PAM250_NAME: [u8; 6] = [80, 65, 77, 50, 53, 48];

pub const EDNAFULL_NAME: [u8; 8] = [69, 68, 78, 65, 70, 85, 76, 76];

/// Residues of BLOSUM62, upper case, in table order.
pub open spec fn blosum62_alphabet() -> Seq<u8> {
    BLOSUM62_ALPHABET@
}

/// Scores of BLOSUM62, row-major.
pub open spec fn blosum62_scores() -> Seq<i32> {
    BLOSUM62_SCORES@
}

/// Name of BLOSUM62, as ASCII bytes.
pub open spec fn blosum62_name() -> Seq<u8> {
    BLOSUM62_NAME@
}

pub fn blosum62_alphabet_table() -> (r: &'static [u8])
    ensures
        r@ == blosum62_alphabet(),
        r@.len() == 24,
{
    BLOSUM62_ALPHABET.as_slice()
}

pub fn blosum62_score_table() -> (r: &'static [i32])
    ensures
        r@ == blosum62_scores(),
        r@.len() == 576,
{
    BLOSUM62_SCORES.as_slice()
}

pub fn blosum62_name_bytes() -> (r: &'static [u8])
    ensures
        r@ == blosum62_name(),
        r@.len() == 8,
{
    BLOSUM62_NAME.as_slice()
}

/// Residues of PAM250, upper case, in table order.
pub open spec fn pam250_alphabet() -> Seq<u8> {
    PAM250_ALPHABET@
}

/// Scores of PAM250, row-major.
pub open spec fn pam250_scores() -> Seq<i32> {
    PAM250_SCORES@
}

/// Name of PAM250, as ASCII bytes.
pub open spec fn pam250_name() -> Seq<u8> {
    PAM250_NAME@
}

pub fn pam250_alphabet_table() -> (r: &'static [u8])
    ensures
        r@ == pam250_alphabet(),
        r@.len() == 24,
{
    PAM250_ALPHABET.as_slice()
}

pub fn pam250_score_table() -> (r: &'static [i32])
    ensures
        r@ == pam250_scores(),
        r@.len() == 576,
{
    PAM250_SCORES.as_slice()
}

pub fn pam250_name_bytes() -> (r: &'static [u8])
    ensures
        r@ == pam250_name(),
        r@.len() == 6,
{
    PAM250_NAME.as_slice()
}

/// Residues of EDNAFULL, upper case, in table order.
pub open spec fn ednafull_alphabet() -> Seq<u8> {
    EDNAFULL_ALPHABET@
}

/// Scores of EDNAFULL, row-major.
pub open spec fn ednafull_scores() -> Seq<i32> {
    EDNAFULL_SCORES@
}

/// Name of EDNAFULL, as ASCII bytes.
pub open spec fn ednafull_name() -> Seq<u8> {
    EDNAFULL_NAME@
}

pub fn ednafull_alphabet_table() -> (r: &'static [u8])
    ensures
        r@ == ednafull_alphabet(),
        r@.len() == 15,
{
    EDNAFULL_ALPHABET.as_slice()
}

pub fn ednafull_score_table() -> (r: &'static [i32])
    ensures
        r@ == ednafull_scores(),
        r@.len() == 225,
{
    EDNAFULL_SCORES.as_slice()
}

pub fn ednafull_name_bytes() -> (r: &'static [u8])
    ensures
        r@ == ednafull_name(),
        r@.len() == 8,
{
    EDNAFULL_NAME.as_slice()
}

/// Sizes of the tables: each is square over its alphabet.
pub proof fn lemma_table_sizes()
    ensures
        blosum62_alphabet().len() == 24,
        blosum62_scores().len() == 576,
        pam250_alphabet().len() == 24,
        pam250_scores().len() == 576,
        ednafull_alphabet().len() == 15,
        ednafull_scores().len() == 225,
{
}

} // verus!
