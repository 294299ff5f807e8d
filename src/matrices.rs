//! Built-in substitution matrices and residue lookup.

use vstd::prelude::*;

use crate::scoring::{upper, to_upper, AlignmentError};
use vstd::string::StringSliceAdditionalSpecFns;

use crate::tables::{
    blosum62_alphabet, blosum62_scores, blosum62_name, blosum62_alphabet_table, blosum62_score_table, blosum62_name_bytes, pam250_alphabet, pam250_scores, pam250_name, pam250_alphabet_table, pam250_score_table, pam250_name_bytes, ednafull_alphabet, ednafull_scores, ednafull_name, ednafull_alphabet_table, ednafull_score_table, ednafull_name_bytes, lemma_table_sizes,
};

verus! {

/// Whether `k` is the first position of `alphabet` that holds `u`.
pub open spec fn is_first_at(alphabet: Seq<u8>, u: u8, k: int) -> bool {
    0 <= k < alphabet.len() && alphabet[k] == u && forall|j: int|
        0 <= j < k ==> #[trigger] alphabet[j] != u
}

/// Position of residue `c` in `alphabet`, ASCII case ignored.
pub open spec fn residue_index(alphabet: Seq<u8>, c: u8) -> Option<int> {
    if exists|k: int| is_first_at(alphabet, upper(c), k) {
        Some(choose|k: int| is_first_at(alphabet, upper(c), k))
    } else {
        None
    }
}

/// The first position of `alphabet` that holds `c`'s upper case is its index.
pub proof fn lemma_residue_index(alphabet: Seq<u8>, c: u8, k: int)
    requires
        is_first_at(alphabet, upper(c), k),
    ensures
        residue_index(alphabet, c) == Some(k),
{
    let w = choose|w: int| is_first_at(alphabet, upper(c), w);
    assert(w == k) by {
        if w < k {
            assert(alphabet[w] != upper(c));
        } else if w > k {
            assert(alphabet[k] != upper(c));
        }
    }
}

/// Whether `given` spells `name` with ASCII case ignored.
pub open spec fn names_match(given: Seq<u8>, name: Seq<u8>) -> bool {
    given.len() == name.len() && forall|k: int| 0 <= k < name.len() ==> upper(#[trigger] given[k]) == name[k]
}

/// The built-in matrix that `given` names, if any.
pub open spec fn builtin_named(given: Seq<u8>) -> Option<BuiltinMatrix> {
    if names_match(given, blosum62_name()) {
        Some(BuiltinMatrix::Blosum62)
    } else if names_match(given, pam250_name()) {
        Some(BuiltinMatrix::Pam250)
    } else if names_match(given, ednafull_name()) {
        Some(BuiltinMatrix::Ednafull)
    } else {
        None
    }
}

fn bytes_match(given: &[u8], name: &[u8]) -> (r: bool)
    ensures
        r == names_match(given@, name@),
{
    if given.len() != name.len() {
        return false;
    }
    let mut k: usize = 0;
    while k < name.len()
        invariant
            k <= name@.len(),
            given@.len() == name@.len(),
            forall|j: int| 0 <= j < k ==> upper(#[trigger] given@[j]) == name@[j],
        decreases name@.len() - k,
    {
        if to_upper(given[k]) != name[k] {
            return false;
        }
        k += 1;
    }
    true
}

/// A substitution matrix that the library holds.
#[derive(Debug, Clone, Copy, PartialEq, Eq, Structural)]
pub enum BuiltinMatrix {
    Blosum62,
    Pam250,
    Ednafull,
}

impl BuiltinMatrix {
    /// The residues of the matrix, upper case, in table order.
    pub open spec fn spec_alphabet(self) -> Seq<u8> {
        match self {
            BuiltinMatrix::Blosum62 => blosum62_alphabet(),
            BuiltinMatrix::Pam250 => pam250_alphabet(),
            BuiltinMatrix::Ednafull => ednafull_alphabet(),
        }
    }

    /// The score table, row-major.
    pub open spec fn spec_scores(self) -> Seq<i32> {
        match self {
            BuiltinMatrix::Blosum62 => blosum62_scores(),
            BuiltinMatrix::Pam250 => pam250_scores(),
            BuiltinMatrix::Ednafull => ednafull_scores(),
        }
    }

    /// The name of the matrix, as ASCII bytes.
    pub open spec fn spec_name(self) -> Seq<u8> {
        match self {
            BuiltinMatrix::Blosum62 => blosum62_name(),
            BuiltinMatrix::Pam250 => pam250_name(),
            BuiltinMatrix::Ednafull => ednafull_name(),
        }
    }

    /// Position of residue `c` in the alphabet, ASCII case ignored.
    pub open spec fn spec_index(self, c: u8) -> Option<int> {
        residue_index(self.spec_alphabet(), c)
    }

    /// Score of the pair `a`, `b` (meaningful when both are in the alphabet).
    pub open spec fn spec_pair_score(self, a: u8, b: u8) -> i32 {
        match (self.spec_index(a), self.spec_index(b)) {
            (Some(i), Some(j)) => self.spec_scores()[i * self.spec_alphabet().len() + j],
            _ => 0,
        }
    }

    /// The table is square over the alphabet.
    pub proof fn lemma_square(self)
        ensures
            self.spec_scores().len() == self.spec_alphabet().len() * self.spec_alphabet().len(),
            self.spec_alphabet().len() <= 24,
    {
        lemma_table_sizes();
        let n = self.spec_alphabet().len();
        assert(n == 24 || n == 15);
        assert(n * n == 576 || n * n == 225) by (nonlinear_arith)
            requires
                n == 24 || n == 15,
        ;
    }

    /// Looks a matrix up by name, ASCII case ignored.
    pub fn from_str(s: &str) -> (r: Option<Self>)
        ensures
            r == builtin_named(s.spec_bytes()),
    {
        let given = s.as_bytes();
        if bytes_match(given, blosum62_name_bytes()) {
            Some(BuiltinMatrix::Blosum62)
        } else if bytes_match(given, pam250_name_bytes()) {
            Some(BuiltinMatrix::Pam250)
        } else if bytes_match(given, ednafull_name_bytes()) {
            Some(BuiltinMatrix::Ednafull)
        } else {
            None
        }
    }

    /// The name of the matrix.
    pub fn name_bytes(&self) -> (r: &'static [u8])
        ensures
            r@ == self.spec_name(),
    {
        match self {
            BuiltinMatrix::Blosum62 => blosum62_name_bytes(),
            BuiltinMatrix::Pam250 => pam250_name_bytes(),
            BuiltinMatrix::Ednafull => ednafull_name_bytes(),
        }
    }

    /// The name of the matrix, as text.
    pub fn name(&self) -> (r: String)
        ensures
            r@ == chars_of(self.spec_name()),
    {
        text_of(self.name_bytes())
    }

    /// Number of residues in the alphabet.
    pub fn score_dimension(&self) -> (r: usize)
        ensures
            r == self.spec_alphabet().len(),
    {
        self.alphabet().len()
    }

    /// The score table, row-major.
    pub fn scores(&self) -> (r: &'static [i32])
        ensures
            r@ == self.spec_scores(),
    {
        match self {
            BuiltinMatrix::Blosum62 => blosum62_score_table(),
            BuiltinMatrix::Pam250 => pam250_score_table(),
            BuiltinMatrix::Ednafull => ednafull_score_table(),
        }
    }

    /// The residues of the matrix, upper case, in table order.
    pub fn alphabet(&self) -> (r: &'static [u8])
        ensures
            r@ == self.spec_alphabet(),
    {
        match self {
            BuiltinMatrix::Blosum62 => blosum62_alphabet_table(),
            BuiltinMatrix::Pam250 => pam250_alphabet_table(),
            BuiltinMatrix::Ednafull => ednafull_alphabet_table(),
        }
    }

    /// Position of residue `c` in the alphabet, ASCII case ignored.
    pub fn index_of(&self, c: u8) -> (r: Option<usize>)
        ensures
            r matches Some(k) ==> self.spec_index(c) == Some(k as int),
            r is None ==> self.spec_index(c) is None,
    {
        let alphabet = self.alphabet();
        let u = to_upper(c);
        let mut k: usize = 0;
        while k < alphabet.len()
            invariant
                k <= alphabet@.len(),
                alphabet@ == self.spec_alphabet(),
                u == upper(c),
                forall|j: int| 0 <= j < k ==> #[trigger] alphabet@[j] != u,
            decreases alphabet@.len() - k,
        {
            if alphabet[k] == u {
                proof {
                    lemma_residue_index(alphabet@, c, k as int);
                }
                return Some(k);
            }
            k += 1;
        }
        None
    }

    /// Returns the score for aligning residue `a` with residue `b`.
    pub fn score(&self, a: u8, b: u8) -> (r: Result<i32, AlignmentError>)
        ensures
            self.spec_index(a) is Some && self.spec_index(b) is Some ==> r == Ok::<
                i32,
                AlignmentError,
            >(self.spec_pair_score(a, b)),
            self.spec_index(a) is None ==> r == Err::<i32, AlignmentError>(
                AlignmentError::InvalidCharacter(a),
            ),
            self.spec_index(a) is Some && self.spec_index(b) is None ==> r == Err::<
                i32,
                AlignmentError,
            >(AlignmentError::InvalidCharacter(b)),
    {
        let i = match self.index_of(a) {
            Some(i) => i,
            None => return Err(AlignmentError::InvalidCharacter(a)),
        };
        let j = match self.index_of(b) {
            Some(j) => j,
            None => return Err(AlignmentError::InvalidCharacter(b)),
        };
        let n = self.score_dimension();
        proof {
            self.lemma_square();
            assert(i * n + j < n * n && n * n <= 576) by (nonlinear_arith)
                requires
                    i < n,
                    j < n,
                    n <= 24,
            ;
        }
        Ok(self.scores()[i * n + j])
    }

    /// Every built-in matrix, in a fixed order.
    pub fn all() -> (r: Vec<BuiltinMatrix>)
        ensures
            r@ == seq![BuiltinMatrix::Blosum62, BuiltinMatrix::Pam250, BuiltinMatrix::Ednafull],
    {
        vec![BuiltinMatrix::Blosum62, BuiltinMatrix::Pam250, BuiltinMatrix::Ednafull]
    }
}

/// A built-in matrix as plain data: name, alphabet and row-major scores.
#[derive(Debug, Clone)]
pub struct MatrixData {
    pub name: String,
    pub alphabet: Vec<u8>,
    pub scores: Vec<i32>,
}

fn copy_bytes(s: &[u8]) -> (r: Vec<u8>)
    ensures
        r@ == s@,
{
    let mut r: Vec<u8> = Vec::new();
    let mut k: usize = 0;
    while k < s.len()
        invariant
            k <= s@.len(),
            r@ == s@.subrange(0, k as int),
        decreases s@.len() - k,
    {
        r.push(s[k]);
        k += 1;
        assert(r@ =~= s@.subrange(0, k as int));
    }
    assert(r@ =~= s@);
    r
}

fn copy_scores(s: &[i32]) -> (r: Vec<i32>)
    ensures
        r@ == s@,
{
    let mut r: Vec<i32> = Vec::new();
    let mut k: usize = 0;
    while k < s.len()
        invariant
            k <= s@.len(),
            r@ == s@.subrange(0, k as int),
        decreases s@.len() - k,
    {
        r.push(s[k]);
        k += 1;
        assert(r@ =~= s@.subrange(0, k as int));
    }
    assert(r@ =~= s@);
    r
}

/// The characters of a byte string, one per byte.
pub open spec fn chars_of(b: Seq<u8>) -> Seq<char> {
    b.map_values(|x: u8| x as char)
}

/// Relies on `String::push`: appends one character.
#[verifier::external_body]
pub(crate) fn push_char(s: &mut String, c: char)
    ensures
        final(s)@ == old(s)@.push(c),
{
    s.push(c)
}

/// The text whose characters are the given bytes, one each.
pub fn text_of(b: &[u8]) -> (r: String)
    ensures
        r@ == chars_of(b@),
{
    let mut r = String::new();
    let mut k: usize = 0;
    while k < b.len()
        invariant
            k <= b@.len(),
            r@ == chars_of(b@.subrange(0, k as int)),
        decreases b@.len() - k,
    {
        push_char(&mut r, b[k] as char);
        k += 1;
        assert(chars_of(b@.subrange(0, k as int)) =~= chars_of(b@.subrange(0, k - 1)).push(
            b@[k - 1] as char,
        ));
    }
    assert(b@.subrange(0, b@.len() as int) =~= b@);
    r
}

impl MatrixData {
    /// The data of a built-in matrix.
    pub fn from_builtin(matrix: BuiltinMatrix) -> (r: Self)
        ensures
            r.name@ == chars_of(matrix.spec_name()),
            r.alphabet@ == matrix.spec_alphabet(),
            r.scores@ == matrix.spec_scores(),
    {
        MatrixData {
            name: text_of(matrix.name_bytes()),
            alphabet: copy_bytes(matrix.alphabet()),
            scores: copy_scores(matrix.scores()),
        }
    }
}

/// The data of the built-in matrix that `name` names, ASCII case ignored.
pub fn matrix_data_by_name(name: &str) -> (r: Option<MatrixData>)
    ensures
        r is Some <==> builtin_named(name.spec_bytes()) is Some,
        r matches Some(d) ==> ({
            let bm = builtin_named(name.spec_bytes())->Some_0;
            &&& d.name@ == chars_of(bm.spec_name())
            &&& d.alphabet@ == bm.spec_alphabet()
            &&& d.scores@ == bm.spec_scores()
        }),
{
    match BuiltinMatrix::from_str(name) {
        Some(bm) => Some(MatrixData::from_builtin(bm)),
        None => None,
    }
}

} // verus!
