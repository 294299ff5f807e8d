//! The alignment matrix, the fill recurrences and the traceback of every
//! optimal path.

use vstd::prelude::*;

use crate::matrices::{chars_of, push_char};
use crate::scoring::{clamp_i32, saturating_add, AlignmentError, ScoringConfig};

verus! {

/// The gap marker of aligned sequences (`-`).
pub const GAP: u8 = 45;

/// The mask that holds exactly the chosen directions: diagonal 1, up 2, left 4.
pub open spec fn arrow_mask(diagonal: bool, up: bool, left: bool) -> u8 {
    (if diagonal { 1u8 } else { 0u8 }) | (if up { 2u8 } else { 0u8 }) | (if left { 4u8 } else { 0u8 })
}

/// Whether mask `a` holds direction `bit`.
pub open spec fn has_bit(a: u8, bit: u8) -> bool {
    a & bit != 0
}

pub proof fn lemma_arrow_mask(diagonal: bool, up: bool, left: bool)
    ensures
        has_bit(arrow_mask(diagonal, up, left), 1) == diagonal,
        has_bit(arrow_mask(diagonal, up, left), 2) == up,
        has_bit(arrow_mask(diagonal, up, left), 4) == left,
        (arrow_mask(diagonal, up, left) == 0) == (!diagonal && !up && !left),
{
    let a: u8 = if diagonal { 1u8 } else { 0u8 };
    let b: u8 = if up { 2u8 } else { 0u8 };
    let c: u8 = if left { 4u8 } else { 0u8 };
    assert(((a | b | c) & 1 != 0) == (a == 1) && ((a | b | c) & 2 != 0) == (b == 2) && ((a | b
        | c) & 4 != 0) == (c == 4) && ((a | b | c) == 0) == (a == 0 && b == 0 && c == 0))
        by (bit_vector)
        requires
            a == 0 || a == 1,
            b == 0 || b == 2,
            c == 0 || c == 4,
    ;
}

/// Arrow directions stored as a 3-bit mask.
#[derive(Debug, Clone, Copy, PartialEq, Eq, Structural)]
pub struct Arrows(u8);

impl View for Arrows {
    type V = u8;

    closed spec fn view(&self) -> u8 {
        self.0
    }
}

impl Arrows {
    pub const NONE: u8 = 0;

    pub const DIAGONAL: u8 = 1;

    pub const UP: u8 = 2;

    pub const LEFT: u8 = 4;

    pub fn new() -> (r: Self)
        ensures
            r@ == 0,
    {
        Arrows(0)
    }

    pub fn bits(&self) -> (r: u8)
        ensures
            r == self@,
    {
        self.0
    }

    pub fn has_diagonal(&self) -> (r: bool)
        ensures
            r == has_bit(self@, 1),
    {
        (self.0 & 1) != 0
    }

    pub fn has_up(&self) -> (r: bool)
        ensures
            r == has_bit(self@, 2),
    {
        (self.0 & 2) != 0
    }

    pub fn has_left(&self) -> (r: bool)
        ensures
            r == has_bit(self@, 4),
    {
        (self.0 & 4) != 0
    }

    pub fn set_diagonal(&mut self)
        ensures
            final(self)@ == old(self)@ | 1,
    {
        self.0 = self.0 | 1;
    }

    pub fn set_up(&mut self)
        ensures
            final(self)@ == old(self)@ | 2,
    {
        self.0 = self.0 | 2;
    }

    pub fn set_left(&mut self)
        ensures
            final(self)@ == old(self)@ | 4,
    {
        self.0 = self.0 | 4;
    }
}

/// The arrows of the chosen directions.
fn arrows_for(diagonal: bool, up: bool, left: bool) -> (r: Arrows)
    ensures
        r@ == arrow_mask(diagonal, up, left),
{
    let mut a = Arrows::new();
    if diagonal {
        a.set_diagonal();
    }
    if up {
        a.set_up();
    }
    if left {
        a.set_left();
    }
    proof {
        let x: u8 = if diagonal { 1u8 } else { 0u8 };
        let y: u8 = if up { 2u8 } else { 0u8 };
        let z: u8 = if left { 4u8 } else { 0u8 };
        assert((0u8 | x) == x && (x | 0u8) == x && ((x | y) | 0u8) == (x | y)) by (bit_vector);
    }
    a
}

/// A cell of the dynamic programming matrix.
#[derive(Debug, Clone, Copy)]
pub struct Cell {
    pub score: i32,
    pub arrows: Arrows,
}

impl Cell {
    pub fn new(score: i32) -> (r: Self)
        ensures
            r.score == score,
            r.arrows@ == 0,
    {
        Cell { score, arrows: Arrows::new() }
    }

    pub fn with_arrows(score: i32, arrows: Arrows) -> (r: Self)
        ensures
            r.score == score,
            r.arrows == arrows,
    {
        Cell { score, arrows }
    }
}

impl Default for Cell {
    /// An unreached cell: the least score and no arrows.
    fn default() -> (r: Self)
        ensures
            r.score == i32::MIN,
            r.arrows@ == 0,
    {
        Cell { score: i32::MIN, arrows: Arrows::new() }
    }
}

proof fn lemma_index(rows: int, cols: int, i: int, j: int)
    requires
        0 <= i < rows,
        0 <= j < cols,
    ensures
        0 <= i * cols + j < rows * cols,
{
    assert(0 <= i * cols + j < rows * cols) by (nonlinear_arith)
        requires
            0 <= i < rows,
            0 <= j < cols,
    ;
}

proof fn lemma_index_distinct(cols: int, i: int, j: int, r: int, c: int)
    requires
        0 <= i,
        0 <= r,
        0 <= j < cols,
        0 <= c < cols,
        i != r || j != c,
    ensures
        i * cols + j != r * cols + c,
{
    if i == r {
    } else if i < r {
        assert(i * cols + j < r * cols + c) by (nonlinear_arith)
            requires
                i < r,
                0 <= j < cols,
                0 <= c,
        ;
    } else {
        assert(r * cols + c < i * cols + j) by (nonlinear_arith)
            requires
                r < i,
                0 <= c < cols,
                0 <= j,
        ;
    }
}

/// The dynamic programming matrix: `rows` × `cols` cells, row-major.
#[derive(Debug, Clone)]
pub struct DPMatrix {
    pub rows: usize,
    pub cols: usize,
    pub cells: Vec<Cell>,
}

impl DPMatrix {
    /// One cell per row and column.
    pub open spec fn wf(self) -> bool {
        self.cells@.len() == self.rows * self.cols
    }

    /// The cell at row `i`, column `j`.
    pub open spec fn spec_cell(self, i: int, j: int) -> Cell {
        self.cells@[i * self.cols + j]
    }

    /// A matrix of unreached cells.
    pub fn new(rows: usize, cols: usize) -> (r: Self)
        requires
            rows * cols <= usize::MAX,
        ensures
            r.wf(),
            r.rows == rows,
            r.cols == cols,
            forall|i: int, j: int|
                0 <= i < rows && 0 <= j < cols ==> (#[trigger] r.spec_cell(i, j)).score == i32::MIN
                    && r.spec_cell(i, j).arrows@ == 0,
    {
        let total: usize = rows * cols;
        let mut cells: Vec<Cell> = Vec::new();
        let mut k: usize = 0;
        while k < total
            invariant
                k <= total,
                total == rows * cols,
                cells@.len() == k,
                forall|x: int| 0 <= x < k ==> (#[trigger] cells@[x]).score == i32::MIN
                    && cells@[x].arrows@ == 0,
            decreases total - k,
        {
            cells.push(Cell::default());
            k += 1;
        }
        let r = DPMatrix { rows, cols, cells };
        assert forall|i: int, j: int| 0 <= i < rows && 0 <= j < cols implies (
        #[trigger] r.spec_cell(i, j)).score == i32::MIN && r.spec_cell(i, j).arrows@ == 0 by {
            lemma_index(rows as int, cols as int, i, j);
        }
        r
    }

    #[inline]
    pub fn get(&self, i: usize, j: usize) -> (r: &Cell)
        requires
            self.wf(),
            i < self.rows,
            j < self.cols,
        ensures
            *r == self.spec_cell(i as int, j as int),
    {
        let total = self.cells.len();
        proof {
            lemma_index(self.rows as int, self.cols as int, i as int, j as int);
        }
        &self.cells[i * self.cols + j]
    }

    #[inline]
    pub fn set(&mut self, i: usize, j: usize, cell: Cell)
        requires
            old(self).wf(),
            i < old(self).rows,
            j < old(self).cols,
        ensures
            final(self).wf(),
            final(self).rows == old(self).rows,
            final(self).cols == old(self).cols,
            final(self).spec_cell(i as int, j as int) == cell,
            forall|r: int, c: int|
                0 <= r < old(self).rows && 0 <= c < old(self).cols && (r != i || c != j)
                    ==> #[trigger] final(self).spec_cell(r, c) == old(self).spec_cell(r, c),
    {
        let total = self.cells.len();
        proof {
            lemma_index(self.rows as int, self.cols as int, i as int, j as int);
        }
        let k = i * self.cols + j;
        self.cells.set(k, cell);
        proof {
            assert forall|r: int, c: int|
                0 <= r < old(self).rows && 0 <= c < old(self).cols && (r != i || c != j)
                    implies #[trigger] self.spec_cell(r, c) == old(self).spec_cell(r, c) by {
                lemma_index_distinct(self.cols as int, i as int, j as int, r, c);
                lemma_index(self.rows as int, self.cols as int, r, c);
            }
        }
    }
}

/// A step in the traceback path.
#[derive(Debug, Clone, Copy, PartialEq, Eq, Structural)]
pub struct TracebackStep {
    pub i: usize,
    pub j: usize,
}

impl TracebackStep {
    pub fn new(i: usize, j: usize) -> (r: Self)
        ensures
            r.i == i,
            r.j == j,
    {
        TracebackStep { i, j }
    }
}

/// The coordinates of a run of steps.
pub open spec fn coords(steps: Seq<TracebackStep>) -> Seq<(int, int)> {
    steps.map_values(|s: TracebackStep| (s.i as int, s.j as int))
}

/// A complete traceback path, from its start cell to its stop cell.
#[derive(Debug, Clone)]
pub struct TracebackPath {
    pub steps: Vec<TracebackStep>,
}

impl TracebackPath {
    pub open spec fn spec_coords(self) -> Seq<(int, int)> {
        coords(self.steps@)
    }

    pub fn with_capacity(capacity: usize) -> (r: Self)
        ensures
            r.steps@.len() == 0,
    {
        TracebackPath { steps: Vec::with_capacity(capacity) }
    }

    pub fn push(&mut self, i: usize, j: usize)
        ensures
            final(self).steps@ == old(self).steps@.push(TracebackStep { i, j }),
    {
        self.steps.push(TracebackStep::new(i, j));
    }
}

/// A pair of aligned sequences.
#[derive(Debug, Clone)]
pub struct AlignedPair {
    pub seq1_aligned: String,
    pub seq2_aligned: String,
}

impl AlignedPair {
    pub fn new(seq1: String, seq2: String) -> (r: Self)
        ensures
            r.seq1_aligned == seq1,
            r.seq2_aligned == seq2,
    {
        AlignedPair { seq1_aligned: seq1, seq2_aligned: seq2 }
    }
}

/// The complete result of an alignment.
#[derive(Debug, Clone)]
pub struct AlignmentResult {
    pub seq1: String,
    pub seq2: String,
    pub scoring: ScoringConfig,
    pub matrix: DPMatrix,
    pub traceback_paths: Vec<TracebackPath>,
    pub alignments: Vec<AlignedPair>,
    pub final_score: i32,
}

// ---------------------------------------------------------------------------
// The recurrences.

/// Substitution score of the residues ending at row `i` and column `j`.
pub open spec fn sub_at(sc: ScoringConfig, s1: Seq<u8>, s2: Seq<u8>, i: int, j: int) -> int {
    sc.scorer.spec_score(s1[i - 1], s2[j - 1]) as int
}

pub open spec fn max3(a: int, b: int, c: int) -> int {
    if a >= b && a >= c {
        a
    } else if b >= c {
        b
    } else {
        c
    }
}

/// The candidates of cell (`i`, `j`): from the diagonal, from above, from
/// the left, each by saturating addition.
pub open spec fn candidates(
    sc: ScoringConfig,
    s1: Seq<u8>,
    s2: Seq<u8>,
    local: bool,
    i: int,
    j: int,
) -> (int, int, int)
    recommends
        i >= 1,
        j >= 1,
    decreases i + j, 0int,
{
    if i >= 1 && j >= 1 {
        (
            clamp_i32(dp_score(sc, s1, s2, local, i - 1, j - 1) + sub_at(sc, s1, s2, i, j)),
            clamp_i32(dp_score(sc, s1, s2, local, i - 1, j) + sc.gap_open),
            clamp_i32(dp_score(sc, s1, s2, local, i, j - 1) + sc.gap_open),
        )
    } else {
        (0, 0, 0)
    }
}

/// The score of cell (`i`, `j`) once the matrix is filled: global alignment
/// when `local` is false, local alignment when it is true.
pub open spec fn dp_score(
    sc: ScoringConfig,
    s1: Seq<u8>,
    s2: Seq<u8>,
    local: bool,
    i: int,
    j: int,
) -> int
    decreases i + j, 1int,
{
    if i <= 0 || j <= 0 {
        if local || (i <= 0 && j <= 0) {
            0
        } else if j <= 0 {
            sc.spec_gap_penalty(i)
        } else {
            sc.spec_gap_penalty(j)
        }
    } else {
        let (d, u, l) = candidates(sc, s1, s2, local, i, j);
        let best = max3(d, u, l);
        if local && best < 0 {
            0
        } else {
            best
        }
    }
}

/// The arrows of cell (`i`, `j`) once the matrix is filled: every candidate
/// equal to the cell's score (in local mode only when that score is positive).
pub open spec fn dp_arrows(
    sc: ScoringConfig,
    s1: Seq<u8>,
    s2: Seq<u8>,
    local: bool,
    i: int,
    j: int,
) -> u8 {
    if i <= 0 || j <= 0 {
        if local || (i <= 0 && j <= 0) {
            0
        } else if j <= 0 {
            2
        } else {
            4
        }
    } else {
        let (d, u, l) = candidates(sc, s1, s2, local, i, j);
        let v = dp_score(sc, s1, s2, local, i, j);
        if local && v <= 0 {
            0
        } else {
            arrow_mask(d == v, u == v, l == v)
        }
    }
}

/// Whether the cell (`i`, `j`) of `m` holds its final score and arrows.
pub open spec fn holds_dp(
    m: DPMatrix,
    sc: ScoringConfig,
    s1: Seq<u8>,
    s2: Seq<u8>,
    local: bool,
    i: int,
    j: int,
) -> bool {
    m.spec_cell(i, j).score == dp_score(sc, s1, s2, local, i, j) && m.spec_cell(i, j).arrows@
        == dp_arrows(sc, s1, s2, local, i, j)
}

/// Whether `m` is the completed matrix of `s1` against `s2`.
pub open spec fn is_filled(
    m: DPMatrix,
    sc: ScoringConfig,
    s1: Seq<u8>,
    s2: Seq<u8>,
    local: bool,
) -> bool {
    &&& m.wf()
    &&& m.rows == s1.len() + 1
    &&& m.cols == s2.len() + 1
    &&& forall|i: int, j: int|
        0 <= i <= s1.len() && 0 <= j <= s2.len() ==> #[trigger] holds_dp(m, sc, s1, s2, local, i, j)
}

/// The largest local score over the cells of rows 1 to `i - 1` and of row
/// `i` up to column `j`, and 0 when that is larger.
pub open spec fn best_upto(sc: ScoringConfig, s1: Seq<u8>, s2: Seq<u8>, i: int, j: int) -> int
    decreases i, j,
{
    if i <= 0 {
        0
    } else if j <= 0 {
        best_upto(sc, s1, s2, i - 1, s2.len() as int)
    } else {
        let prev = best_upto(sc, s1, s2, i, j - 1);
        let v = dp_score(sc, s1, s2, true, i, j);
        if v > prev {
            v
        } else {
            prev
        }
    }
}

/// The cells of the same range whose local score is `b`, in row-major order
/// (none when `b` is not positive).
pub open spec fn cells_scoring(
    sc: ScoringConfig,
    s1: Seq<u8>,
    s2: Seq<u8>,
    i: int,
    j: int,
    b: int,
) -> Seq<(int, int)>
    decreases i, j,
{
    if i <= 0 {
        seq![]
    } else if j <= 0 {
        cells_scoring(sc, s1, s2, i - 1, s2.len() as int, b)
    } else {
        let prev = cells_scoring(sc, s1, s2, i, j - 1, b);
        if b > 0 && dp_score(sc, s1, s2, true, i, j) == b {
            prev.push((i, j))
        } else {
            prev
        }
    }
}

/// No cell of the range scores above `best_upto`.
pub proof fn lemma_best_upto_bounds(
    sc: ScoringConfig,
    s1: Seq<u8>,
    s2: Seq<u8>,
    i: int,
    j: int,
    r: int,
    c: int,
)
    requires
        j <= s2.len(),
        1 <= r,
        1 <= c <= s2.len(),
        r < i || (r == i && c <= j),
    ensures
        dp_score(sc, s1, s2, true, r, c) <= best_upto(sc, s1, s2, i, j),
    decreases i, j,
{
    if i <= 0 {
    } else if j <= 0 {
        lemma_best_upto_bounds(sc, s1, s2, i - 1, s2.len() as int, r, c);
    } else if r == i && c == j {
    } else {
        lemma_best_upto_bounds(sc, s1, s2, i, j - 1, r, c);
    }
}

pub proof fn lemma_best_upto_nonneg(sc: ScoringConfig, s1: Seq<u8>, s2: Seq<u8>, i: int, j: int)
    ensures
        best_upto(sc, s1, s2, i, j) >= 0,
    decreases i, j,
{
    if i <= 0 {
    } else if j <= 0 {
        lemma_best_upto_nonneg(sc, s1, s2, i - 1, s2.len() as int);
    } else {
        lemma_best_upto_nonneg(sc, s1, s2, i, j - 1);
    }
}

/// No cell of the range scores a value above its best.
proof fn lemma_cells_scoring_above(
    sc: ScoringConfig,
    s1: Seq<u8>,
    s2: Seq<u8>,
    i: int,
    j: int,
    b: int,
)
    requires
        j <= s2.len(),
        b > best_upto(sc, s1, s2, i, j),
    ensures
        cells_scoring(sc, s1, s2, i, j, b) == Seq::<(int, int)>::empty(),
    decreases i, j,
{
    if i <= 0 {
    } else if j <= 0 {
        lemma_cells_scoring_above(sc, s1, s2, i - 1, s2.len() as int, b);
    } else {
        lemma_cells_scoring_above(sc, s1, s2, i, j - 1, b);
    }
}

/// The error of looking up the pair `a`, `b`, if any: the first of the two
/// residues that the scorer does not know.
pub open spec fn pair_error(sc: ScoringConfig, a: u8, b: u8) -> Option<AlignmentError> {
    if !sc.scorer.accepts(a) {
        Some(AlignmentError::InvalidCharacter(a))
    } else if !sc.scorer.accepts(b) {
        Some(AlignmentError::InvalidCharacter(b))
    } else {
        None
    }
}

/// Whether the pair of row `i` and column `j` scores without error.
pub open spec fn pair_ok(sc: ScoringConfig, s1: Seq<u8>, s2: Seq<u8>, i: int, j: int) -> bool {
    pair_error(sc, s1[i - 1], s2[j - 1]) is None
}

/// Whether every pair of `s1` against `s2` scores without error.
pub open spec fn all_pairs_ok(sc: ScoringConfig, s1: Seq<u8>, s2: Seq<u8>) -> bool {
    forall|i: int, j: int|
        1 <= i <= s1.len() && 1 <= j <= s2.len() ==> #[trigger] pair_ok(sc, s1, s2, i, j)
}

/// Whether (`i`, `j`) is the first pair, row-major, whose lookup fails.
pub open spec fn first_failing_pair(sc: ScoringConfig, s1: Seq<u8>, s2: Seq<u8>, i: int, j: int) -> bool {
    &&& 1 <= i <= s1.len()
    &&& 1 <= j <= s2.len()
    &&& !pair_ok(sc, s1, s2, i, j)
    &&& forall|r: int, c: int|
        1 <= r <= s1.len() && 1 <= c <= s2.len() && (r < i || (r == i && c < j))
            ==> #[trigger] pair_ok(sc, s1, s2, r, c)
}

/// The pairs of a list of coordinates, as integers.
pub open spec fn pairs(v: Seq<(usize, usize)>) -> Seq<(int, int)> {
    v.map_values(|p: (usize, usize)| (p.0 as int, p.1 as int))
}

/// What the fill reports: the best score and, in local mode, the cells that
/// reach it.
#[derive(Debug, Clone)]
pub(crate) struct FillResult {
    pub max_score: i32,
    pub max_positions: Vec<(usize, usize)>,
}

/// Computes cell (`i`, `j`) from its three finished neighbours.
fn fill_cell(
    matrix: &DPMatrix,
    seq1: &[u8],
    seq2: &[u8],
    scoring: &ScoringConfig,
    local: bool,
    i: usize,
    j: usize,
) -> (r: Result<Cell, AlignmentError>)
    requires
        matrix.wf(),
        matrix.rows == seq1@.len() + 1,
        matrix.cols == seq2@.len() + 1,
        1 <= i <= seq1@.len(),
        1 <= j <= seq2@.len(),
        holds_dp(*matrix, *scoring, seq1@, seq2@, local, i - 1, j - 1),
        holds_dp(*matrix, *scoring, seq1@, seq2@, local, i - 1, j as int),
        holds_dp(*matrix, *scoring, seq1@, seq2@, local, i as int, j - 1),
    ensures
        pair_ok(*scoring, seq1@, seq2@, i as int, j as int) ==> (r matches Ok(c) && c.score
            == dp_score(*scoring, seq1@, seq2@, local, i as int, j as int) && c.arrows@ == dp_arrows(
            *scoring,
            seq1@,
            seq2@,
            local,
            i as int,
            j as int,
        )),
        !pair_ok(*scoring, seq1@, seq2@, i as int, j as int) ==> r == Err::<Cell, AlignmentError>(
            pair_error(*scoring, seq1@[i - 1], seq2@[j - 1])->Some_0,
        ),
{
    let gap = scoring.gap_open;
    let a = seq1[i - 1];
    let b = seq2[j - 1];
    let s = match scoring.substitution_score(a, b) {
        Ok(s) => s,
        Err(e) => return Err(e),
    };
    let diag = saturating_add(matrix.get(i - 1, j - 1).score, s);
    let up = saturating_add(matrix.get(i - 1, j).score, gap);
    let left = saturating_add(matrix.get(i, j - 1).score, gap);
    let best = if diag >= up && diag >= left {
        diag
    } else if up >= left {
        up
    } else {
        left
    };
    let score = if local && best < 0 {
        0
    } else {
        best
    };
    let arrows = if local && score <= 0 {
        Arrows::new()
    } else {
        arrows_for(diag == score, up == score, left == score)
    };
    Ok(Cell::with_arrows(score, arrows))
}

/// Fills every cell below row 0 and right of column 0, row by row, from the
/// initialised borders. In local mode it also finds the best score (0 when
/// no cell is positive) and, row-major, the cells that reach it.
#[verifier::rlimit(40)]
pub(crate) fn fill_matrix_linear(
    matrix: &mut DPMatrix,
    seq1: &[u8],
    seq2: &[u8],
    scoring: &ScoringConfig,
    local: bool,
) -> (r: Result<FillResult, AlignmentError>)
    requires
        old(matrix).wf(),
        old(matrix).rows == seq1@.len() + 1,
        old(matrix).cols == seq2@.len() + 1,
        forall|i: int|
            0 <= i <= seq1@.len() ==> #[trigger] holds_dp(
                *old(matrix),
                *scoring,
                seq1@,
                seq2@,
                local,
                i,
                0,
            ),
        forall|j: int|
            0 <= j <= seq2@.len() ==> #[trigger] holds_dp(
                *old(matrix),
                *scoring,
                seq1@,
                seq2@,
                local,
                0,
                j,
            ),
    ensures
        !all_pairs_ok(*scoring, seq1@, seq2@) ==> exists|i: int, j: int|
            first_failing_pair(*scoring, seq1@, seq2@, i, j) && r == Err::<FillResult, AlignmentError>(
                pair_error(*scoring, seq1@[i - 1], seq2@[j - 1])->Some_0,
            ),
        all_pairs_ok(*scoring, seq1@, seq2@) ==> is_filled(*final(matrix), *scoring, seq1@, seq2@, local),
        all_pairs_ok(*scoring, seq1@, seq2@) ==> (r matches Ok(f) && (local ==> f.max_score == best_upto(
            *scoring,
            seq1@,
            seq2@,
            seq1@.len() as int,
            seq2@.len() as int,
        ) && pairs(f.max_positions@) == cells_scoring(
            *scoring,
            seq1@,
            seq2@,
            seq1@.len() as int,
            seq2@.len() as int,
            f.max_score as int,
        )) && (!local ==> f.max_score == dp_score(
            *scoring,
            seq1@,
            seq2@,
            false,
            seq1@.len() as int,
            seq2@.len() as int,
        ) && f.max_positions@.len() == 0)),
{
    let n = seq1.len();
    let m = seq2.len();
    let mut max_score: i32 = 0;
    let mut max_positions: Vec<(usize, usize)> = Vec::new();
    let mut i: usize = 1;
    while i <= n
        invariant
            1 <= i <= n + 1,
            n == seq1@.len(),
            m == seq2@.len(),
            matrix.wf(),
            matrix.rows == n + 1,
            matrix.cols == m + 1,
            forall|r: int, c: int|
                1 <= r <= n && 1 <= c <= m && r < i ==> #[trigger] pair_ok(
                    *scoring,
                    seq1@,
                    seq2@,
                    r,
                    c,
                ),
            forall|r: int, c: int|
                0 <= r <= n && 0 <= c <= m && (r == 0 || c == 0 || r < i) ==> #[trigger] holds_dp(
                    *matrix,
                    *scoring,
                    seq1@,
                    seq2@,
                    local,
                    r,
                    c,
                ),
            local ==> max_score == best_upto(*scoring, seq1@, seq2@, i - 1, m as int),
            local ==> pairs(max_positions@) == cells_scoring(
                *scoring,
                seq1@,
                seq2@,
                i - 1,
                m as int,
                max_score as int,
            ),
        decreases n + 1 - i,
    {
        let mut j: usize = 1;
        while j <= m
            invariant
                1 <= i <= n,
                1 <= j <= m + 1,
                n == seq1@.len(),
                m == seq2@.len(),
                matrix.wf(),
                matrix.rows == n + 1,
                matrix.cols == m + 1,
                forall|r: int, c: int|
                    1 <= r <= n && 1 <= c <= m && (r < i || (r == i && c < j)) ==> #[trigger] pair_ok(
                        *scoring,
                        seq1@,
                        seq2@,
                        r,
                        c,
                    ),
                forall|r: int, c: int|
                    0 <= r <= n && 0 <= c <= m && (r == 0 || c == 0 || r < i || (r == i && c < j))
                        ==> #[trigger] holds_dp(*matrix, *scoring, seq1@, seq2@, local, r, c),
                local ==> max_score == best_upto(*scoring, seq1@, seq2@, i as int, j - 1),
                local ==> pairs(max_positions@) == cells_scoring(
                    *scoring,
                    seq1@,
                    seq2@,
                    i as int,
                    j - 1,
                    max_score as int,
                ),
            decreases m + 1 - j,
        {
            let cell = match fill_cell(&*matrix, seq1, seq2, scoring, local, i, j) {
                Ok(c) => c,
                Err(e) => {
                    assert(first_failing_pair(*scoring, seq1@, seq2@, i as int, j as int));
                    return Err(e);
                },
            };
            let ghost before = *matrix;
            matrix.set(i, j, cell);
            assert forall|r: int, c: int|
                0 <= r <= n && 0 <= c <= m && (r == 0 || c == 0 || r < i || (r == i && c < j + 1))
                    implies #[trigger] holds_dp(*matrix, *scoring, seq1@, seq2@, local, r, c) by {
                if r != i || c != j {
                    assert(holds_dp(before, *scoring, seq1@, seq2@, local, r, c));
                    assert(matrix.spec_cell(r, c) == before.spec_cell(r, c));
                }
            }
            if local {
                let v = cell.score;
                proof {
                    lemma_best_upto_nonneg(*scoring, seq1@, seq2@, i as int, j - 1);
                }
                if v > max_score {
                    proof {
                        lemma_cells_scoring_above(*scoring, seq1@, seq2@, i as int, j - 1, v as int);
                    }
                    max_score = v;
                    max_positions.clear();
                    max_positions.push((i, j));
                    assert(pairs(max_positions@) =~= seq![(i as int, j as int)]);
                } else if v == max_score && v > 0 {
                    let ghost before = max_positions@;
                    max_positions.push((i, j));
                    assert(pairs(max_positions@) =~= pairs(before).push((i as int, j as int)));
                }
            }
            j += 1;
        }
        i += 1;
    }
    assert(holds_dp(*matrix, *scoring, seq1@, seq2@, local, n as int, m as int));
    let final_score = if local {
        max_score
    } else {
        matrix.get(n, m).score
    };
    if !local {
        max_positions = Vec::new();
    }
    Ok(FillResult { max_score: final_score, max_positions })
}

// ---------------------------------------------------------------------------
// The traceback.

/// A finished traceback branch: the cells from the start cell to the stop
/// cell, and the two aligned rows read left to right.
pub type Trace = (Seq<(int, int)>, Seq<u8>, Seq<u8>);

/// Whether a branch ends at cell (`i`, `j`): the origin in global mode; in
/// local mode also a cell of score 0 or without arrows.
pub open spec fn stops_at(m: DPMatrix, local: bool, i: int, j: int) -> bool {
    if local {
        m.spec_cell(i, j).score == 0 || (i == 0 && j == 0) || m.spec_cell(i, j).arrows@ == 0
    } else {
        i == 0 && j == 0
    }
}

/// Each branch of `ts` entered from cell (`i`, `j`), which aligns `a` with `b`.
pub open spec fn extend_all(ts: Seq<Trace>, i: int, j: int, a: u8, b: u8) -> Seq<Trace> {
    ts.map_values(|t: Trace| (seq![(i, j)] + t.0, t.1.push(a), t.2.push(b)))
}

/// The branches that leave cell (`i`, `j`) by its diagonal arrow.
pub open spec fn diagonal_branches(
    m: DPMatrix,
    s1: Seq<u8>,
    s2: Seq<u8>,
    local: bool,
    i: int,
    j: int,
) -> Seq<Trace>
    decreases i + j, 0int,
{
    if has_bit(m.spec_cell(i, j).arrows@, 1) && i > 0 && j > 0 {
        extend_all(traces(m, s1, s2, local, i - 1, j - 1), i, j, s1[i - 1], s2[j - 1])
    } else {
        seq![]
    }
}

/// The branches that leave cell (`i`, `j`) by its up arrow.
pub open spec fn up_branches(
    m: DPMatrix,
    s1: Seq<u8>,
    s2: Seq<u8>,
    local: bool,
    i: int,
    j: int,
) -> Seq<Trace>
    decreases i + j, 0int,
{
    if has_bit(m.spec_cell(i, j).arrows@, 2) && i > 0 && j >= 0 {
        extend_all(traces(m, s1, s2, local, i - 1, j), i, j, s1[i - 1], GAP)
    } else {
        seq![]
    }
}

/// The branches that leave cell (`i`, `j`) by its left arrow.
pub open spec fn left_branches(
    m: DPMatrix,
    s1: Seq<u8>,
    s2: Seq<u8>,
    local: bool,
    i: int,
    j: int,
) -> Seq<Trace>
    decreases i + j, 0int,
{
    if has_bit(m.spec_cell(i, j).arrows@, 4) && j > 0 && i >= 0 {
        extend_all(traces(m, s1, s2, local, i, j - 1), i, j, GAP, s2[j - 1])
    } else {
        seq![]
    }
}

/// Every branch from cell (`i`, `j`) to a stop cell along the arrows:
/// diagonal branches first, then up, then left.
pub open spec fn traces(
    m: DPMatrix,
    s1: Seq<u8>,
    s2: Seq<u8>,
    local: bool,
    i: int,
    j: int,
) -> Seq<Trace>
    decreases i + j, 1int,
{
    if i < 0 || j < 0 {
        seq![]
    } else if stops_at(m, local, i, j) {
        seq![(seq![(i, j)], Seq::<u8>::empty(), Seq::<u8>::empty())]
    } else {
        diagonal_branches(m, s1, s2, local, i, j) + up_branches(m, s1, s2, local, i, j)
            + left_branches(m, s1, s2, local, i, j)
    }
}

/// The branches of every start cell, in the order of the starts.
pub open spec fn all_traces(
    m: DPMatrix,
    s1: Seq<u8>,
    s2: Seq<u8>,
    local: bool,
    starts: Seq<(int, int)>,
) -> Seq<Trace>
    decreases starts.len(),
{
    if starts.len() == 0 {
        seq![]
    } else {
        all_traces(m, s1, s2, local, starts.drop_last()) + traces(
            m,
            s1,
            s2,
            local,
            starts.last().0,
            starts.last().1,
        )
    }
}

/// `s` read from its end.
pub open spec fn reversed(s: Seq<u8>) -> Seq<u8> {
    Seq::new(s.len(), |k: int| s[s.len() - 1 - k])
}

/// The paths of branches `ts`, each after `prefix`.
pub open spec fn paths_emitted(ts: Seq<Trace>, prefix: Seq<(int, int)>) -> Seq<Seq<(int, int)>> {
    ts.map_values(|t: Trace| prefix + t.0)
}

/// The aligned rows of branches `ts`, each followed by the reversed rows `r1`, `r2`.
pub open spec fn pairs_emitted(ts: Seq<Trace>, r1: Seq<u8>, r2: Seq<u8>) -> Seq<
    (Seq<char>, Seq<char>),
> {
    ts.map_values(|t: Trace| (chars_of(t.1 + reversed(r1)), chars_of(t.2 + reversed(r2))))
}

/// The coordinates of the paths in `v`.
pub open spec fn path_views(v: Seq<TracebackPath>) -> Seq<Seq<(int, int)>> {
    v.map_values(|p: TracebackPath| p.spec_coords())
}

/// The texts of the aligned pairs in `v`.
pub open spec fn pair_views(v: Seq<AlignedPair>) -> Seq<(Seq<char>, Seq<char>)> {
    v.map_values(|a: AlignedPair| (a.seq1_aligned@, a.seq2_aligned@))
}

proof fn lemma_emitted_concat(x: Seq<Trace>, y: Seq<Trace>, p: Seq<(int, int)>, r1: Seq<u8>, r2: Seq<u8>)
    ensures
        paths_emitted(x + y, p) == paths_emitted(x, p) + paths_emitted(y, p),
        pairs_emitted(x + y, r1, r2) == pairs_emitted(x, r1, r2) + pairs_emitted(y, r1, r2),
{
    assert(paths_emitted(x + y, p) =~= paths_emitted(x, p) + paths_emitted(y, p));
    assert(pairs_emitted(x + y, r1, r2) =~= pairs_emitted(x, r1, r2) + pairs_emitted(y, r1, r2));
}

proof fn lemma_emitted_extend(
    ts: Seq<Trace>,
    start_path: Seq<TracebackStep>,
    r1: Seq<u8>,
    r2: Seq<u8>,
    i: usize,
    j: usize,
    a: u8,
    b: u8,
)
    ensures
        paths_emitted(extend_all(ts, i as int, j as int, a, b), coords(start_path)) == paths_emitted(
            ts,
            coords(start_path.push(TracebackStep { i, j })),
        ),
        pairs_emitted(extend_all(ts, i as int, j as int, a, b), r1, r2) == pairs_emitted(
            ts,
            r1.push(a),
            r2.push(b),
        ),
{
    let step = TracebackStep { i, j };
    assert(coords(start_path.push(step)) =~= coords(start_path).push((i as int, j as int)));
    assert(reversed(r1.push(a)) =~= seq![a] + reversed(r1));
    assert(reversed(r2.push(b)) =~= seq![b] + reversed(r2));
    assert forall|k: int| 0 <= k < ts.len() implies coords(start_path) + (seq![(i as int, j as int)]
        + (#[trigger] ts[k]).0) =~= coords(start_path.push(step)) + ts[k].0 && ts[k].1.push(a) + reversed(
        r1,
    ) =~= ts[k].1 + reversed(r1.push(a)) && ts[k].2.push(b) + reversed(r2) =~= ts[k].2
        + reversed(r2.push(b)) by {}
    assert(paths_emitted(extend_all(ts, i as int, j as int, a, b), coords(start_path)) =~= paths_emitted(
        ts,
        coords(start_path.push(step)),
    ));
    assert(pairs_emitted(extend_all(ts, i as int, j as int, a, b), r1, r2) =~= pairs_emitted(
        ts,
        r1.push(a),
        r2.push(b),
    ));
}

fn copy_steps(path: &Vec<TracebackStep>) -> (r: Vec<TracebackStep>)
    ensures
        r@ == path@,
{
    let mut r: Vec<TracebackStep> = Vec::with_capacity(path.len());
    let mut k: usize = 0;
    while k < path.len()
        invariant
            k <= path@.len(),
            r@ == path@.subrange(0, k as int),
        decreases path@.len() - k,
    {
        r.push(path[k]);
        k += 1;
        assert(r@ =~= path@.subrange(0, k as int));
    }
    assert(r@ =~= path@);
    r
}

/// The text of `b` read from its end, one character per byte.
fn reversed_text(b: &Vec<u8>) -> (r: String)
    ensures
        r@ == chars_of(reversed(b@)),
{
    let mut r = String::new();
    let mut k: usize = b.len();
    while k > 0
        invariant
            k <= b@.len(),
            r@ == chars_of(reversed(b@).subrange(0, b@.len() - k)),
        decreases k,
    {
        k -= 1;
        push_char(&mut r, b[k] as char);
        assert(chars_of(reversed(b@).subrange(0, b@.len() - k)) =~= chars_of(
            reversed(b@).subrange(0, b@.len() - k - 1),
        ).push(b@[k as int] as char));
    }
    assert(reversed(b@).subrange(0, b@.len() as int) =~= reversed(b@));
    r
}

/// Appends the branch that ends here: the path so far and the aligned rows
/// read left to right.
fn emit_branch(
    path: &Vec<TracebackStep>,
    aln1: &Vec<u8>,
    aln2: &Vec<u8>,
    all_paths: &mut Vec<TracebackPath>,
    all_alignments: &mut Vec<AlignedPair>,
)
    ensures
        path_views(final(all_paths)@) == path_views(old(all_paths)@).push(coords(path@)),
        pair_views(final(all_alignments)@) == pair_views(old(all_alignments)@).push(
            (chars_of(reversed(aln1@)), chars_of(reversed(aln2@))),
        ),
{
    let steps = copy_steps(path);
    let a1 = reversed_text(aln1);
    let a2 = reversed_text(aln2);
    all_paths.push(TracebackPath { steps });
    all_alignments.push(AlignedPair::new(a1, a2));
    assert(path_views(all_paths@) =~= path_views(old(all_paths)@).push(coords(path@)));
    assert(pair_views(all_alignments@) =~= pair_views(old(all_alignments)@).push(
        (chars_of(reversed(aln1@)), chars_of(reversed(aln2@))),
    ));
}

/// Steps to cell (`ni`, `nj`) aligning `a` with `b`, and follows every
/// branch from there.
fn follow(
    matrix: &DPMatrix,
    ni: usize,
    nj: usize,
    a: u8,
    b: u8,
    path: &mut Vec<TracebackStep>,
    aln1: &mut Vec<u8>,
    aln2: &mut Vec<u8>,
    seq1: &[u8],
    seq2: &[u8],
    all_paths: &mut Vec<TracebackPath>,
    all_alignments: &mut Vec<AlignedPair>,
    local: bool,
)
    requires
        matrix.wf(),
        matrix.rows == seq1@.len() + 1,
        matrix.cols == seq2@.len() + 1,
        ni < matrix.rows,
        nj < matrix.cols,
    ensures
        final(path)@ == old(path)@,
        final(aln1)@ == old(aln1)@,
        final(aln2)@ == old(aln2)@,
        path_views(final(all_paths)@) == path_views(old(all_paths)@) + paths_emitted(
            traces(*matrix, seq1@, seq2@, local, ni as int, nj as int),
            coords(old(path)@),
        ),
        pair_views(final(all_alignments)@) == pair_views(old(all_alignments)@) + pairs_emitted(
            traces(*matrix, seq1@, seq2@, local, ni as int, nj as int),
            old(aln1)@.push(a),
            old(aln2)@.push(b),
        ),
    decreases ni + nj + 1, 0int,
{
    let ghost r1 = aln1@;
    let ghost r2 = aln2@;
    aln1.push(a);
    aln2.push(b);
    traceback_recursive(
        matrix,
        ni,
        nj,
        path,
        aln1,
        aln2,
        seq1,
        seq2,
        all_paths,
        all_alignments,
        local,
    );
    aln1.pop();
    aln2.pop();
    assert(aln1@ =~= r1);
    assert(aln2@ =~= r2);
}

/// Follows every arrow from cell (`i`, `j`), with `path` the cells before it
/// and `aln1`, `aln2` the aligned residues gathered so far (last first),
/// and appends each finished branch to `all_paths` and `all_alignments`.
#[verifier::rlimit(60)]
fn traceback_recursive(
    matrix: &DPMatrix,
    i: usize,
    j: usize,
    path: &mut Vec<TracebackStep>,
    aln1: &mut Vec<u8>,
    aln2: &mut Vec<u8>,
    seq1: &[u8],
    seq2: &[u8],
    all_paths: &mut Vec<TracebackPath>,
    all_alignments: &mut Vec<AlignedPair>,
    local: bool,
)
    requires
        matrix.wf(),
        matrix.rows == seq1@.len() + 1,
        matrix.cols == seq2@.len() + 1,
        i < matrix.rows,
        j < matrix.cols,
    ensures
        final(path)@ == old(path)@,
        final(aln1)@ == old(aln1)@,
        final(aln2)@ == old(aln2)@,
        path_views(final(all_paths)@) == path_views(old(all_paths)@) + paths_emitted(
            traces(*matrix, seq1@, seq2@, local, i as int, j as int),
            coords(old(path)@),
        ),
        pair_views(final(all_alignments)@) == pair_views(old(all_alignments)@) + pairs_emitted(
            traces(*matrix, seq1@, seq2@, local, i as int, j as int),
            old(aln1)@,
            old(aln2)@,
        ),
    decreases i + j, 1int,
{
    let ghost start_path = path@;
    let ghost r1 = aln1@;
    let ghost r2 = aln2@;
    let ghost op = path_views(all_paths@);
    let ghost oa = pair_views(all_alignments@);
    let ghost m = *matrix;
    let ghost cp = coords(start_path);
    let step = TracebackStep::new(i, j);
    path.push(step);
    let cell = *matrix.get(i, j);
    let stop = if local {
        cell.score == 0 || (i == 0 && j == 0) || cell.arrows.bits() == 0
    } else {
        i == 0 && j == 0
    };
    if stop {
        emit_branch(path, aln1, aln2, all_paths, all_alignments);
        path.pop();
        proof {
            let ts = traces(m, seq1@, seq2@, local, i as int, j as int);
            assert(path@ =~= start_path);
            assert(coords(start_path.push(step)) =~= cp + seq![(i as int, j as int)]);
            assert(Seq::<u8>::empty() + reversed(r1) =~= reversed(r1));
            assert(Seq::<u8>::empty() + reversed(r2) =~= reversed(r2));
            assert(paths_emitted(ts, cp) =~= seq![cp + seq![(i as int, j as int)]]);
            assert(pairs_emitted(ts, r1, r2) =~= seq![(chars_of(reversed(r1)), chars_of(reversed(r2)))]);
        }
        return;
    }
    let ghost dg = diagonal_branches(m, seq1@, seq2@, local, i as int, j as int);
    let ghost ub = up_branches(m, seq1@, seq2@, local, i as int, j as int);
    let ghost lb = left_branches(m, seq1@, seq2@, local, i as int, j as int);
    if cell.arrows.has_diagonal() && i > 0 && j > 0 {
        follow(matrix, i - 1, j - 1, seq1[i - 1], seq2[j - 1], path, aln1, aln2, seq1, seq2,
            all_paths, all_alignments, local);
        proof {
            lemma_emitted_extend(traces(m, seq1@, seq2@, local, i - 1, j - 1), start_path, r1, r2, i, j,
                seq1@[i - 1], seq2@[j - 1]);
        }
    }
    let ghost op2 = path_views(all_paths@);
    let ghost oa2 = pair_views(all_alignments@);
    assert(op2 == op + paths_emitted(dg, cp));
    assert(oa2 == oa + pairs_emitted(dg, r1, r2));
    if cell.arrows.has_up() && i > 0 {
        follow(matrix, i - 1, j, seq1[i - 1], GAP, path, aln1, aln2, seq1, seq2, all_paths,
            all_alignments, local);
        proof {
            lemma_emitted_extend(traces(m, seq1@, seq2@, local, i - 1, j as int), start_path, r1, r2, i, j,
                seq1@[i - 1], GAP);
        }
    }
    let ghost op3 = path_views(all_paths@);
    let ghost oa3 = pair_views(all_alignments@);
    assert(op3 == op2 + paths_emitted(ub, cp));
    assert(oa3 == oa2 + pairs_emitted(ub, r1, r2));
    if cell.arrows.has_left() && j > 0 {
        follow(matrix, i, j - 1, GAP, seq2[j - 1], path, aln1, aln2, seq1, seq2, all_paths,
            all_alignments, local);
        proof {
            lemma_emitted_extend(traces(m, seq1@, seq2@, local, i as int, j - 1), start_path, r1, r2, i, j,
                GAP, seq2@[j - 1]);
        }
    }
    assert(path_views(all_paths@) == op3 + paths_emitted(lb, cp));
    assert(pair_views(all_alignments@) == oa3 + pairs_emitted(lb, r1, r2));
    path.pop();
    proof {
        assert(path@ =~= start_path);
        lemma_emitted_concat(dg, ub, cp, r1, r2);
        lemma_emitted_concat(dg + ub, lb, cp, r1, r2);
        assert(traces(m, seq1@, seq2@, local, i as int, j as int) == dg + ub + lb);
        assert(op + paths_emitted(dg, cp) + paths_emitted(ub, cp) + paths_emitted(lb, cp) =~= op
            + paths_emitted(dg + ub + lb, cp));
        assert(oa + pairs_emitted(dg, r1, r2) + pairs_emitted(ub, r1, r2) + pairs_emitted(lb, r1, r2)
            =~= oa + pairs_emitted(dg + ub + lb, r1, r2));
    }
}

/// The paths of branches `ts`.
pub open spec fn trace_paths(ts: Seq<Trace>) -> Seq<Seq<(int, int)>> {
    ts.map_values(|t: Trace| t.0)
}

/// The aligned rows of branches `ts`, as text.
pub open spec fn trace_texts(ts: Seq<Trace>) -> Seq<(Seq<char>, Seq<char>)> {
    ts.map_values(|t: Trace| (chars_of(t.1), chars_of(t.2)))
}

/// Every branch from every start cell, in the order of the starts: one path
/// and one aligned pair for each.
pub(crate) fn traceback_all_paths(
    matrix: &DPMatrix,
    seq1: &[u8],
    seq2: &[u8],
    start_positions: &[(usize, usize)],
    local: bool,
) -> (r: (Vec<TracebackPath>, Vec<AlignedPair>))
    requires
        matrix.wf(),
        matrix.rows == seq1@.len() + 1,
        matrix.cols == seq2@.len() + 1,
        forall|k: int|
            0 <= k < start_positions@.len() ==> (#[trigger] start_positions@[k]).0 < matrix.rows
                && start_positions@[k].1 < matrix.cols,
    ensures
        path_views(r.0@) == trace_paths(
            all_traces(*matrix, seq1@, seq2@, local, pairs(start_positions@)),
        ),
        pair_views(r.1@) == trace_texts(
            all_traces(*matrix, seq1@, seq2@, local, pairs(start_positions@)),
        ),
{
    let mut all_paths: Vec<TracebackPath> = Vec::new();
    let mut all_alignments: Vec<AlignedPair> = Vec::new();
    let capacity = if seq1.len() <= usize::MAX - seq2.len() {
        seq1.len() + seq2.len()
    } else {
        0
    };
    let mut path: Vec<TracebackStep> = Vec::with_capacity(capacity);
    let mut aln1: Vec<u8> = Vec::with_capacity(capacity);
    let mut aln2: Vec<u8> = Vec::with_capacity(capacity);
    let ghost starts = pairs(start_positions@);
    let mut k: usize = 0;
    while k < start_positions.len()
        invariant
            k <= start_positions@.len(),
            starts == pairs(start_positions@),
            matrix.wf(),
            matrix.rows == seq1@.len() + 1,
            matrix.cols == seq2@.len() + 1,
            forall|x: int|
                0 <= x < start_positions@.len() ==> (#[trigger] start_positions@[x]).0
                    < matrix.rows && start_positions@[x].1 < matrix.cols,
            path@.len() == 0,
            aln1@.len() == 0,
            aln2@.len() == 0,
            path_views(all_paths@) == paths_emitted(
                all_traces(*matrix, seq1@, seq2@, local, starts.subrange(0, k as int)),
                seq![],
            ),
            pair_views(all_alignments@) == pairs_emitted(
                all_traces(*matrix, seq1@, seq2@, local, starts.subrange(0, k as int)),
                seq![],
                seq![],
            ),
        decreases start_positions@.len() - k,
    {
        let (start_i, start_j) = start_positions[k];
        proof {
            assert(coords(path@) =~= seq![]);
            assert(aln1@ =~= seq![]);
            assert(aln2@ =~= seq![]);
        }
        traceback_recursive(
            matrix,
            start_i,
            start_j,
            &mut path,
            &mut aln1,
            &mut aln2,
            seq1,
            seq2,
            &mut all_paths,
            &mut all_alignments,
            local,
        );
        proof {
            let before = all_traces(*matrix, seq1@, seq2@, local, starts.subrange(0, k as int));
            let here = traces(*matrix, seq1@, seq2@, local, start_i as int, start_j as int);
            assert(starts.subrange(0, k + 1).drop_last() =~= starts.subrange(0, k as int));
            assert(starts.subrange(0, k + 1).last() == (start_i as int, start_j as int));
            lemma_emitted_concat(before, here, seq![], seq![], seq![]);
        }
        k += 1;
    }
    proof {
        let ts = all_traces(*matrix, seq1@, seq2@, local, starts);
        assert(starts.subrange(0, start_positions@.len() as int) =~= starts);
        assert(reversed(seq![]) =~= Seq::<u8>::empty());
        assert forall|x: int| 0 <= x < ts.len() implies #[trigger] ts[x].1 + reversed(seq![])
            =~= ts[x].1 && ts[x].2 + reversed(seq![]) =~= ts[x].2 && Seq::<(int, int)>::empty()
            + ts[x].0 =~= ts[x].0 by {}
        assert(paths_emitted(ts, seq![]) =~= trace_paths(ts));
        assert(pairs_emitted(ts, seq![], seq![]) =~= trace_texts(ts));
    }
    (all_paths, all_alignments)
}

} // verus!
