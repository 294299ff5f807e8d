//! Global and local aligners: validation, matrix set-up, fill, traceback.

use vstd::prelude::*;

use crate::alignment::{
    all_traces, best_upto, cells_scoring, dp_score, fill_matrix_linear, holds_dp, is_filled,
    pair_views, pairs, path_views, trace_paths, trace_texts, traceback_all_paths, AlignmentResult,
    Arrows, Cell, DPMatrix,
};
use crate::matrices::{chars_of, text_of};
use crate::scoring::{affine_gap_message, AlignmentError, ScoringConfig, SubstitutionScorer};

verus! {

/// Whether a matrix for sequences of lengths `n` and `m` can be addressed.
pub open spec fn matrix_fits(n: int, m: int) -> bool {
    (n + 1) * (m + 1) <= usize::MAX
}

/// Whether `e` reports the first residue of `s` that `scorer` does not know.
pub open spec fn rejects_first(scorer: SubstitutionScorer, s: Seq<u8>, e: AlignmentError) -> bool {
    exists|k: int|
        0 <= k < s.len() && !scorer.accepts(s[k]) && (forall|j: int|
            0 <= j < k ==> scorer.accepts(#[trigger] s[j])) && e == AlignmentError::InvalidCharacter(
            s[k],
        )
}

/// The cells the traceback starts from: the last cell in global mode; in
/// local mode every cell with the best positive score, row-major.
pub open spec fn start_cells(sc: ScoringConfig, s1: Seq<u8>, s2: Seq<u8>, local: bool) -> Seq<
    (int, int),
> {
    if local {
        cells_scoring(
            sc,
            s1,
            s2,
            s1.len() as int,
            s2.len() as int,
            best_upto(sc, s1, s2, s1.len() as int, s2.len() as int),
        )
    } else {
        seq![(s1.len() as int, s2.len() as int)]
    }
}

/// The final score: the last cell in global mode, the best cell (at least
/// 0) in local mode.
pub open spec fn final_score_of(sc: ScoringConfig, s1: Seq<u8>, s2: Seq<u8>, local: bool) -> int {
    if local {
        best_upto(sc, s1, s2, s1.len() as int, s2.len() as int)
    } else {
        dp_score(sc, s1, s2, false, s1.len() as int, s2.len() as int)
    }
}

/// Whether `res` is the alignment of `s1` against `s2` under `sc`.
#[verifier::opaque]
pub open spec fn is_alignment_of(
    sc: ScoringConfig,
    s1: Seq<u8>,
    s2: Seq<u8>,
    local: bool,
    res: AlignmentResult,
) -> bool {
    let ts = all_traces(res.matrix, s1, s2, local, start_cells(sc, s1, s2, local));
    &&& res.seq1@ == chars_of(s1)
    &&& res.seq2@ == chars_of(s2)
    &&& res.scoring == sc
    &&& is_filled(res.matrix, sc, s1, s2, local)
    &&& res.final_score == final_score_of(sc, s1, s2, local)
    &&& path_views(res.traceback_paths@) == trace_paths(ts)
    &&& pair_views(res.alignments@) == trace_texts(ts)
}

/// What aligning `s1` against `s2` under `sc` returns: an error for affine
/// gap costs, then for the first unknown residue of `s1`, then of `s2`;
/// otherwise the alignment.
pub open spec fn alignment_outcome(
    sc: ScoringConfig,
    s1: Seq<u8>,
    s2: Seq<u8>,
    local: bool,
    r: Result<AlignmentResult, AlignmentError>,
) -> bool {
    if sc.spec_is_affine() {
        r matches Err(AlignmentError::Other(msg)) && msg@ == affine_gap_message(
            sc.gap_open,
            sc.gap_extend,
        )
    } else if !sc.scorer.accepts_all(s1) {
        r matches Err(e) && rejects_first(sc.scorer, s1, e)
    } else if !sc.scorer.accepts_all(s2) {
        r matches Err(e) && rejects_first(sc.scorer, s2, e)
    } else {
        r matches Ok(res) && is_alignment_of(sc, s1, s2, local, res)
    }
}

/// A sequence alignment algorithm.
pub trait Aligner {
    /// What `align` returns on `seq1` and `seq2`.
    spec fn outcome(
        &self,
        seq1: Seq<u8>,
        seq2: Seq<u8>,
        r: Result<AlignmentResult, AlignmentError>,
    ) -> bool;

    fn align(&self, seq1: &[u8], seq2: &[u8]) -> (r: Result<AlignmentResult, AlignmentError>)
        requires
            matrix_fits(seq1@.len() as int, seq2@.len() as int),
        ensures
            self.outcome(seq1@, seq2@, r),
    ;
}

proof fn lemma_fits(n: int, m: int)
    requires
        0 <= n,
        0 <= m,
        matrix_fits(n, m),
    ensures
        n + 1 <= usize::MAX,
        m + 1 <= usize::MAX,
{
    assert(n + 1 <= (n + 1) * (m + 1) && m + 1 <= (n + 1) * (m + 1)) by (nonlinear_arith)
        requires
            0 <= n,
            0 <= m,
    ;
}

/// Runs the steps shared by both modes: gap check, validation, fill and
/// traceback, on a matrix whose borders are set.
fn run_alignment(
    scoring: &ScoringConfig,
    seq1: &[u8],
    seq2: &[u8],
    local: bool,
    matrix: DPMatrix,
) -> (r: Result<AlignmentResult, AlignmentError>)
    requires
        matrix.wf(),
        matrix.rows == seq1@.len() + 1,
        matrix.cols == seq2@.len() + 1,
        forall|i: int|
            0 <= i <= seq1@.len() ==> #[trigger] holds_dp(matrix, *scoring, seq1@, seq2@, local, i, 0),
        forall|j: int|
            0 <= j <= seq2@.len() ==> #[trigger] holds_dp(matrix, *scoring, seq1@, seq2@, local, 0, j),
        !scoring.spec_is_affine(),
        scoring.scorer.accepts_all(seq1@),
        scoring.scorer.accepts_all(seq2@),
    ensures
        r matches Ok(res) && is_alignment_of(*scoring, seq1@, seq2@, local, res),
{
    let n = seq1.len();
    let m = seq2.len();
    let mut matrix = matrix;
    assert forall|i: int, j: int|
        1 <= i <= seq1@.len() && 1 <= j <= seq2@.len() implies #[trigger] crate::alignment::pair_ok(
        *scoring,
        seq1@,
        seq2@,
        i,
        j,
    ) by {
        assert(scoring.scorer.accepts(seq1@[i - 1]));
        assert(scoring.scorer.accepts(seq2@[j - 1]));
    }
    let fill = match fill_matrix_linear(&mut matrix, seq1, seq2, scoring, local) {
        Ok(f) => f,
        Err(e) => return Err(e),
    };
    let final_score = fill.max_score;
    let (traceback_paths, alignments) = if local {
        if final_score > 0 {
            proof {
                assert forall|k: int| 0 <= k < fill.max_positions@.len() implies (
                #[trigger] fill.max_positions@[k]).0 < matrix.rows && fill.max_positions@[k].1
                    < matrix.cols by {
                    lemma_cells_in_range(*scoring, seq1@, seq2@, n as int, m as int, final_score as int, k);
                    assert(pairs(fill.max_positions@)[k] == (fill.max_positions@[k].0 as int, fill.max_positions@[k].1 as int));
                }
            }
            traceback_all_paths(&matrix, seq1, seq2, fill.max_positions.as_slice(), true)
        } else {
            proof {
                lemma_cells_scoring_nonpositive(*scoring, seq1@, seq2@, n as int, m as int, final_score as int);
            }
            (Vec::new(), Vec::new())
        }
    } else {
        let starts: Vec<(usize, usize)> = vec![(n, m)];
        assert(pairs(starts@) =~= seq![(n as int, m as int)]);
        traceback_all_paths(&matrix, seq1, seq2, starts.as_slice(), false)
    };
    proof {
        let ts = all_traces(matrix, seq1@, seq2@, local, start_cells(*scoring, seq1@, seq2@, local));
        if local && final_score <= 0 {
            assert(path_views(traceback_paths@) =~= trace_paths(ts));
            assert(pair_views(alignments@) =~= trace_texts(ts));
        }
    }
    let res = AlignmentResult {
        seq1: text_of(seq1),
        seq2: text_of(seq2),
        scoring: *scoring,
        matrix,
        traceback_paths,
        alignments,
        final_score,
    };
    proof {
        reveal(is_alignment_of);
    }
    Ok(res)
}

/// The cells listed by `cells_scoring` lie in the matrix.
pub proof fn lemma_cells_in_range(
    sc: ScoringConfig,
    s1: Seq<u8>,
    s2: Seq<u8>,
    i: int,
    j: int,
    b: int,
    k: int,
)
    requires
        0 <= j <= s2.len(),
        i <= s1.len(),
        0 <= k < cells_scoring(sc, s1, s2, i, j, b).len(),
    ensures
        1 <= cells_scoring(sc, s1, s2, i, j, b)[k].0 <= s1.len(),
        1 <= cells_scoring(sc, s1, s2, i, j, b)[k].1 <= s2.len(),
    decreases i, j,
{
    if i <= 0 {
    } else if j <= 0 {
        lemma_cells_in_range(sc, s1, s2, i - 1, s2.len() as int, b, k);
    } else {
        let prev = cells_scoring(sc, s1, s2, i, j - 1, b);
        if k < prev.len() {
            lemma_cells_in_range(sc, s1, s2, i, j - 1, b, k);
        }
    }
}

/// No cell is listed for a score that is not positive.
pub proof fn lemma_cells_scoring_nonpositive(
    sc: ScoringConfig,
    s1: Seq<u8>,
    s2: Seq<u8>,
    i: int,
    j: int,
    b: int,
)
    requires
        b <= 0,
    ensures
        cells_scoring(sc, s1, s2, i, j, b) == Seq::<(int, int)>::empty(),
    decreases i, j,
{
    if i <= 0 {
    } else if j <= 0 {
        lemma_cells_scoring_nonpositive(sc, s1, s2, i - 1, s2.len() as int, b);
    } else {
        lemma_cells_scoring_nonpositive(sc, s1, s2, i, j - 1, b);
    }
}

/// Checks the gap model and both sequences, in that order.
fn check_inputs(scoring: &ScoringConfig, seq1: &[u8], seq2: &[u8]) -> (r: Result<(), AlignmentError>)
    ensures
        r is Ok <==> !scoring.spec_is_affine() && scoring.scorer.accepts_all(seq1@)
            && scoring.scorer.accepts_all(seq2@),
        r matches Err(e) ==> (if scoring.spec_is_affine() {
            e matches AlignmentError::Other(msg) && msg@ == affine_gap_message(
                scoring.gap_open,
                scoring.gap_extend,
            )
        } else if !scoring.scorer.accepts_all(seq1@) {
            rejects_first(scoring.scorer, seq1@, e)
        } else {
            rejects_first(scoring.scorer, seq2@, e)
        }),
{
    match scoring.ensure_linear() {
        Ok(()) => {},
        Err(e) => return Err(e),
    }
    match scoring.scorer.validate(seq1) {
        Ok(()) => {},
        Err(e) => return Err(e),
    }
    match scoring.scorer.validate(seq2) {
        Ok(()) => {},
        Err(e) => return Err(e),
    }
    Ok(())
}

/// Global alignment (Needleman–Wunsch), with every optimal alignment.
#[derive(Debug, Clone)]
pub struct GlobalAligner {
    scoring: ScoringConfig,
}

impl GlobalAligner {
    /// The scoring this aligner uses.
    pub closed spec fn config(self) -> ScoringConfig {
        self.scoring
    }

    pub fn new(scoring: ScoringConfig) -> (r: Self)
        ensures
            r.config() == scoring,
    {
        GlobalAligner { scoring }
    }

    /// An aligner with the default scoring.
    pub fn with_defaults() -> (r: Self)
        ensures
            r.config() == (ScoringConfig {
                scorer: SubstitutionScorer::Simple { match_score: 3i32, mismatch_score: -1i32 },
                gap_open: -2i32,
                gap_extend: -2i32,
            }),
    {
        Self::new(ScoringConfig::default())
    }

    /// A matrix with the global borders: cell (0, 0) scores 0, row 0 and
    /// column 0 carry the gap cost of their distance, with left and up arrows.
    fn initialize_matrix(&self, n: usize, m: usize) -> (r: DPMatrix)
        requires
            matrix_fits(n as int, m as int),
        ensures
            r.wf(),
            r.rows == n + 1,
            r.cols == m + 1,
            forall|s1: Seq<u8>, s2: Seq<u8>, i: int|
                s1.len() == n && s2.len() == m && 0 <= i <= n ==> #[trigger] holds_dp(
                    r,
                    self.scoring,
                    s1,
                    s2,
                    false,
                    i,
                    0,
                ),
            forall|s1: Seq<u8>, s2: Seq<u8>, j: int|
                s1.len() == n && s2.len() == m && 0 <= j <= m ==> #[trigger] holds_dp(
                    r,
                    self.scoring,
                    s1,
                    s2,
                    false,
                    0,
                    j,
                ),
            forall|i: int, j: int|
                1 <= i <= n && 1 <= j <= m ==> (#[trigger] r.spec_cell(i, j)).score == i32::MIN
                    && r.spec_cell(i, j).arrows@ == 0,
    {
        proof {
            lemma_fits(n as int, m as int);
        }
        let mut matrix = DPMatrix::new(n + 1, m + 1);
        matrix.set(0, 0, Cell::new(0));
        let mut i: usize = 1;
        while i <= n
            invariant
                1 <= i <= n + 1,
                n + 1 <= usize::MAX,
                matrix.wf(),
                matrix.rows == n + 1,
                matrix.cols == m + 1,
                forall|a: int, b: int|
                    1 <= a <= n && 1 <= b <= m ==> (#[trigger] matrix.spec_cell(a, b)).score
                        == i32::MIN && matrix.spec_cell(a, b).arrows@ == 0,
                matrix.spec_cell(0, 0).score == 0,
                matrix.spec_cell(0, 0).arrows@ == 0,
                forall|r: int|
                    1 <= r < i ==> (#[trigger] matrix.spec_cell(r, 0)).score
                        == self.scoring.spec_gap_penalty(r) && matrix.spec_cell(r, 0).arrows@ == 2,
            decreases n + 1 - i,
        {
            let score = self.scoring.gap_penalty(i);
            let mut arrows = Arrows::new();
            arrows.set_up();
            assert((0u8 | 2u8) == 2u8) by (bit_vector);
            matrix.set(i, 0, Cell::with_arrows(score, arrows));
            i += 1;
        }
        let mut j: usize = 1;
        while j <= m
            invariant
                1 <= j <= m + 1,
                m + 1 <= usize::MAX,
                matrix.wf(),
                matrix.rows == n + 1,
                matrix.cols == m + 1,
                forall|a: int, b: int|
                    1 <= a <= n && 1 <= b <= m ==> (#[trigger] matrix.spec_cell(a, b)).score
                        == i32::MIN && matrix.spec_cell(a, b).arrows@ == 0,
                matrix.spec_cell(0, 0).score == 0,
                matrix.spec_cell(0, 0).arrows@ == 0,
                forall|r: int|
                    1 <= r <= n ==> (#[trigger] matrix.spec_cell(r, 0)).score
                        == self.scoring.spec_gap_penalty(r) && matrix.spec_cell(r, 0).arrows@ == 2,
                forall|c: int|
                    1 <= c < j ==> (#[trigger] matrix.spec_cell(0, c)).score
                        == self.scoring.spec_gap_penalty(c) && matrix.spec_cell(0, c).arrows@ == 4,
            decreases m + 1 - j,
        {
            let score = self.scoring.gap_penalty(j);
            let mut arrows = Arrows::new();
            arrows.set_left();
            assert((0u8 | 4u8) == 4u8) by (bit_vector);
            let ghost before = matrix;
            matrix.set(0, j, Cell::with_arrows(score, arrows));
            assert forall|r: int| 1 <= r <= n implies (#[trigger] matrix.spec_cell(r, 0)).score
                == self.scoring.spec_gap_penalty(r) && matrix.spec_cell(r, 0).arrows@ == 2 by {
                assert(matrix.spec_cell(r, 0) == before.spec_cell(r, 0));
            }
            j += 1;
        }
        matrix
    }
}

impl Aligner for GlobalAligner {
    open spec fn outcome(
        &self,
        seq1: Seq<u8>,
        seq2: Seq<u8>,
        r: Result<AlignmentResult, AlignmentError>,
    ) -> bool {
        alignment_outcome(self.config(), seq1, seq2, false, r)
    }

    fn align(&self, seq1: &[u8], seq2: &[u8]) -> (r: Result<AlignmentResult, AlignmentError>) {
        let n = seq1.len();
        let m = seq2.len();
        match check_inputs(&self.scoring, seq1, seq2) {
            Ok(()) => {},
            Err(e) => return Err(e),
        }
        let matrix = self.initialize_matrix(n, m);
        run_alignment(&self.scoring, seq1, seq2, false, matrix)
    }
}

/// Local alignment (Smith–Waterman), with every optimal alignment.
#[derive(Debug, Clone)]
pub struct LocalAligner {
    scoring: ScoringConfig,
}

impl LocalAligner {
    /// The scoring this aligner uses.
    pub closed spec fn config(self) -> ScoringConfig {
        self.scoring
    }

    pub fn new(scoring: ScoringConfig) -> (r: Self)
        ensures
            r.config() == scoring,
    {
        LocalAligner { scoring }
    }

    /// An aligner with the default scoring.
    pub fn with_defaults() -> (r: Self)
        ensures
            r.config() == (ScoringConfig {
                scorer: SubstitutionScorer::Simple { match_score: 3i32, mismatch_score: -1i32 },
                gap_open: -2i32,
                gap_extend: -2i32,
            }),
    {
        Self::new(ScoringConfig::default())
    }

    /// A matrix whose row 0 and column 0 score 0 with no arrows: an alignment
    /// may start anywhere.
    fn initialize_matrix(&self, n: usize, m: usize) -> (r: DPMatrix)
        requires
            matrix_fits(n as int, m as int),
        ensures
            r.wf(),
            r.rows == n + 1,
            r.cols == m + 1,
            forall|i: int|
                0 <= i <= n ==> (#[trigger] r.spec_cell(i, 0)).score == 0 && r.spec_cell(i, 0).arrows@
                    == 0,
            forall|j: int|
                0 <= j <= m ==> (#[trigger] r.spec_cell(0, j)).score == 0 && r.spec_cell(0, j).arrows@
                    == 0,
            forall|i: int, j: int|
                1 <= i <= n && 1 <= j <= m ==> (#[trigger] r.spec_cell(i, j)).score == i32::MIN
                    && r.spec_cell(i, j).arrows@ == 0,
    {
        proof {
            lemma_fits(n as int, m as int);
        }
        let mut matrix = DPMatrix::new(n + 1, m + 1);
        let mut i: usize = 0;
        while i <= n
            invariant
                i <= n + 1,
                n + 1 <= usize::MAX,
                matrix.wf(),
                matrix.rows == n + 1,
                matrix.cols == m + 1,
                forall|a: int, b: int|
                    1 <= a <= n && 1 <= b <= m ==> (#[trigger] matrix.spec_cell(a, b)).score
                        == i32::MIN && matrix.spec_cell(a, b).arrows@ == 0,
                forall|r: int|
                    0 <= r < i ==> (#[trigger] matrix.spec_cell(r, 0)).score == 0
                        && matrix.spec_cell(r, 0).arrows@ == 0,
            decreases n + 1 - i,
        {
            matrix.set(i, 0, Cell::new(0));
            i += 1;
        }
        let mut j: usize = 0;
        while j <= m
            invariant
                j <= m + 1,
                m + 1 <= usize::MAX,
                matrix.wf(),
                matrix.rows == n + 1,
                matrix.cols == m + 1,
                forall|a: int, b: int|
                    1 <= a <= n && 1 <= b <= m ==> (#[trigger] matrix.spec_cell(a, b)).score
                        == i32::MIN && matrix.spec_cell(a, b).arrows@ == 0,
                forall|r: int|
                    0 <= r <= n ==> (#[trigger] matrix.spec_cell(r, 0)).score == 0
                        && matrix.spec_cell(r, 0).arrows@ == 0,
                forall|c: int|
                    0 <= c < j ==> (#[trigger] matrix.spec_cell(0, c)).score == 0
                        && matrix.spec_cell(0, c).arrows@ == 0,
            decreases m + 1 - j,
        {
            let ghost before = matrix;
            matrix.set(0, j, Cell::new(0));
            assert forall|r: int| 0 <= r <= n implies (#[trigger] matrix.spec_cell(r, 0)).score == 0
                && matrix.spec_cell(r, 0).arrows@ == 0 by {
                if r != 0 || j != 0 {
                    assert(matrix.spec_cell(r, 0) == before.spec_cell(r, 0));
                }
            }
            j += 1;
        }
        matrix
    }
}

impl Aligner for LocalAligner {
    open spec fn outcome(
        &self,
        seq1: Seq<u8>,
        seq2: Seq<u8>,
        r: Result<AlignmentResult, AlignmentError>,
    ) -> bool {
        alignment_outcome(self.config(), seq1, seq2, true, r)
    }

    fn align(&self, seq1: &[u8], seq2: &[u8]) -> (r: Result<AlignmentResult, AlignmentError>) {
        let n = seq1.len();
        let m = seq2.len();
        match check_inputs(&self.scoring, seq1, seq2) {
            Ok(()) => {},
            Err(e) => return Err(e),
        }
        let matrix = self.initialize_matrix(n, m);
        assert forall|i: int| 0 <= i <= n implies #[trigger] holds_dp(
            matrix,
            self.scoring,
            seq1@,
            seq2@,
            true,
            i,
            0,
        ) by {
            assert(matrix.spec_cell(i, 0).score == 0);
        }
        assert forall|j: int| 0 <= j <= m implies #[trigger] holds_dp(
            matrix,
            self.scoring,
            seq1@,
            seq2@,
            true,
            0,
            j,
        ) by {
            assert(matrix.spec_cell(0, j).score == 0);
        }
        run_alignment(&self.scoring, seq1, seq2, true, matrix)
    }
}

} // verus!
