//! The flattened view of an alignment result that the boundary layer
//! encodes: the matrix as separate score and arrow arrays, paths as pairs.

use vstd::prelude::*;

use crate::alignment::{pair_views, path_views, AlignedPair, AlignmentResult, Cell, DPMatrix, TracebackStep};
use crate::scoring::ScoringConfig;

verus! {

/// The matrix as its dimensions and two row-major arrays.
#[derive(Debug)]
pub struct DPMatrixOutput {
    pub rows: usize,
    pub cols: usize,
    pub scores: Vec<i32>,
    pub arrows: Vec<u8>,
}

impl DPMatrixOutput {
    pub fn from(matrix: &DPMatrix) -> (r: Self)
        ensures
            r.rows == matrix.rows,
            r.cols == matrix.cols,
            r.scores@ == matrix.cells@.map_values(|c: Cell| c.score),
            r.arrows@ == matrix.cells@.map_values(|c: Cell| c.arrows@),
    {
        let mut scores: Vec<i32> = Vec::with_capacity(matrix.cells.len());
        let mut arrows: Vec<u8> = Vec::with_capacity(matrix.cells.len());
        let mut k: usize = 0;
        while k < matrix.cells.len()
            invariant
                k <= matrix.cells@.len(),
                scores@ == matrix.cells@.subrange(0, k as int).map_values(|c: Cell| c.score),
                arrows@ == matrix.cells@.subrange(0, k as int).map_values(|c: Cell| c.arrows@),
            decreases matrix.cells@.len() - k,
        {
            scores.push(matrix.cells[k].score);
            arrows.push(matrix.cells[k].arrows.bits());
            k += 1;
            assert(scores@ =~= matrix.cells@.subrange(0, k as int).map_values(|c: Cell| c.score));
            assert(arrows@ =~= matrix.cells@.subrange(0, k as int).map_values(|c: Cell| c.arrows@));
        }
        assert(matrix.cells@.subrange(0, matrix.cells@.len() as int) =~= matrix.cells@);
        DPMatrixOutput { rows: matrix.rows, cols: matrix.cols, scores, arrows }
    }
}

/// An aligned pair as two texts.
#[derive(Debug)]
pub struct AlignmentOutput {
    pub seq1: String,
    pub seq2: String,
}

impl AlignmentOutput {
    pub fn from(pair: &AlignedPair) -> (r: Self)
        ensures
            r.seq1@ == pair.seq1_aligned@,
            r.seq2@ == pair.seq2_aligned@,
    {
        AlignmentOutput { seq1: pair.seq1_aligned.clone(), seq2: pair.seq2_aligned.clone() }
    }
}

/// The coordinates of paths written as `[row, col]` pairs.
pub open spec fn pair_paths(v: Seq<Vec<[usize; 2]>>) -> Seq<Seq<(int, int)>> {
    v.map_values(|p: Vec<[usize; 2]>| p@.map_values(|c: [usize; 2]| (c@[0] as int, c@[1] as int)))
}

/// The texts of aligned pairs in output form.
pub open spec fn output_texts(v: Seq<AlignmentOutput>) -> Seq<(Seq<char>, Seq<char>)> {
    v.map_values(|a: AlignmentOutput| (a.seq1@, a.seq2@))
}

/// The complete output of an alignment.
#[derive(Debug)]
pub struct AlignmentResultOutput {
    pub seq1: String,
    pub seq2: String,
    pub alignment_score: i32,
    pub scoring: ScoringConfig,
    pub alignments: Vec<AlignmentOutput>,
    pub traceback_paths: Vec<Vec<[usize; 2]>>,
    pub dp_matrix: DPMatrixOutput,
}

fn path_pairs(steps: &Vec<TracebackStep>) -> (r: Vec<[usize; 2]>)
    ensures
        r@.map_values(|c: [usize; 2]| (c@[0] as int, c@[1] as int)) == steps@.map_values(
            |s: TracebackStep| (s.i as int, s.j as int),
        ),
{
    let mut r: Vec<[usize; 2]> = Vec::with_capacity(steps.len());
    let mut k: usize = 0;
    while k < steps.len()
        invariant
            k <= steps@.len(),
            r@.len() == k,
            forall|x: int|
                0 <= x < k ==> (#[trigger] r@[x])@[0] == steps@[x].i && r@[x]@[1] == steps@[x].j,
        decreases steps@.len() - k,
    {
        let pair: [usize; 2] = [steps[k].i, steps[k].j];
        r.push(pair);
        k += 1;
    }
    assert(r@.map_values(|c: [usize; 2]| (c@[0] as int, c@[1] as int)) =~= steps@.map_values(
        |s: TracebackStep| (s.i as int, s.j as int),
    ));
    r
}

impl AlignmentResultOutput {
    pub fn from(result: &AlignmentResult) -> (r: Self)
        ensures
            r.seq1@ == result.seq1@,
            r.seq2@ == result.seq2@,
            r.alignment_score == result.final_score,
            r.scoring == result.scoring,
            output_texts(r.alignments@) == pair_views(result.alignments@),
            pair_paths(r.traceback_paths@) == path_views(result.traceback_paths@),
            r.dp_matrix.rows == result.matrix.rows,
            r.dp_matrix.cols == result.matrix.cols,
            r.dp_matrix.scores@ == result.matrix.cells@.map_values(|c: Cell| c.score),
            r.dp_matrix.arrows@ == result.matrix.cells@.map_values(|c: Cell| c.arrows@),
    {
        let mut traceback_paths: Vec<Vec<[usize; 2]>> = Vec::with_capacity(
            result.traceback_paths.len(),
        );
        let mut k: usize = 0;
        while k < result.traceback_paths.len()
            invariant
                k <= result.traceback_paths@.len(),
                pair_paths(traceback_paths@) == path_views(result.traceback_paths@).subrange(
                    0,
                    k as int,
                ),
            decreases result.traceback_paths@.len() - k,
        {
            let p = path_pairs(&result.traceback_paths[k].steps);
            let ghost before = traceback_paths@;
            traceback_paths.push(p);
            k += 1;
            assert(pair_paths(traceback_paths@) =~= pair_paths(before).push(
                path_views(result.traceback_paths@)[k - 1],
            ));
            assert(path_views(result.traceback_paths@).subrange(0, k as int) =~= path_views(
                result.traceback_paths@,
            ).subrange(0, k - 1).push(path_views(result.traceback_paths@)[k - 1]));
        }
        let mut alignments: Vec<AlignmentOutput> = Vec::with_capacity(result.alignments.len());
        let mut k: usize = 0;
        while k < result.alignments.len()
            invariant
                k <= result.alignments@.len(),
                output_texts(alignments@) == pair_views(result.alignments@).subrange(0, k as int),
            decreases result.alignments@.len() - k,
        {
            let a = AlignmentOutput::from(&result.alignments[k]);
            let ghost before = alignments@;
            alignments.push(a);
            k += 1;
            assert(output_texts(alignments@) =~= output_texts(before).push(
                pair_views(result.alignments@)[k - 1],
            ));
            assert(pair_views(result.alignments@).subrange(0, k as int) =~= pair_views(
                result.alignments@,
            ).subrange(0, k - 1).push(pair_views(result.alignments@)[k - 1]));
        }
        assert(path_views(result.traceback_paths@).subrange(
            0,
            result.traceback_paths@.len() as int,
        ) =~= path_views(result.traceback_paths@));
        assert(pair_views(result.alignments@).subrange(0, result.alignments@.len() as int)
            =~= pair_views(result.alignments@));
        AlignmentResultOutput {
            seq1: result.seq1.clone(),
            seq2: result.seq2.clone(),
            alignment_score: result.final_score,
            scoring: result.scoring,
            alignments,
            traceback_paths,
            dp_matrix: DPMatrixOutput::from(&result.matrix),
        }
    }
}

} // verus!
