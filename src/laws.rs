//! What holds of every alignment the library computes.

use vstd::prelude::*;

use crate::aligners::{
    final_score_of, is_alignment_of, lemma_cells_in_range, lemma_cells_scoring_nonpositive,
    start_cells,
};
use crate::alignment::{
    all_traces, best_upto, candidates, cells_scoring, diagonal_branches, dp_arrows, dp_score,
    extend_all, has_bit, holds_dp, left_branches, pair_views, path_views, stops_at, trace_paths,
    is_filled, trace_texts, traces, up_branches, DPMatrix, Trace, GAP,
};
use crate::matrices::chars_of;
use crate::scoring::{clamp_i32, ScoringConfig, SubstitutionScorer};

verus! {

/// `s` with every gap marker removed.
pub open spec fn ungapped(s: Seq<u8>) -> Seq<u8>
    decreases s.len(),
{
    if s.len() == 0 {
        s
    } else if s.last() == GAP {
        ungapped(s.drop_last())
    } else {
        ungapped(s.drop_last()).push(s.last())
    }
}

/// Whether `s` holds no gap marker.
pub open spec fn gap_free(s: Seq<u8>) -> bool {
    forall|k: int| 0 <= k < s.len() ==> #[trigger] s[k] != GAP
}

/// `n` gap markers.
pub open spec fn gaps(n: nat) -> Seq<u8> {
    Seq::new(n, |k: int| GAP)
}

/// In local mode no cell of the completed matrix scores below zero, and
/// row 0 and column 0 score exactly zero.
pub proof fn local_scores_are_nonnegative(
    sc: ScoringConfig,
    s1: Seq<u8>,
    s2: Seq<u8>,
    res: crate::alignment::AlignmentResult,
)
    requires
        is_alignment_of(sc, s1, s2, true, res),
    ensures
        forall|i: int, j: int|
            0 <= i <= s1.len() && 0 <= j <= s2.len() ==> #[trigger] res.matrix.spec_cell(i, j).score
                >= 0,
        forall|i: int| 0 <= i <= s1.len() ==> #[trigger] res.matrix.spec_cell(i, 0).score == 0,
        forall|j: int| 0 <= j <= s2.len() ==> #[trigger] res.matrix.spec_cell(0, j).score == 0,
{
    reveal(is_alignment_of);
    assert forall|i: int, j: int| 0 <= i <= s1.len() && 0 <= j <= s2.len() implies #[trigger] res.matrix.spec_cell(
        i,
        j,
    ).score >= 0 by {
        assert(holds_dp(res.matrix, sc, s1, s2, true, i, j));
    }
    assert forall|i: int| 0 <= i <= s1.len() implies #[trigger] res.matrix.spec_cell(i, 0).score
        == 0 by {
        assert(holds_dp(res.matrix, sc, s1, s2, true, i, 0));
    }
    assert forall|j: int| 0 <= j <= s2.len() implies #[trigger] res.matrix.spec_cell(0, j).score
        == 0 by {
        assert(holds_dp(res.matrix, sc, s1, s2, true, 0, j));
    }
}

proof fn lemma_ungapped_push(s: Seq<u8>, c: u8)
    ensures
        ungapped(s.push(c)) == (if c == GAP {
            ungapped(s)
        } else {
            ungapped(s).push(c)
        }),
{
    assert(s.push(c).drop_last() =~= s);
}

/// Each branch from cell (`i`, `j`) has two rows of equal length which,
/// with gaps removed, are the residues between its stop cell and (`i`, `j`).
pub proof fn lemma_trace_rows(
    m: DPMatrix,
    s1: Seq<u8>,
    s2: Seq<u8>,
    local: bool,
    i: int,
    j: int,
    k: int,
)
    requires
        0 <= i <= s1.len(),
        0 <= j <= s2.len(),
        gap_free(s1),
        gap_free(s2),
        0 <= k < traces(m, s1, s2, local, i, j).len(),
    ensures
        ({
            let t = traces(m, s1, s2, local, i, j)[k];
            let stop = t.0.last();
            &&& t.0.len() > 0
            &&& t.1.len() == t.2.len()
            &&& 0 <= stop.0 <= i
            &&& 0 <= stop.1 <= j
            &&& stops_at(m, local, stop.0, stop.1)
            &&& ungapped(t.1) == s1.subrange(stop.0, i)
            &&& ungapped(t.2) == s2.subrange(stop.1, j)
        }),
    decreases i + j,
{
    let ts = traces(m, s1, s2, local, i, j);
    if stops_at(m, local, i, j) {
        assert(s1.subrange(i, i) =~= Seq::<u8>::empty());
        assert(s2.subrange(j, j) =~= Seq::<u8>::empty());
    } else {
        let dg = diagonal_branches(m, s1, s2, local, i, j);
        let ub = up_branches(m, s1, s2, local, i, j);
        let lb = left_branches(m, s1, s2, local, i, j);
        assert(ts == dg + ub + lb);
        if k < dg.len() {
            let inner = traces(m, s1, s2, local, i - 1, j - 1);
            lemma_trace_rows(m, s1, s2, local, i - 1, j - 1, k);
            let t0 = inner[k];
            lemma_ungapped_push(t0.1, s1[i - 1]);
            lemma_ungapped_push(t0.2, s2[j - 1]);
            assert(s1.subrange(t0.0.last().0, i) =~= s1.subrange(t0.0.last().0, i - 1).push(s1[i - 1]));
            assert(s2.subrange(t0.0.last().1, j) =~= s2.subrange(t0.0.last().1, j - 1).push(s2[j - 1]));
            assert((seq![(i, j)] + t0.0).last() == t0.0.last());
        } else if k < dg.len() + ub.len() {
            let inner = traces(m, s1, s2, local, i - 1, j);
            let k2 = k - dg.len();
            assert(ts[k] == ub[k2]);
            lemma_trace_rows(m, s1, s2, local, i - 1, j, k2);
            let t0 = inner[k2];
            lemma_ungapped_push(t0.1, s1[i - 1]);
            lemma_ungapped_push(t0.2, GAP);
            assert(s1.subrange(t0.0.last().0, i) =~= s1.subrange(t0.0.last().0, i - 1).push(s1[i - 1]));
            assert((seq![(i, j)] + t0.0).last() == t0.0.last());
        } else {
            let inner = traces(m, s1, s2, local, i, j - 1);
            let k2 = k - dg.len() - ub.len();
            assert(ts[k] == lb[k2]);
            lemma_trace_rows(m, s1, s2, local, i, j - 1, k2);
            let t0 = inner[k2];
            lemma_ungapped_push(t0.1, GAP);
            lemma_ungapped_push(t0.2, s2[j - 1]);
            assert(s2.subrange(t0.0.last().1, j) =~= s2.subrange(t0.0.last().1, j - 1).push(s2[j - 1]));
            assert((seq![(i, j)] + t0.0).last() == t0.0.last());
        }
    }
}

/// The branches of a single start cell are those of that cell.
pub proof fn lemma_single_start(m: DPMatrix, s1: Seq<u8>, s2: Seq<u8>, local: bool, i: int, j: int)
    ensures
        all_traces(m, s1, s2, local, seq![(i, j)]) == traces(m, s1, s2, local, i, j),
{
    let starts = seq![(i, j)];
    assert(starts.drop_last() =~= Seq::<(int, int)>::empty());
    assert(all_traces(m, s1, s2, local, starts.drop_last()) == Seq::<Trace>::empty());
    assert(Seq::<Trace>::empty() + traces(m, s1, s2, local, i, j) =~= traces(m, s1, s2, local, i, j));
}

/// Global branches from the last cell cover both sequences.
proof fn lemma_global_rows(m: DPMatrix, s1: Seq<u8>, s2: Seq<u8>, k: int)
    requires
        gap_free(s1),
        gap_free(s2),
        0 <= k < traces(m, s1, s2, false, s1.len() as int, s2.len() as int).len(),
    ensures
        ({
            let t = traces(m, s1, s2, false, s1.len() as int, s2.len() as int)[k];
            t.1.len() == t.2.len() && ungapped(t.1) == s1 && ungapped(t.2) == s2
        }),
{
    lemma_trace_rows(m, s1, s2, false, s1.len() as int, s2.len() as int, k);
    assert(s1.subrange(0, s1.len() as int) =~= s1);
    assert(s2.subrange(0, s2.len() as int) =~= s2);
}

/// Text `s` with every gap marker removed.
pub open spec fn ungapped_text(s: Seq<char>) -> Seq<char>
    decreases s.len(),
{
    if s.len() == 0 {
        s
    } else if s.last() == '-' {
        ungapped_text(s.drop_last())
    } else {
        ungapped_text(s.drop_last()).push(s.last())
    }
}

proof fn lemma_chars_ungapped(x: Seq<u8>)
    ensures
        ungapped_text(chars_of(x)) == chars_of(ungapped(x)),
        chars_of(x).len() == x.len(),
    decreases x.len(),
{
    if x.len() > 0 {
        lemma_chars_ungapped(x.drop_last());
        assert(chars_of(x).drop_last() =~= chars_of(x.drop_last()));
        assert(chars_of(x).last() == x.last() as char);
        assert((x.last() as char == '-') == (x.last() == GAP));
        if x.last() != GAP {
            assert(chars_of(ungapped(x.drop_last()).push(x.last())) =~= chars_of(
                ungapped(x.drop_last()),
            ).push(x.last() as char));
        }
    }
}

/// Texts of global branches, each the pair of rows of one branch.
proof fn lemma_global_texts(m: DPMatrix, s1: Seq<u8>, s2: Seq<u8>, texts: Seq<(Seq<char>, Seq<char>)>)
    requires
        gap_free(s1),
        gap_free(s2),
        texts == trace_texts(traces(m, s1, s2, false, s1.len() as int, s2.len() as int)),
    ensures
        forall|k: int|
            0 <= k < texts.len() ==> (#[trigger] texts[k]).0.len() == texts[k].1.len()
                && ungapped_text(texts[k].0) == chars_of(s1) && ungapped_text(texts[k].1)
                == chars_of(s2),
{
    let ts = traces(m, s1, s2, false, s1.len() as int, s2.len() as int);
    assert forall|k: int| 0 <= k < texts.len() implies (#[trigger] texts[k]).0.len()
        == texts[k].1.len() && ungapped_text(texts[k].0) == chars_of(s1) && ungapped_text(
        texts[k].1,
    ) == chars_of(s2) by {
        lemma_global_rows(m, s1, s2, k);
        let t = ts[k];
        assert(texts[k] == (chars_of(t.1), chars_of(t.2)));
        lemma_chars_ungapped(t.1);
        lemma_chars_ungapped(t.2);
    }
}

/// Global mode: in each returned alignment both aligned texts have the same
/// length and, with gap markers removed, are exactly the two input
/// sequences (when neither holds a gap marker itself).
pub proof fn global_alignments_round_trip(
    sc: ScoringConfig,
    s1: Seq<u8>,
    s2: Seq<u8>,
    res: crate::alignment::AlignmentResult,
)
    requires
        is_alignment_of(sc, s1, s2, false, res),
        gap_free(s1),
        gap_free(s2),
    ensures
        forall|k: int|
            0 <= k < res.alignments@.len() ==> (#[trigger] res.alignments@[k]).seq1_aligned@.len()
                == res.alignments@[k].seq2_aligned@.len() && ungapped_text(
                res.alignments@[k].seq1_aligned@,
            ) == chars_of(s1) && ungapped_text(res.alignments@[k].seq2_aligned@) == chars_of(s2),
{
    let n = s1.len() as int;
    let m = s2.len() as int;
    let texts = pair_views(res.alignments@);
    assert(texts == trace_texts(traces(res.matrix, s1, s2, false, n, m))) by {
        reveal(is_alignment_of);
        lemma_single_start(res.matrix, s1, s2, false, n, m);
        assert(start_cells(sc, s1, s2, false) == seq![(n, m)]);
    }
    lemma_global_texts(res.matrix, s1, s2, texts);
    assert forall|k: int| 0 <= k < res.alignments@.len() implies (
    #[trigger] res.alignments@[k]).seq1_aligned@.len() == res.alignments@[k].seq2_aligned@.len()
        && ungapped_text(res.alignments@[k].seq1_aligned@) == chars_of(s1) && ungapped_text(
        res.alignments@[k].seq2_aligned@,
    ) == chars_of(s2) by {
        assert(texts[k] == (res.alignments@[k].seq1_aligned@, res.alignments@[k].seq2_aligned@));
    }
}

proof fn lemma_local_zero(sc: ScoringConfig, s1: Seq<u8>, s2: Seq<u8>, i: int, j: int)
    requires
        sc.gap_open <= 0,
        forall|x: int, y: int|
            0 <= x < s1.len() && 0 <= y < s2.len() ==> #[trigger] sc.scorer.spec_score(s1[x], s2[y])
                <= 0,
        0 <= i <= s1.len(),
        0 <= j <= s2.len(),
    ensures
        dp_score(sc, s1, s2, true, i, j) == 0,
    decreases i + j,
{
    if i > 0 && j > 0 {
        lemma_local_zero(sc, s1, s2, i - 1, j - 1);
        lemma_local_zero(sc, s1, s2, i - 1, j);
        lemma_local_zero(sc, s1, s2, i, j - 1);
        assert(sc.scorer.spec_score(s1[i - 1], s2[j - 1]) <= 0);
    }
}

proof fn lemma_local_best_zero(sc: ScoringConfig, s1: Seq<u8>, s2: Seq<u8>, i: int, j: int)
    requires
        sc.gap_open <= 0,
        forall|x: int, y: int|
            0 <= x < s1.len() && 0 <= y < s2.len() ==> #[trigger] sc.scorer.spec_score(s1[x], s2[y])
                <= 0,
        i <= s1.len(),
        j <= s2.len(),
    ensures
        best_upto(sc, s1, s2, i, j) == 0,
    decreases i, j,
{
    if i <= 0 {
    } else if j <= 0 {
        lemma_local_best_zero(sc, s1, s2, i - 1, s2.len() as int);
    } else {
        lemma_local_best_zero(sc, s1, s2, i, j - 1);
        lemma_local_zero(sc, s1, s2, i, j);
    }
}

/// Local mode: when no pair of residues of the two sequences scores above
/// zero and gaps cost something or nothing, every cell scores zero, the
/// final score is 0 and no alignment is returned.
pub proof fn local_without_similarity_is_empty(
    sc: ScoringConfig,
    s1: Seq<u8>,
    s2: Seq<u8>,
    res: crate::alignment::AlignmentResult,
)
    requires
        is_alignment_of(sc, s1, s2, true, res),
        sc.gap_open <= 0,
        forall|x: int, y: int|
            0 <= x < s1.len() && 0 <= y < s2.len() ==> #[trigger] sc.scorer.spec_score(s1[x], s2[y])
                <= 0,
    ensures
        res.final_score == 0,
        res.alignments@.len() == 0,
        res.traceback_paths@.len() == 0,
{
    let n = s1.len() as int;
    let m = s2.len() as int;
    lemma_local_best_zero(sc, s1, s2, n, m);
    lemma_cells_scoring_nonpositive(sc, s1, s2, n, m, 0);
    assert(start_cells(sc, s1, s2, true) == Seq::<(int, int)>::empty());
    assert(all_traces(res.matrix, s1, s2, true, Seq::<(int, int)>::empty()) == Seq::<Trace>::empty());
    assert(res.final_score == final_score_of(sc, s1, s2, true) && pair_views(res.alignments@)
        == trace_texts(all_traces(res.matrix, s1, s2, true, start_cells(sc, s1, s2, true)))
        && path_views(res.traceback_paths@) == trace_paths(
        all_traces(res.matrix, s1, s2, true, start_cells(sc, s1, s2, true)),
    )) by {
        reveal(is_alignment_of);
    }
    assert(pair_views(res.alignments@).len() == res.alignments@.len());
    assert(path_views(res.traceback_paths@).len() == res.traceback_paths@.len());
}

proof fn lemma_bits_up_left()
    ensures
        !has_bit(2, 1) && has_bit(2, 2) && !has_bit(2, 4),
        !has_bit(4, 1) && !has_bit(4, 2) && has_bit(4, 4),
{
    assert((2u8 & 1u8) == 0 && (2u8 & 2u8) != 0 && (2u8 & 4u8) == 0) by (bit_vector);
    assert((4u8 & 1u8) == 0 && (4u8 & 2u8) == 0 && (4u8 & 4u8) != 0) by (bit_vector);
}

/// With an empty second sequence, the one global branch from (`i`, 0) runs
/// up column 0.
proof fn lemma_column_traces(m: DPMatrix, sc: ScoringConfig, s1: Seq<u8>, s2: Seq<u8>, i: int)
    requires
        is_filled(m, sc, s1, s2, false),
        s2.len() == 0,
        0 <= i <= s1.len(),
    ensures
        traces(m, s1, s2, false, i, 0).len() == 1,
        traces(m, s1, s2, false, i, 0)[0].1 == s1.subrange(0, i),
        traces(m, s1, s2, false, i, 0)[0].2 == gaps(i as nat),
    decreases i,
{
    if i == 0 {
        assert(s1.subrange(0, 0) =~= Seq::<u8>::empty());
        assert(gaps(0) =~= Seq::<u8>::empty());
    } else {
        assert(holds_dp(m, sc, s1, s2, false, i, 0));
        lemma_bits_up_left();
        lemma_column_traces(m, sc, s1, s2, i - 1);
        let inner = traces(m, s1, s2, false, i - 1, 0);
        assert(diagonal_branches(m, s1, s2, false, i, 0) == Seq::<Trace>::empty());
        assert(left_branches(m, s1, s2, false, i, 0) == Seq::<Trace>::empty());
        assert(traces(m, s1, s2, false, i, 0) =~= extend_all(inner, i, 0, s1[i - 1], GAP));
        assert(s1.subrange(0, i) =~= s1.subrange(0, i - 1).push(s1[i - 1]));
        assert(gaps(i as nat) =~= gaps((i - 1) as nat).push(GAP));
    }
}

/// With an empty first sequence, the one global branch from (0, `j`) runs
/// along row 0.
proof fn lemma_row_traces(m: DPMatrix, sc: ScoringConfig, s1: Seq<u8>, s2: Seq<u8>, j: int)
    requires
        is_filled(m, sc, s1, s2, false),
        s1.len() == 0,
        0 <= j <= s2.len(),
    ensures
        traces(m, s1, s2, false, 0, j).len() == 1,
        traces(m, s1, s2, false, 0, j)[0].1 == gaps(j as nat),
        traces(m, s1, s2, false, 0, j)[0].2 == s2.subrange(0, j),
    decreases j,
{
    if j == 0 {
        assert(s2.subrange(0, 0) =~= Seq::<u8>::empty());
        assert(gaps(0) =~= Seq::<u8>::empty());
    } else {
        assert(holds_dp(m, sc, s1, s2, false, 0, j));
        lemma_bits_up_left();
        lemma_row_traces(m, sc, s1, s2, j - 1);
        let inner = traces(m, s1, s2, false, 0, j - 1);
        assert(diagonal_branches(m, s1, s2, false, 0, j) == Seq::<Trace>::empty());
        assert(up_branches(m, s1, s2, false, 0, j) == Seq::<Trace>::empty());
        assert(traces(m, s1, s2, false, 0, j) =~= extend_all(inner, 0, j, GAP, s2[j - 1]));
        assert(s2.subrange(0, j) =~= s2.subrange(0, j - 1).push(s2[j - 1]));
        assert(gaps(j as nat) =~= gaps((j - 1) as nat).push(GAP));
    }
}

/// Global mode against an empty second sequence (linear gaps): the final
/// score is the gap cost of the whole first sequence, and the single
/// alignment sets the first sequence against gap markers only.
pub proof fn global_against_empty_second(
    sc: ScoringConfig,
    s1: Seq<u8>,
    res: crate::alignment::AlignmentResult,
)
    requires
        is_alignment_of(sc, s1, Seq::<u8>::empty(), false, res),
        !sc.spec_is_affine(),
    ensures
        res.final_score == clamp_i32(sc.gap_open * s1.len()),
        res.alignments@.len() == 1,
        res.alignments@[0].seq1_aligned@ == chars_of(s1),
        res.alignments@[0].seq2_aligned@ == chars_of(gaps(s1.len())),
{
    let s2 = Seq::<u8>::empty();
    let n = s1.len() as int;
    let texts = pair_views(res.alignments@);
    assert(is_filled(res.matrix, sc, s1, s2, false) && res.final_score == final_score_of(
        sc,
        s1,
        s2,
        false,
    ) && texts == trace_texts(traces(res.matrix, s1, s2, false, n, 0))) by {
        reveal(is_alignment_of);
        lemma_single_start(res.matrix, s1, s2, false, n, 0);
        assert(start_cells(sc, s1, s2, false) == seq![(n, 0int)]);
    }
    lemma_column_traces(res.matrix, sc, s1, s2, n);
    assert(s1.subrange(0, n) =~= s1);
    assert(dp_score(sc, s1, s2, false, n, 0) == sc.spec_gap_penalty(n));
    assert(n == 0 ==> sc.gap_open * n == 0) by (nonlinear_arith);
    assert(sc.spec_gap_penalty(n) == clamp_i32(sc.gap_open * n));
    assert(texts.len() == res.alignments@.len());
    assert(trace_texts(traces(res.matrix, s1, s2, false, n, 0)).len() == 1);
    assert(texts[0] == (res.alignments@[0].seq1_aligned@, res.alignments@[0].seq2_aligned@));
}

/// Global mode with an empty first sequence (linear gaps): the final score
/// is the gap cost of the whole second sequence, and the single alignment
/// sets gap markers only against the second sequence.
pub proof fn global_against_empty_first(
    sc: ScoringConfig,
    s2: Seq<u8>,
    res: crate::alignment::AlignmentResult,
)
    requires
        is_alignment_of(sc, Seq::<u8>::empty(), s2, false, res),
        !sc.spec_is_affine(),
    ensures
        res.final_score == clamp_i32(sc.gap_open * s2.len()),
        res.alignments@.len() == 1,
        res.alignments@[0].seq1_aligned@ == chars_of(gaps(s2.len())),
        res.alignments@[0].seq2_aligned@ == chars_of(s2),
{
    let s1 = Seq::<u8>::empty();
    let m = s2.len() as int;
    let texts = pair_views(res.alignments@);
    assert(is_filled(res.matrix, sc, s1, s2, false) && res.final_score == final_score_of(
        sc,
        s1,
        s2,
        false,
    ) && texts == trace_texts(traces(res.matrix, s1, s2, false, 0, m))) by {
        reveal(is_alignment_of);
        lemma_single_start(res.matrix, s1, s2, false, 0, m);
        assert(start_cells(sc, s1, s2, false) == seq![(0int, m)]);
    }
    lemma_row_traces(res.matrix, sc, s1, s2, m);
    assert(s2.subrange(0, m) =~= s2);
    assert(dp_score(sc, s1, s2, false, 0, m) == sc.spec_gap_penalty(m));
    assert(m == 0 ==> sc.gap_open * m == 0) by (nonlinear_arith);
    assert(sc.spec_gap_penalty(m) == clamp_i32(sc.gap_open * m));
    assert(texts.len() == res.alignments@.len());
    assert(trace_texts(traces(res.matrix, s1, s2, false, 0, m)).len() == 1);
    assert(texts[0] == (res.alignments@[0].seq1_aligned@, res.alignments@[0].seq2_aligned@));
}

/// The best a global path to (`i`, `j`) can score when a pair scores at
/// most `mt` and a gap costs `g`: a match for each diagonal step, a gap for
/// each other step.
pub open spec fn diagonal_bound(mt: int, g: int, i: int, j: int) -> int {
    if i <= j {
        i * mt + (j - i) * g
    } else {
        j * mt + (i - j) * g
    }
}

pub open spec fn abs(x: int) -> int {
    if x < 0 {
        -x
    } else {
        x
    }
}

pub open spec fn in_i32(x: int) -> bool {
    i32::MIN <= x <= i32::MAX
}

proof fn lemma_bound_in_range(mt: int, g: int, len: int, i: int, j: int)
    requires
        0 <= i <= len,
        0 <= j <= len,
        i32::MIN <= mt <= i32::MAX,
        i32::MIN <= g <= i32::MAX,
        len * (abs(mt) + 2 * abs(g)) < 0x7fff_ffff,
    ensures
        in_i32(diagonal_bound(mt, g, i, j)),
        in_i32(diagonal_bound(mt, g, i, j) + g),
        i < len && j < len ==> in_i32(diagonal_bound(mt, g, i, j) + mt),
{
    let am = abs(mt);
    let ag = abs(g);
    let lo = if i <= j { i } else { j };
    let d = if i <= j { j - i } else { i - j };
    assert(diagonal_bound(mt, g, i, j) == lo * mt + d * g);
    assert(-(lo * am) <= lo * mt <= lo * am) by (nonlinear_arith)
        requires
            0 <= lo,
            -am <= mt <= am,
    ;
    assert(-((lo + 1) * am) <= (lo + 1) * mt <= (lo + 1) * am) by (nonlinear_arith)
        requires
            0 <= lo,
            -am <= mt <= am,
    ;
    assert(-(d * ag) <= d * g <= d * ag) by (nonlinear_arith)
        requires
            0 <= d,
            -ag <= g <= ag,
    ;
    assert(lo * am <= len * am && d * ag <= len * ag) by (nonlinear_arith)
        requires
            0 <= lo <= len,
            0 <= d <= len,
            am >= 0,
            ag >= 0,
    ;
    assert(len * (am + 2 * ag) == len * am + 2 * (len * ag)) by (nonlinear_arith);
    assert(0 <= len * am && 0 <= len * ag) by (nonlinear_arith)
        requires
            0 <= len,
            am >= 0,
            ag >= 0,
    ;
    if len == 0 {
        assert(lo * mt == 0 && d * g == 0) by (nonlinear_arith)
            requires
                lo == 0,
                d == 0,
        ;
    }
    if len >= 1 {
        assert(ag <= len * ag) by (nonlinear_arith)
            requires
                len >= 1,
                ag >= 0,
        ;
    }
    if lo < len {
        assert((lo + 1) * am <= len * am) by (nonlinear_arith)
            requires
                lo + 1 <= len,
                am >= 0,
        ;
        assert(lo * mt + mt == (lo + 1) * mt) by (nonlinear_arith);
    }
}

/// Under match/mismatch scoring with a mismatch no better than a match and
/// a match better than two gaps, no global cell scores above `diagonal_bound`.
proof fn lemma_global_upper_bound(sc: ScoringConfig, s: Seq<u8>, mt: i32, mm: i32, i: int, j: int)
    requires
        sc.scorer == (SubstitutionScorer::Simple { match_score: mt, mismatch_score: mm }),
        !sc.spec_is_affine(),
        mm <= mt,
        2 * sc.gap_open < mt,
        s.len() * (abs(mt as int) + 2 * abs(sc.gap_open as int)) < 0x7fff_ffff,
        0 <= i <= s.len(),
        0 <= j <= s.len(),
    ensures
        dp_score(sc, s, s, false, i, j) <= diagonal_bound(mt as int, sc.gap_open as int, i, j),
    decreases i + j,
{
    let g = sc.gap_open as int;
    let m = mt as int;
    let len = s.len() as int;
    lemma_bound_in_range(m, g, len, i, j);
    if i == 0 && j == 0 {
    } else if j == 0 {
        assert(diagonal_bound(m, g, i, j) == i * g);
        assert(sc.spec_gap_penalty(i) == clamp_i32(g * i));
    } else if i == 0 {
        assert(diagonal_bound(m, g, i, j) == j * g);
        assert(sc.spec_gap_penalty(j) == clamp_i32(g * j));
    } else {
        lemma_global_upper_bound(sc, s, mt, mm, i - 1, j - 1);
        lemma_global_upper_bound(sc, s, mt, mm, i - 1, j);
        lemma_global_upper_bound(sc, s, mt, mm, i, j - 1);
        lemma_bound_in_range(m, g, len, i - 1, j - 1);
        lemma_bound_in_range(m, g, len, i - 1, j);
        lemma_bound_in_range(m, g, len, i, j - 1);
        let b = diagonal_bound(m, g, i, j);
        assert(diagonal_bound(m, g, i - 1, j - 1) + m == b) by (nonlinear_arith)
            requires
                i >= 1,
                j >= 1,
                b == diagonal_bound(m, g, i, j),
        ;
        assert(diagonal_bound(m, g, i - 1, j) + g <= b) by (nonlinear_arith)
            requires
                i >= 1,
                2 * g < m,
                b == diagonal_bound(m, g, i, j),
        ;
        assert(diagonal_bound(m, g, i, j - 1) + g <= b) by (nonlinear_arith)
            requires
                j >= 1,
                2 * g < m,
                b == diagonal_bound(m, g, i, j),
        ;
        assert(sub_at_le(sc, s, i, j, mt));
    }
}

spec fn sub_at_le(sc: ScoringConfig, s: Seq<u8>, i: int, j: int, mt: i32) -> bool {
    sc.scorer.spec_score(s[i - 1], s[j - 1]) <= mt
}

/// Along the diagonal of identical sequences the global score is `k × M`,
/// reached only by the diagonal step.
proof fn lemma_global_diagonal(sc: ScoringConfig, s: Seq<u8>, mt: i32, mm: i32, k: int)
    requires
        sc.scorer == (SubstitutionScorer::Simple { match_score: mt, mismatch_score: mm }),
        !sc.spec_is_affine(),
        mm <= mt,
        2 * sc.gap_open < mt,
        s.len() * (abs(mt as int) + 2 * abs(sc.gap_open as int)) < 0x7fff_ffff,
        0 <= k <= s.len(),
    ensures
        dp_score(sc, s, s, false, k, k) == k * mt,
        k >= 1 ==> dp_arrows(sc, s, s, false, k, k) == 1,
    decreases k,
{
    let g = sc.gap_open as int;
    let m = mt as int;
    let len = s.len() as int;
    if k == 0 {
        assert(0 * m == 0);
    } else {
        lemma_global_diagonal(sc, s, mt, mm, k - 1);
        lemma_global_upper_bound(sc, s, mt, mm, k - 1, k);
        lemma_global_upper_bound(sc, s, mt, mm, k, k - 1);
        lemma_bound_in_range(m, g, len, k - 1, k);
        lemma_bound_in_range(m, g, len, k, k - 1);
        lemma_bound_in_range(m, g, len, k, k);
        lemma_bound_in_range(m, g, len, k - 1, k - 1);
        assert(diagonal_bound(m, g, k, k) == k * m) by (nonlinear_arith);
        assert(diagonal_bound(m, g, k - 1, k - 1) == (k - 1) * m) by (nonlinear_arith);
        assert((k - 1) * m + m == k * m) by (nonlinear_arith);
        assert(diagonal_bound(m, g, k - 1, k) + g < k * m) by (nonlinear_arith)
            requires
                k >= 1,
                2 * g < m,
        ;
        assert(diagonal_bound(m, g, k, k - 1) + g < k * m) by (nonlinear_arith)
            requires
                k >= 1,
                2 * g < m,
        ;
        assert(sc.scorer.spec_score(s[k - 1], s[k - 1]) == mt);
        lemma_arrow_mask_diag();
        let (dg, up, lf) = candidates(sc, s, s, false, k, k);
        assert(dg == k * m);
        assert(up < k * m);
        assert(lf < k * m);
        assert(dp_score(sc, s, s, false, k, k) == crate::alignment::max3(dg, up, lf));
    }
}

proof fn lemma_arrow_mask_diag()
    ensures
        crate::alignment::arrow_mask(true, false, false) == 1,
        has_bit(1, 1) && !has_bit(1, 2) && !has_bit(1, 4),
{
    assert(((1u8 | 0u8) | 0u8) == 1u8) by (bit_vector);
    assert((1u8 & 1u8) != 0 && (1u8 & 2u8) == 0 && (1u8 & 4u8) == 0) by (bit_vector);
}

/// From (`k`, `k`) of identical sequences the one global branch runs down
/// the diagonal.
proof fn lemma_diagonal_traces(
    m: DPMatrix,
    sc: ScoringConfig,
    s: Seq<u8>,
    mt: i32,
    mm: i32,
    k: int,
)
    requires
        is_filled(m, sc, s, s, false),
        sc.scorer == (SubstitutionScorer::Simple { match_score: mt, mismatch_score: mm }),
        !sc.spec_is_affine(),
        mm <= mt,
        2 * sc.gap_open < mt,
        s.len() * (abs(mt as int) + 2 * abs(sc.gap_open as int)) < 0x7fff_ffff,
        0 <= k <= s.len(),
    ensures
        traces(m, s, s, false, k, k).len() == 1,
        traces(m, s, s, false, k, k)[0].1 == s.subrange(0, k),
        traces(m, s, s, false, k, k)[0].2 == s.subrange(0, k),
    decreases k,
{
    if k == 0 {
        assert(s.subrange(0, 0) =~= Seq::<u8>::empty());
    } else {
        assert(holds_dp(m, sc, s, s, false, k, k));
        lemma_global_diagonal(sc, s, mt, mm, k);
        lemma_arrow_mask_diag();
        lemma_diagonal_traces(m, sc, s, mt, mm, k - 1);
        let inner = traces(m, s, s, false, k - 1, k - 1);
        assert(up_branches(m, s, s, false, k, k) == Seq::<Trace>::empty());
        assert(left_branches(m, s, s, false, k, k) == Seq::<Trace>::empty());
        assert(traces(m, s, s, false, k, k) =~= extend_all(inner, k, k, s[k - 1], s[k - 1]));
        assert(s.subrange(0, k) =~= s.subrange(0, k - 1).push(s[k - 1]));
    }
}

/// Global mode, a sequence against itself under match/mismatch scoring
/// where a match scores `M`, no less than a mismatch and more than two
/// gaps, and no score reaches the limits of `i32`: the final score is
/// `L × M` and the one alignment is the sequence against itself, without
/// gaps.
pub proof fn global_identical_sequences(
    sc: ScoringConfig,
    s: Seq<u8>,
    mt: i32,
    mm: i32,
    res: crate::alignment::AlignmentResult,
)
    requires
        is_alignment_of(sc, s, s, false, res),
        sc.scorer == (SubstitutionScorer::Simple { match_score: mt, mismatch_score: mm }),
        !sc.spec_is_affine(),
        mm <= mt,
        2 * sc.gap_open < mt,
        s.len() * (abs(mt as int) + 2 * abs(sc.gap_open as int)) < 0x7fff_ffff,
    ensures
        res.final_score == s.len() * mt,
        res.alignments@.len() == 1,
        res.alignments@[0].seq1_aligned@ == chars_of(s),
        res.alignments@[0].seq2_aligned@ == chars_of(s),
{
    let n = s.len() as int;
    let texts = pair_views(res.alignments@);
    assert(is_filled(res.matrix, sc, s, s, false) && res.final_score == final_score_of(
        sc,
        s,
        s,
        false,
    ) && texts == trace_texts(traces(res.matrix, s, s, false, n, n))) by {
        reveal(is_alignment_of);
        lemma_single_start(res.matrix, s, s, false, n, n);
        assert(start_cells(sc, s, s, false) == seq![(n, n)]);
    }
    lemma_global_diagonal(sc, s, mt, mm, n);
    lemma_diagonal_traces(res.matrix, sc, s, mt, mm, n);
    assert(s.subrange(0, n) =~= s);
    assert(texts.len() == res.alignments@.len());
    assert(trace_texts(traces(res.matrix, s, s, false, n, n)).len() == 1);
    assert(texts[0] == (res.alignments@[0].seq1_aligned@, res.alignments@[0].seq2_aligned@));
}

/// A forbidden pair (one that scores the least `i32`) is never taken over a
/// better gap step: its diagonal candidate is the saturated sum of the
/// diagonal neighbour and `i32::MIN`, and when a gap candidate of the cell
/// exceeds it, the cell carries no diagonal arrow.
pub proof fn forbidden_pair_loses_to_gaps(
    sc: ScoringConfig,
    s1: Seq<u8>,
    s2: Seq<u8>,
    local: bool,
    i: int,
    j: int,
)
    requires
        1 <= i <= s1.len(),
        1 <= j <= s2.len(),
        sc.scorer.spec_score(s1[i - 1], s2[j - 1]) == i32::MIN,
    ensures
        ({
            let (d, u, l) = candidates(sc, s1, s2, local, i, j);
            &&& d == clamp_i32(dp_score(sc, s1, s2, local, i - 1, j - 1) + i32::MIN)
            &&& (u > d || l > d) ==> !has_bit(dp_arrows(sc, s1, s2, local, i, j), 1)
        }),
{
    let (d, u, l) = candidates(sc, s1, s2, local, i, j);
    let v = dp_score(sc, s1, s2, local, i, j);
    crate::alignment::lemma_arrow_mask(d == v, u == v, l == v);
    assert((0u8 & 1u8) == 0) by (bit_vector);
}

/// Each branch of every start cell has rows of equal length which, with gaps
/// removed, are contiguous pieces of the two sequences.
proof fn lemma_all_traces_rows(
    m: DPMatrix,
    s1: Seq<u8>,
    s2: Seq<u8>,
    local: bool,
    starts: Seq<(int, int)>,
    k: int,
)
    requires
        gap_free(s1),
        gap_free(s2),
        forall|x: int|
            0 <= x < starts.len() ==> 0 <= (#[trigger] starts[x]).0 <= s1.len() && 0 <= starts[x].1
                <= s2.len(),
        0 <= k < all_traces(m, s1, s2, local, starts).len(),
    ensures
        ({
            let t = all_traces(m, s1, s2, local, starts)[k];
            &&& t.1.len() == t.2.len()
            &&& exists|a: int, b: int, c: int, d: int|
                0 <= a <= b <= s1.len() && 0 <= c <= d <= s2.len() && ungapped(t.1) == s1.subrange(
                    a,
                    b,
                ) && ungapped(t.2) == s2.subrange(c, d)
        }),
    decreases starts.len(),
{
    let prefix = all_traces(m, s1, s2, local, starts.drop_last());
    let last = starts.last();
    let here = traces(m, s1, s2, local, last.0, last.1);
    assert(all_traces(m, s1, s2, local, starts) == prefix + here);
    if k < prefix.len() {
        lemma_all_traces_rows(m, s1, s2, local, starts.drop_last(), k);
        assert(all_traces(m, s1, s2, local, starts)[k] == prefix[k]);
    } else {
        assert(starts[starts.len() - 1] == last);
        let k2 = k - prefix.len();
        lemma_trace_rows(m, s1, s2, local, last.0, last.1, k2);
        let t = here[k2];
        let stop = t.0.last();
        assert(all_traces(m, s1, s2, local, starts)[k] == t);
        assert(0 <= stop.0 <= last.0 <= s1.len() && 0 <= stop.1 <= last.1 <= s2.len() && ungapped(
            t.1,
        ) == s1.subrange(stop.0, last.0) && ungapped(t.2) == s2.subrange(stop.1, last.1));
    }
}

/// Local mode: in each returned alignment both aligned texts have the same
/// length and, with gap markers removed, are contiguous pieces of the two
/// input sequences (when neither holds a gap marker itself).
pub proof fn local_alignments_are_pieces(
    sc: ScoringConfig,
    s1: Seq<u8>,
    s2: Seq<u8>,
    res: crate::alignment::AlignmentResult,
)
    requires
        is_alignment_of(sc, s1, s2, true, res),
        gap_free(s1),
        gap_free(s2),
    ensures
        forall|k: int|
            0 <= k < res.alignments@.len() ==> (#[trigger] res.alignments@[k]).seq1_aligned@.len()
                == res.alignments@[k].seq2_aligned@.len() && exists|a: int, b: int, c: int, d: int|
                0 <= a <= b <= s1.len() && 0 <= c <= d <= s2.len() && ungapped_text(
                    res.alignments@[k].seq1_aligned@,
                ) == chars_of(s1.subrange(a, b)) && ungapped_text(res.alignments@[k].seq2_aligned@)
                    == chars_of(s2.subrange(c, d)),
{
    let n = s1.len() as int;
    let m = s2.len() as int;
    let starts = start_cells(sc, s1, s2, true);
    let ts = all_traces(res.matrix, s1, s2, true, starts);
    let texts = pair_views(res.alignments@);
    assert(texts == trace_texts(ts)) by {
        reveal(is_alignment_of);
    }
    let best = best_upto(sc, s1, s2, n, m);
    assert forall|x: int| 0 <= x < starts.len() implies 0 <= (#[trigger] starts[x]).0 <= s1.len()
        && 0 <= starts[x].1 <= s2.len() by {
        lemma_cells_in_range(sc, s1, s2, n, m, best, x);
    }
    assert forall|k: int| 0 <= k < res.alignments@.len() implies (
    #[trigger] res.alignments@[k]).seq1_aligned@.len() == res.alignments@[k].seq2_aligned@.len()
        && exists|a: int, b: int, c: int, d: int|
        0 <= a <= b <= s1.len() && 0 <= c <= d <= s2.len() && ungapped_text(
            res.alignments@[k].seq1_aligned@,
        ) == chars_of(s1.subrange(a, b)) && ungapped_text(res.alignments@[k].seq2_aligned@)
            == chars_of(s2.subrange(c, d)) by {
        assert(texts.len() == res.alignments@.len());
        assert(texts[k] == (res.alignments@[k].seq1_aligned@, res.alignments@[k].seq2_aligned@));
        lemma_all_traces_rows(res.matrix, s1, s2, true, starts, k);
        let t = ts[k];
        assert(texts[k] == (chars_of(t.1), chars_of(t.2)));
        lemma_chars_ungapped(t.1);
        lemma_chars_ungapped(t.2);
        let (a, b, c, d) = choose|a: int, b: int, c: int, d: int|
            0 <= a <= b <= s1.len() && 0 <= c <= d <= s2.len() && ungapped(t.1) == s1.subrange(a, b)
                && ungapped(t.2) == s2.subrange(c, d);
        assert(ungapped_text(res.alignments@[k].seq1_aligned@) == chars_of(s1.subrange(a, b)));
        assert(ungapped_text(res.alignments@[k].seq2_aligned@) == chars_of(s2.subrange(c, d)));
    }
}

/// Whether the pair scores of `s1` against `s2` and the gap cost stay far
/// from the limits of `i32`, but for forbidden pairs, which score `i32::MIN`.
pub open spec fn moderate_scores(sc: ScoringConfig, s1: Seq<u8>, s2: Seq<u8>) -> bool {
    &&& -0x10_0000 < sc.gap_open <= 0
    &&& !sc.spec_is_affine()
    &&& (s1.len() + s2.len() + 2) * 0x10_0000 < 0x4000_0000
    &&& forall|x: int, y: int|
        0 <= x < s1.len() && 0 <= y < s2.len() ==> #[trigger] sc.scorer.spec_score(s1[x], s2[y])
            == i32::MIN || -0x10_0000 < sc.scorer.spec_score(s1[x], s2[y]) < 0x10_0000
}

proof fn lemma_moderate_bounds(sc: ScoringConfig, s1: Seq<u8>, s2: Seq<u8>, i: int, j: int)
    requires
        moderate_scores(sc, s1, s2),
        0 <= i <= s1.len(),
        0 <= j <= s2.len(),
    ensures
        -(i + j) * 0x10_0000 <= dp_score(sc, s1, s2, false, i, j) <= (i + j) * 0x10_0000,
    decreases i + j,
{
    let g = sc.gap_open as int;
    if i == 0 && j == 0 {
    } else if j == 0 {
        assert(-i * 0x10_0000 <= g * i <= 0) by (nonlinear_arith)
            requires
                -0x10_0000 < g <= 0,
                i >= 0,
        ;
    } else if i == 0 {
        assert(-j * 0x10_0000 <= g * j <= 0) by (nonlinear_arith)
            requires
                -0x10_0000 < g <= 0,
                j >= 0,
        ;
    } else {
        lemma_moderate_bounds(sc, s1, s2, i - 1, j - 1);
        lemma_moderate_bounds(sc, s1, s2, i - 1, j);
        lemma_moderate_bounds(sc, s1, s2, i, j - 1);
        assert(sc.scorer.spec_score(s1[i - 1], s2[j - 1]) == i32::MIN || -0x10_0000
            < sc.scorer.spec_score(s1[i - 1], s2[j - 1]) < 0x10_0000);
    }
}

/// With moderate scores, a global cell at a forbidden pair has no diagonal
/// arrow: a gap step always offers more.
proof fn lemma_forbidden_no_diagonal(sc: ScoringConfig, s1: Seq<u8>, s2: Seq<u8>, i: int, j: int)
    requires
        moderate_scores(sc, s1, s2),
        1 <= i <= s1.len(),
        1 <= j <= s2.len(),
        sc.scorer.spec_score(s1[i - 1], s2[j - 1]) == i32::MIN,
    ensures
        !has_bit(dp_arrows(sc, s1, s2, false, i, j), 1),
{
    lemma_moderate_bounds(sc, s1, s2, i - 1, j - 1);
    lemma_moderate_bounds(sc, s1, s2, i - 1, j);
    forbidden_pair_loses_to_gaps(sc, s1, s2, false, i, j);
}

/// Whether no position of rows `a`, `b` pairs two residues that score
/// `i32::MIN` against each other.
pub open spec fn no_forbidden_pair(sc: ScoringConfig, a: Seq<u8>, b: Seq<u8>) -> bool {
    forall|p: int|
        0 <= p < a.len() && #[trigger] a[p] != GAP && b[p] != GAP ==> sc.scorer.spec_score(a[p], b[p])
            != i32::MIN
}

proof fn lemma_traces_avoid_forbidden(
    m: DPMatrix,
    sc: ScoringConfig,
    s1: Seq<u8>,
    s2: Seq<u8>,
    i: int,
    j: int,
    k: int,
)
    requires
        is_filled(m, sc, s1, s2, false),
        moderate_scores(sc, s1, s2),
        0 <= i <= s1.len(),
        0 <= j <= s2.len(),
        0 <= k < traces(m, s1, s2, false, i, j).len(),
    ensures
        traces(m, s1, s2, false, i, j)[k].1.len() == traces(m, s1, s2, false, i, j)[k].2.len(),
        no_forbidden_pair(sc, traces(m, s1, s2, false, i, j)[k].1, traces(m, s1, s2, false, i, j)[k].2),
    decreases i + j,
{
    let ts = traces(m, s1, s2, false, i, j);
    if stops_at(m, false, i, j) {
    } else {
        let dg = diagonal_branches(m, s1, s2, false, i, j);
        let ub = up_branches(m, s1, s2, false, i, j);
        let lb = left_branches(m, s1, s2, false, i, j);
        assert(ts == dg + ub + lb);
        if k < dg.len() {
            lemma_traces_avoid_forbidden(m, sc, s1, s2, i - 1, j - 1, k);
            let t0 = traces(m, s1, s2, false, i - 1, j - 1)[k];
            assert(holds_dp(m, sc, s1, s2, false, i, j));
            if sc.scorer.spec_score(s1[i - 1], s2[j - 1]) == i32::MIN {
                lemma_forbidden_no_diagonal(sc, s1, s2, i, j);
            }
            let t = ts[k];
            assert(t.1 == t0.1.push(s1[i - 1]) && t.2 == t0.2.push(s2[j - 1]));
            assert forall|p: int|
                0 <= p < t.1.len() && #[trigger] t.1[p] != GAP && t.2[p] != GAP implies sc.scorer.spec_score(
                t.1[p],
                t.2[p],
            ) != i32::MIN by {
                if p < t0.1.len() {
                    assert(t.1[p] == t0.1[p] && t.2[p] == t0.2[p]);
                }
            }
        } else if k < dg.len() + ub.len() {
            let k2 = k - dg.len();
            assert(ts[k] == ub[k2]);
            lemma_traces_avoid_forbidden(m, sc, s1, s2, i - 1, j, k2);
            let t0 = traces(m, s1, s2, false, i - 1, j)[k2];
            let t = ts[k];
            assert(t.1 == t0.1.push(s1[i - 1]) && t.2 == t0.2.push(GAP));
            assert forall|p: int|
                0 <= p < t.1.len() && #[trigger] t.1[p] != GAP && t.2[p] != GAP implies sc.scorer.spec_score(
                t.1[p],
                t.2[p],
            ) != i32::MIN by {
                if p < t0.1.len() {
                    assert(t.1[p] == t0.1[p] && t.2[p] == t0.2[p]);
                }
            }
        } else {
            let k2 = k - dg.len() - ub.len();
            assert(ts[k] == lb[k2]);
            lemma_traces_avoid_forbidden(m, sc, s1, s2, i, j - 1, k2);
            let t0 = traces(m, s1, s2, false, i, j - 1)[k2];
            let t = ts[k];
            assert(t.1 == t0.1.push(GAP) && t.2 == t0.2.push(s2[j - 1]));
            assert forall|p: int|
                0 <= p < t.1.len() && #[trigger] t.1[p] != GAP && t.2[p] != GAP implies sc.scorer.spec_score(
                t.1[p],
                t.2[p],
            ) != i32::MIN by {
                if p < t0.1.len() {
                    assert(t.1[p] == t0.1[p] && t.2[p] == t0.2[p]);
                }
            }
        }
    }
}

/// Whether no position of texts `a`, `b` pairs two residues that score
/// `i32::MIN` against each other.
pub open spec fn no_forbidden_text(sc: ScoringConfig, a: Seq<char>, b: Seq<char>) -> bool {
    forall|p: int|
        0 <= p < a.len() && #[trigger] a[p] != '-' && b[p] != '-' ==> sc.scorer.spec_score(
            a[p] as u8,
            b[p] as u8,
        ) != i32::MIN
}

proof fn lemma_forbidden_text(sc: ScoringConfig, a: Seq<u8>, b: Seq<u8>)
    requires
        a.len() == b.len(),
        no_forbidden_pair(sc, a, b),
    ensures
        chars_of(a).len() == chars_of(b).len(),
        no_forbidden_text(sc, chars_of(a), chars_of(b)),
{
    assert forall|p: int|
        0 <= p < chars_of(a).len() && #[trigger] chars_of(a)[p] != '-' && chars_of(b)[p] != '-'
            implies sc.scorer.spec_score(chars_of(a)[p] as u8, chars_of(b)[p] as u8) != i32::MIN by {
        assert(chars_of(a)[p] == a[p] as char && chars_of(b)[p] == b[p] as char);
        assert((a[p] as char) as u8 == a[p] && (b[p] as char) as u8 == b[p]);
        assert((a[p] as char == '-') == (a[p] == GAP));
        assert((b[p] as char == '-') == (b[p] == GAP));
    }
}

/// Texts of global branches avoid forbidden pairs.
proof fn lemma_global_texts_avoid_forbidden(
    m: DPMatrix,
    sc: ScoringConfig,
    s1: Seq<u8>,
    s2: Seq<u8>,
    texts: Seq<(Seq<char>, Seq<char>)>,
)
    requires
        is_filled(m, sc, s1, s2, false),
        moderate_scores(sc, s1, s2),
        texts == trace_texts(traces(m, s1, s2, false, s1.len() as int, s2.len() as int)),
    ensures
        forall|k: int|
            0 <= k < texts.len() ==> (#[trigger] texts[k]).0.len() == texts[k].1.len()
                && no_forbidden_text(sc, texts[k].0, texts[k].1),
{
    let ts = traces(m, s1, s2, false, s1.len() as int, s2.len() as int);
    assert forall|k: int| 0 <= k < texts.len() implies (#[trigger] texts[k]).0.len()
        == texts[k].1.len() && no_forbidden_text(sc, texts[k].0, texts[k].1) by {
        lemma_traces_avoid_forbidden(m, sc, s1, s2, s1.len() as int, s2.len() as int, k);
        let t = ts[k];
        assert(texts[k] == (chars_of(t.1), chars_of(t.2)));
        lemma_forbidden_text(sc, t.1, t.2);
    }
}

/// Global mode with moderate scores: no returned alignment pairs two
/// residues of a forbidden pair (one scoring `i32::MIN`) directly, so
/// saturating addition never makes such a pair attractive. Both aligned
/// texts have the same length.
pub proof fn global_alignments_avoid_forbidden_pairs(
    sc: ScoringConfig,
    s1: Seq<u8>,
    s2: Seq<u8>,
    res: crate::alignment::AlignmentResult,
)
    requires
        is_alignment_of(sc, s1, s2, false, res),
        moderate_scores(sc, s1, s2),
    ensures
        forall|k: int|
            0 <= k < res.alignments@.len() ==> (#[trigger] res.alignments@[k]).seq1_aligned@.len()
                == res.alignments@[k].seq2_aligned@.len() && no_forbidden_text(
                sc,
                res.alignments@[k].seq1_aligned@,
                res.alignments@[k].seq2_aligned@,
            ),
{
    let n = s1.len() as int;
    let m = s2.len() as int;
    let texts = pair_views(res.alignments@);
    assert(is_filled(res.matrix, sc, s1, s2, false) && texts == trace_texts(
        traces(res.matrix, s1, s2, false, n, m),
    )) by {
        reveal(is_alignment_of);
        lemma_single_start(res.matrix, s1, s2, false, n, m);
        assert(start_cells(sc, s1, s2, false) == seq![(n, m)]);
    }
    lemma_global_texts_avoid_forbidden(res.matrix, sc, s1, s2, texts);
    assert forall|k: int| 0 <= k < res.alignments@.len() implies (
    #[trigger] res.alignments@[k]).seq1_aligned@.len() == res.alignments@[k].seq2_aligned@.len()
        && no_forbidden_text(sc, res.alignments@[k].seq1_aligned@, res.alignments@[k].seq2_aligned@) by {
        assert(texts.len() == res.alignments@.len());
        assert(texts[k] == (res.alignments@[k].seq1_aligned@, res.alignments@[k].seq2_aligned@));
    }
}

} // verus!
