//! The structural laws of the move operations, proved once and for all
//! about the move model `spec_move`. The executable move operations are
//! specified to return exactly `spec_move` of the starting board, so these
//! laws carry over to every call of the engine.
//!
//! Each law holds of any well-formed board whose total fits the engine's
//! working bound `MAX_TOTAL`, the same bound the move operations require.

use vstd::prelude::*;

verus! {

use crate::lemmas::lemma_cell_sum_nonneg;
use crate::lemmas::lemma_scan_inv;
use crate::lemmas::lemma_score_bound;
use crate::model::Dir;
use crate::model::MAX_TOTAL;
use crate::model::cell_sum;
use crate::model::max_cell;
use crate::model::merges_created;
use crate::model::merges_pairs;
use crate::model::merges_total;
use crate::model::nonzero_count;
use crate::model::nonzero_mset;
use crate::model::spec_move;
use crate::model::wf_cells;

/// Conservation: a move neither creates nor destroys tile values except
/// through its merges. Adding the consumed pair values (two per merge) to
/// the multiset of non-empty values after the move gives the same multiset
/// as adding the created doubled values to the one before the move. The
/// score delta is exactly the total of the created values, and the cells'
/// total is untouched.
pub proof fn lemma_move_conservation(cells: Seq<usize>, d: Dir)
    requires
        wf_cells(cells),
        cell_sum(cells) <= MAX_TOTAL,
    ensures
        nonzero_mset(spec_move(cells, d).cells).add(merges_pairs(spec_move(cells, d).merges))
            == nonzero_mset(cells).add(merges_created(spec_move(cells, d).merges)),
        spec_move(cells, d).score == merges_total(spec_move(cells, d).merges),
        cell_sum(spec_move(cells, d).cells) == cell_sum(cells),
        wf_cells(spec_move(cells, d).cells),
{
    lemma_scan_inv(cells, d, 12);
}

/// Idempotence of a no-op: a move that produces no movement record leaves
/// the board exactly as it was.
pub proof fn lemma_noop_move_unchanged(cells: Seq<usize>, d: Dir)
    requires
        wf_cells(cells),
        cell_sum(cells) <= MAX_TOTAL,
    ensures
        spec_move(cells, d).recs.len() == 0 ==> spec_move(cells, d).cells == cells,
{
    lemma_scan_inv(cells, d, 12);
}

/// A single merge per destination: the destinations of the merges a move
/// performs are pairwise distinct, so no cell can absorb more than one
/// merge in one pass, and each merge consumes exactly one pair of equal
/// values. Together with conservation this rules out three or more equal
/// tiles collapsing into one cell in a single move.
pub proof fn lemma_single_merge_per_destination(cells: Seq<usize>, d: Dir)
    requires
        wf_cells(cells),
        cell_sum(cells) <= MAX_TOTAL,
    ensures
        forall|k1: int, k2: int|
            0 <= k1 < k2 < spec_move(cells, d).merges.len() ==> (#[trigger] spec_move(
                cells,
                d,
            ).merges[k1]).0 != (#[trigger] spec_move(cells, d).merges[k2]).0,
        spec_move(cells, d).merges.len() == nonzero_count(cells) - nonzero_count(
            spec_move(cells, d).cells,
        ),
{
    lemma_scan_inv(cells, d, 12);
}

/// Monotonic maximum: a move never lowers the largest cell value.
pub proof fn lemma_move_max_monotonic(cells: Seq<usize>, d: Dir)
    requires
        wf_cells(cells),
        cell_sum(cells) <= MAX_TOTAL,
    ensures
        max_cell(spec_move(cells, d).cells) >= max_cell(cells),
{
    lemma_scan_inv(cells, d, 12);
}

/// A move never increases the number of non-empty cells: relocations keep
/// it and every merge lowers it by one.
pub proof fn lemma_move_count_nonincreasing(cells: Seq<usize>, d: Dir)
    requires
        wf_cells(cells),
        cell_sum(cells) <= MAX_TOTAL,
    ensures
        nonzero_count(spec_move(cells, d).cells) <= nonzero_count(cells),
        wf_cells(spec_move(cells, d).cells),
        cell_sum(spec_move(cells, d).cells) == cell_sum(cells),
{
    lemma_scan_inv(cells, d, 12);
}

/// Opposite-direction non-interference: moving left and then immediately
/// right, with no tile spawned in between, never increases the number of
/// non-empty cells.
pub proof fn lemma_left_then_right_count(cells: Seq<usize>)
    requires
        wf_cells(cells),
        cell_sum(cells) <= MAX_TOTAL,
    ensures
        nonzero_count(
            spec_move(spec_move(cells, Dir::Left).cells, Dir::Right).cells,
        ) <= nonzero_count(cells),
{
    lemma_move_count_nonincreasing(cells, Dir::Left);
    lemma_move_count_nonincreasing(spec_move(cells, Dir::Left).cells, Dir::Right);
}

/// The score delta of a move is non-negative and bounded by sixteen times
/// the board total.
pub proof fn lemma_move_score_bounds(cells: Seq<usize>, d: Dir)
    requires
        wf_cells(cells),
        cell_sum(cells) <= MAX_TOTAL,
    ensures
        0 <= spec_move(cells, d).score <= 16 * cell_sum(cells),
{
    lemma_scan_inv(cells, d, 12);
    lemma_score_bound(cells, spec_move(cells, d));
    lemma_cell_sum_nonneg(cells);
}

} // verus!
