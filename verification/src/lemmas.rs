//! Supporting lemmas about the board model: how the summary quantities
//! (sum, count, multiset, maximum) react to point updates of the board,
//! and the central invariant that every prefix of a move's scan preserves.

use vstd::prelude::*;

verus! {

use vstd::multiset::Multiset;

broadcast use vstd::multiset::group_multiset_axioms;

use crate::model::Dir;
use crate::model::MoveState;
use crate::model::cell_sum;
use crate::model::has_empty;
use crate::model::init_state;
use crate::model::is_pow2;
use crate::model::max_cell;
use crate::model::max_steps;
use crate::model::merges_created;
use crate::model::merges_pairs;
use crate::model::merges_total;
use crate::model::nonzero_count;
use crate::model::nonzero_mset;
use crate::model::passable;
use crate::model::push_cell;
use crate::model::put_one;
use crate::model::reach;
use crate::model::run_scan;
use crate::model::scan_at;
use crate::model::stride;
use crate::model::valid_cell;
use crate::model::wf_cells;
use crate::model::zero_indices;

/// Doubling a power of two gives a power of two.
pub proof fn lemma_pow2_double(v: int)
    requires
        is_pow2(v),
    ensures
        is_pow2(2 * v),
{
    assert(v >= 2);
    assert(2 * v != 2);
    assert((2 * v) % 2 == 0 && (2 * v) / 2 == v);
}

/// The total of the cells is never negative.
pub proof fn lemma_cell_sum_nonneg(s: Seq<usize>)
    ensures
        cell_sum(s) >= 0,
    decreases s.len(),
{
    if s.len() > 0 {
        lemma_cell_sum_nonneg(s.drop_last());
    }
}

/// Updating one cell changes the total by the difference of the values.
pub proof fn lemma_cell_sum_update(s: Seq<usize>, i: int, x: usize)
    requires
        0 <= i < s.len(),
    ensures
        cell_sum(s.update(i, x)) == cell_sum(s) - s[i] + x,
    decreases s.len(),
{
    if i == s.len() - 1 {
        assert(s.update(i, x).drop_last() =~= s.drop_last());
    } else {
        assert(s.update(i, x).drop_last() =~= s.drop_last().update(i, x));
        lemma_cell_sum_update(s.drop_last(), i, x);
    }
}

/// Every cell is at most the total of all cells.
pub proof fn lemma_cell_sum_ge_elem(s: Seq<usize>, i: int)
    requires
        0 <= i < s.len(),
    ensures
        s[i] <= cell_sum(s),
    decreases s.len(),
{
    lemma_cell_sum_nonneg(s.drop_last());
    if i < s.len() - 1 {
        lemma_cell_sum_ge_elem(s.drop_last(), i);
    }
}

/// Two distinct cells together are at most the total of all cells.
pub proof fn lemma_cell_sum_pair(s: Seq<usize>, i: int, j: int)
    requires
        0 <= i < s.len(),
        0 <= j < s.len(),
        i != j,
    ensures
        s[i] + s[j] <= cell_sum(s),
    decreases s.len(),
{
    if j == s.len() - 1 {
        lemma_cell_sum_ge_elem(s.drop_last(), i);
    } else if i == s.len() - 1 {
        lemma_cell_sum_ge_elem(s.drop_last(), j);
    } else {
        lemma_cell_sum_pair(s.drop_last(), i, j);
    }
}

/// Updating one cell changes the number of non-empty cells as expected.
pub proof fn lemma_nonzero_count_update(s: Seq<usize>, i: int, x: usize)
    requires
        0 <= i < s.len(),
    ensures
        nonzero_count(s.update(i, x)) == nonzero_count(s) - (if s[i] == 0 {
            0int
        } else {
            1int
        }) + (if x == 0 {
            0int
        } else {
            1int
        }),
    decreases s.len(),
{
    if i == s.len() - 1 {
        assert(s.update(i, x).drop_last() =~= s.drop_last());
    } else {
        assert(s.update(i, x).drop_last() =~= s.drop_last().update(i, x));
        lemma_nonzero_count_update(s.drop_last(), i, x);
    }
}

/// The number of non-empty cells lies between 0 and the board size.
pub proof fn lemma_nonzero_count_bounds(s: Seq<usize>)
    ensures
        0 <= nonzero_count(s) <= s.len(),
    decreases s.len(),
{
    if s.len() > 0 {
        lemma_nonzero_count_bounds(s.drop_last());
    }
}

/// Every cell is at most the maximum cell value.
pub proof fn lemma_max_cell_ge(s: Seq<usize>, i: int)
    requires
        0 <= i < s.len(),
    ensures
        s[i] <= max_cell(s),
    decreases s.len(),
{
    if i < s.len() - 1 {
        lemma_max_cell_ge(s.drop_last(), i);
    }
}

/// The maximum cell value is never negative.
pub proof fn lemma_max_cell_nonneg(s: Seq<usize>)
    ensures
        max_cell(s) >= 0,
    decreases s.len(),
{
    if s.len() > 0 {
        lemma_max_cell_nonneg(s.drop_last());
    }
}

/// On a non-empty board some cell attains the maximum.
pub proof fn lemma_max_cell_witness(s: Seq<usize>)
    requires
        s.len() > 0,
    ensures
        exists|i: int| 0 <= i < s.len() && s[i] == max_cell(s),
    decreases s.len(),
{
    if s.last() >= max_cell(s.drop_last()) {
        assert(s[s.len() - 1] == max_cell(s));
    } else {
        lemma_max_cell_witness(s.drop_last());
        let i = choose|i: int| 0 <= i < s.drop_last().len() && s.drop_last()[i] == max_cell(
            s.drop_last(),
        );
        assert(s[i] == max_cell(s));
    }
}

/// Updating one cell exchanges its old value for the new one in the
/// multiset of non-empty values, stated additively.
pub proof fn lemma_nonzero_mset_update(s: Seq<usize>, i: int, x: usize)
    requires
        0 <= i < s.len(),
    ensures
        nonzero_mset(s.update(i, x)).add(put_one(s[i])) =~= nonzero_mset(s).add(put_one(x)),
    decreases s.len(),
{
    let u = s.update(i, x);
    if i == s.len() - 1 {
        assert(u.drop_last() =~= s.drop_last());
        assert(u.last() == x);
        assert forall|y: usize|
            nonzero_mset(u).add(put_one(s[i])).count(y) == nonzero_mset(s).add(
                put_one(x),
            ).count(y) by {
            assert(put_one(s[i]).count(y) == (if s[i] != 0 && y == s[i] {
                1nat
            } else {
                0nat
            }));
            assert(put_one(x).count(y) == (if x != 0 && y == x {
                1nat
            } else {
                0nat
            }));
        }
        assert(nonzero_mset(u).add(put_one(s[i])) =~= nonzero_mset(s).add(put_one(x)));
    } else {
        assert(u.drop_last() =~= s.drop_last().update(i, x));
        assert(u.last() == s.last());
        lemma_nonzero_mset_update(s.drop_last(), i, x);
        let dl = s.drop_last();
        assert forall|y: usize|
            nonzero_mset(u).add(put_one(s[i])).count(y) == nonzero_mset(s).add(
                put_one(x),
            ).count(y) by {
            assert(nonzero_mset(dl.update(i, x)).add(put_one(dl[i])).count(y) == nonzero_mset(
                dl,
            ).add(put_one(x)).count(y));
            assert(put_one(s.last()).count(y) == (if s.last() != 0 && y == s.last() {
                1nat
            } else {
                0nat
            }));
        }
        assert(nonzero_mset(u).add(put_one(s[i])) =~= nonzero_mset(s).add(put_one(x)));
    }
}

/// Appending one merge extends the derived quantities in the obvious way.
pub proof fn lemma_merges_push(ms: Seq<(int, usize)>, e: (int, usize))
    ensures
        merges_total(ms.push(e)) == merges_total(ms) + 2 * e.1,
        merges_pairs(ms.push(e)) =~= merges_pairs(ms).insert(e.1).insert(e.1),
        merges_created(ms.push(e)) =~= merges_created(ms).insert((2 * e.1) as usize),
{
    assert(ms.push(e).drop_last() =~= ms);
    assert(ms.push(e).last() == e);
}

/// The score accumulated over the merges is bounded by their number times
/// a bound on each created value.
pub proof fn lemma_merges_total_bound(ms: Seq<(int, usize)>, b: int)
    requires
        b >= 0,
        forall|k: int| 0 <= k < ms.len() ==> 2 * (#[trigger] ms[k]).1 <= b,
    ensures
        0 <= merges_total(ms) <= ms.len() * b,
    decreases ms.len(),
{
    if ms.len() == 0 {
    } else {
        assert(ms.drop_last().len() == ms.len() - 1);
        lemma_merges_total_bound(ms.drop_last(), b);
        assert(2 * ms[ms.len() - 1].1 <= b);
        assert((ms.len() - 1) * b + b == ms.len() * b) by (nonlinear_arith);
    }
}

/// The walk toward the edge never reports more steps than it was allowed.
pub proof fn lemma_reach_le(s: Seq<usize>, d: Dir, p: int, n: nat)
    ensures
        reach(s, d, p, n) <= n,
    decreases n,
{
    if n > 0 {
        lemma_reach_le(s, d, p, (n - 1) as nat);
    }
}

/// If the walk reports at least one step, the reported destination cell is
/// itself passable (empty or equal in value to the moving tile).
pub proof fn lemma_reach_passable(s: Seq<usize>, d: Dir, p: int, n: nat)
    ensures
        reach(s, d, p, n) >= 1 ==> passable(s, d, p, reach(s, d, p, n) as int),
    decreases n,
{
    if n > 0 {
        lemma_reach_passable(s, d, p, (n - 1) as nat);
    }
}

/// Once the walk is blocked at step `k`, allowing more steps changes
/// nothing: the result stays `k - 1`.
pub proof fn lemma_reach_stops(s: Seq<usize>, d: Dir, p: int, k: int, n: int)
    requires
        1 <= k <= n,
        reach(s, d, p, (k - 1) as nat) == k - 1,
        !passable(s, d, p, k),
    ensures
        reach(s, d, p, n as nat) == k - 1,
    decreases n,
{
    if n == k {
    } else {
        lemma_reach_stops(s, d, p, k, n - 1);
    }
}

/// Multiplying by the stride of a direction is negation, identity, or a
/// factor of four, according to the direction.
pub proof fn lemma_stride_mul(d: Dir, k: int)
    ensures
        d == Dir::Left ==> k * stride(d) == -1 * k,
        d == Dir::Right ==> k * stride(d) == 1 * k,
        d == Dir::Down ==> k * stride(d) == -4 * k,
        d == Dir::Up ==> k * stride(d) == 4 * k,
{
    match d {
        Dir::Left => {
            assert(stride(d) == -1);
            assert(k * stride(d) == -1 * k) by (nonlinear_arith)
                requires
                    stride(d) == -1,
            ;
        },
        Dir::Right => {
            assert(stride(d) == 1);
            assert(k * stride(d) == 1 * k) by (nonlinear_arith)
                requires
                    stride(d) == 1,
            ;
        },
        Dir::Down => {
            assert(stride(d) == -4);
            assert(k * stride(d) == -4 * k) by (nonlinear_arith)
                requires
                    stride(d) == -4,
            ;
        },
        Dir::Up => {
            assert(stride(d) == 4);
            assert(k * stride(d) == 4 * k) by (nonlinear_arith)
                requires
                    stride(d) == 4,
            ;
        },
    }
}

/// The list of empty-cell indices is exactly the empty cells: every entry
/// is the index of an empty cell, and the list is empty exactly when the
/// board has no empty cell.
pub proof fn lemma_zero_indices(s: Seq<usize>)
    ensures
        forall|k: int|
            0 <= k < zero_indices(s).len() ==> 0 <= #[trigger] zero_indices(s)[k] < s.len()
                && s[zero_indices(s)[k]] == 0,
        zero_indices(s).len() == 0 <==> !has_empty(s),
    decreases s.len(),
{
    if s.len() == 0 {
    } else {
        let dl = s.drop_last();
        lemma_zero_indices(dl);
        let zi = zero_indices(s);
        assert forall|k: int|
            0 <= k < zi.len() implies 0 <= #[trigger] zi[k] < s.len() && s[zi[k]] == 0 by {
            if s.last() == 0 && k == zi.len() - 1 {
                assert(zi[k] == s.len() - 1);
            } else {
                assert(zi[k] == zero_indices(dl)[k]);
                assert(dl[zi[k]] == s[zi[k]]);
            }
        }
        if s.last() == 0 {
            assert(s[s.len() - 1] == 0);
            assert(has_empty(s));
        } else {
            if has_empty(s) {
                let i = choose|i: int| 0 <= i < s.len() && s[i] == 0;
                assert(i < s.len() - 1);
                assert(dl[i] == 0);
                assert(has_empty(dl));
            }
            if has_empty(dl) {
                let i = choose|i: int| 0 <= i < dl.len() && dl[i] == 0;
                assert(s[i] == 0);
            }
        }
    }
}

/// Every scan step processes a cell index on the board.
pub proof fn lemma_scan_at_bounds(d: Dir, t: int)
    requires
        0 <= t < 12,
    ensures
        0 <= scan_at(d, t) < 16,
{
}

/// The per-move invariant: what holds of the evolving state after any
/// prefix of the scan, relative to the board `init` at the start of the
/// move. It carries well-formedness, the exact conservation of the total
/// and of the multiset of non-empty values, the link between the merge
/// flags and the merges performed, and the score bookkeeping.
pub open spec fn scan_inv(init: Seq<usize>, s: MoveState) -> bool {
    &&& s.cells.len() == 16
    &&& s.merged.len() == 16
    &&& wf_cells(s.cells)
    &&& cell_sum(s.cells) == cell_sum(init)
    &&& nonzero_count(s.cells) == nonzero_count(init) - s.merges.len()
    &&& max_cell(s.cells) >= max_cell(init)
    &&& (s.recs.len() == 0 ==> s.cells == init)
    &&& s.score == merges_total(s.merges)
    &&& forall|k: int| 0 <= k < s.merges.len() ==> 0 <= (#[trigger] s.merges[k]).0 < 16
    &&& forall|k: int| 0 <= k < s.merges.len() ==> (#[trigger] s.merges[k]).1 != 0
    &&& forall|k: int|
        0 <= k < s.merges.len() ==> 2 * (#[trigger] s.merges[k]).1 <= cell_sum(init)
    &&& forall|dd: int|
        0 <= dd < 16 ==> ((#[trigger] s.merged[dd]) <==> exists|k: int|
            0 <= k < s.merges.len() && (#[trigger] s.merges[k]).0 == dd)
    &&& forall|k1: int, k2: int|
        0 <= k1 < k2 < s.merges.len() ==> (#[trigger] s.merges[k1]).0 != (
        #[trigger] s.merges[k2]).0
    &&& nonzero_mset(s.cells).add(merges_pairs(s.merges)) == nonzero_mset(init).add(
        merges_created(s.merges),
    )
}

/// Facts about the destination the walk found for the tile at `p`: it is
/// on the board, distinct from `p`, and empty or equal to the tile.
pub proof fn lemma_dest_facts(s: Seq<usize>, d: Dir, p: int)
    requires
        s.len() == 16,
        0 <= p < 16,
        s[p] != 0,
        reach(s, d, p, max_steps(d, p) as nat) >= 1,
    ensures
        1 <= reach(s, d, p, max_steps(d, p) as nat) <= max_steps(d, p),
        0 <= p + reach(s, d, p, max_steps(d, p) as nat) * stride(d) < 16,
        p + reach(s, d, p, max_steps(d, p) as nat) * stride(d) != p,
        s[p + reach(s, d, p, max_steps(d, p) as nat) * stride(d)] == 0 || s[p + reach(
            s,
            d,
            p,
            max_steps(d, p) as nat,
        ) * stride(d)] == s[p],
{
    lemma_reach_le(s, d, p, max_steps(d, p) as nat);
    lemma_reach_passable(s, d, p, max_steps(d, p) as nat);
    let n: int = reach(s, d, p, max_steps(d, p) as nat) as int;
    match d {
        Dir::Left => {
            assert(stride(d) == -1);
            assert(n * stride(d) == -1 * n) by (nonlinear_arith)
                requires
                    stride(d) == -1,
            ;
        },
        Dir::Right => {
            assert(stride(d) == 1);
            assert(n * stride(d) == 1 * n) by (nonlinear_arith)
                requires
                    stride(d) == 1,
            ;
        },
        Dir::Down => {
            assert(stride(d) == -4);
            assert(n * stride(d) == -4 * n) by (nonlinear_arith)
                requires
                    stride(d) == -4,
            ;
        },
        Dir::Up => {
            assert(stride(d) == 4);
            assert(n * stride(d) == 4 * n) by (nonlinear_arith)
                requires
                    stride(d) == 4,
            ;
        },
    }
}

/// One scan step preserves the per-move invariant.
pub proof fn lemma_push_cell_inv(init: Seq<usize>, s: MoveState, d: Dir, p: int)
    requires
        wf_cells(init),
        cell_sum(init) <= crate::model::MAX_TOTAL,
        scan_inv(init, s),
        0 <= p < 16,
    ensures
        scan_inv(init, push_cell(s, d, p)),
{
    let v: usize = s.cells[p];
    if v != 0 {
        let n: int = reach(s.cells, d, p, max_steps(d, p) as nat) as int;
        if n >= 1 {
            lemma_dest_facts(s.cells, d, p);
            let dest: int = p + n * stride(d);
            if !s.merged[dest] {
                if s.cells[dest] == v {
                    lemma_push_cell_inv_merge(init, s, d, p);
                } else {
                    lemma_push_cell_inv_move(init, s, d, p);
                }
            }
        }
    }
}

/// The merge branch of one scan step preserves the invariant.
proof fn lemma_push_cell_inv_merge(init: Seq<usize>, s: MoveState, d: Dir, p: int)
    requires
        wf_cells(init),
        cell_sum(init) <= crate::model::MAX_TOTAL,
        scan_inv(init, s),
        0 <= p < 16,
        s.cells[p] != 0,
        reach(s.cells, d, p, max_steps(d, p) as nat) >= 1,
        !s.merged[p + reach(s.cells, d, p, max_steps(d, p) as nat) * stride(d)],
        s.cells[p + reach(s.cells, d, p, max_steps(d, p) as nat) * stride(d)] == s.cells[p],
    ensures
        scan_inv(init, push_cell(s, d, p)),
{
    let v: usize = s.cells[p];
    let n: int = reach(s.cells, d, p, max_steps(d, p) as nat) as int;
    lemma_dest_facts(s.cells, d, p);
    let dest: int = p + n * stride(d);

    lemma_cell_sum_pair(s.cells, dest, p);
    assert(v + v <= cell_sum(init));
    let w: usize = (v + v) as usize;
    assert(w == v + v);

    let c1 = s.cells.update(dest, w);
    let c2 = c1.update(p, 0);
    let ms = s.merges;
    let ms2 = ms.push((dest, v));
    let s2 = push_cell(s, d, p);
    assert(s2.cells == c2);
    assert(s2.merged == s.merged.update(dest, true));
    assert(s2.merges == ms2);

    // well-formedness of the new board
    assert(is_pow2(v as int));
    lemma_pow2_double(v as int);
    assert forall|i: int| 0 <= i < 16 implies valid_cell(#[trigger] c2[i]) by {
        if i != dest && i != p {
            assert(c2[i] == s.cells[i]);
        }
    }

    // total conserved
    lemma_cell_sum_update(s.cells, dest, w);
    lemma_cell_sum_update(c1, p, 0);
    assert(c1[p] == v);
    assert(cell_sum(c2) == cell_sum(init));

    // one non-empty cell fewer
    lemma_nonzero_count_update(s.cells, dest, w);
    lemma_nonzero_count_update(c1, p, 0);
    assert(nonzero_count(c2) == nonzero_count(s.cells) - 1);

    // the maximum does not drop
    lemma_max_cell_witness(s.cells);
    let i0 = choose|i: int| 0 <= i < 16 && s.cells[i] == max_cell(s.cells);
    if i0 == dest || i0 == p {
        lemma_max_cell_ge(c2, dest);
        assert(c2[dest] == w);
    } else {
        lemma_max_cell_ge(c2, i0);
        assert(c2[i0] == s.cells[i0]);
    }
    assert(max_cell(c2) >= max_cell(s.cells));

    // conservation of the multiset of non-empty values
    lemma_nonzero_mset_update(s.cells, dest, w);
    lemma_nonzero_mset_update(c1, p, 0);
    lemma_merges_push(ms, (dest, v));
    assert((2 * v) as usize == w);
    assert(merges_pairs(ms2) == merges_pairs(ms).insert(v).insert(v));
    assert(merges_created(ms2) == merges_created(ms).insert(w));
    assert forall|y: usize|
        nonzero_mset(c2).add(merges_pairs(ms2)).count(y) == nonzero_mset(init).add(
            merges_created(ms2),
        ).count(y) by {
        assert(nonzero_mset(c1).add(put_one(s.cells[dest])).count(y) == nonzero_mset(
            s.cells,
        ).add(put_one(w)).count(y));
        assert(nonzero_mset(c2).add(put_one(c1[p])).count(y) == nonzero_mset(c1).add(
            put_one(0),
        ).count(y));
        assert(nonzero_mset(s.cells).add(merges_pairs(ms)).count(y) == nonzero_mset(init).add(
            merges_created(ms),
        ).count(y));
        assert(merges_pairs(ms).insert(v).insert(v).count(y) == merges_pairs(ms).count(y) + (
        if y == v {
            2nat
        } else {
            0nat
        }));
        assert(merges_created(ms).insert(w).count(y) == merges_created(ms).count(y) + (if y == w {
            1nat
        } else {
            0nat
        }));
    }
    assert(nonzero_mset(c2).add(merges_pairs(ms2)) =~= nonzero_mset(init).add(
        merges_created(ms2),
    ));

    // score bookkeeping
    assert(s2.score == merges_total(ms2));
    assert forall|k: int| 0 <= k < ms2.len() implies 0 <= (#[trigger] ms2[k]).0 < 16 && (
    #[trigger] ms2[k]).1 != 0 && 2 * (#[trigger] ms2[k]).1 <= cell_sum(init) by {
        if k < ms.len() {
            assert(ms2[k] == ms[k]);
        } else {
            assert(ms2[k] == (dest, v));
        }
    }

    // merge flags match the merges performed, each destination once
    assert forall|dd: int| 0 <= dd < 16 implies ((#[trigger] s2.merged[dd]) <==> exists|k: int|
        0 <= k < ms2.len() && (#[trigger] ms2[k]).0 == dd) by {
        if dd == dest {
            assert(ms2[ms.len() as int].0 == dd);
        } else {
            assert(s.merged[dd] <==> exists|k: int|
                0 <= k < ms.len() && (#[trigger] ms[k]).0 == dd);
            if exists|k: int| 0 <= k < ms2.len() && (#[trigger] ms2[k]).0 == dd {
                let k = choose|k: int| 0 <= k < ms2.len() && (#[trigger] ms2[k]).0 == dd;
                assert(k < ms.len());
                assert(ms[k].0 == dd);
            }
            if s.merged[dd] {
                let k = choose|k: int| 0 <= k < ms.len() && (#[trigger] ms[k]).0 == dd;
                assert(ms2[k].0 == dd);
            }
        }
    }
    assert forall|k1: int, k2: int| 0 <= k1 < k2 < ms2.len() implies (#[trigger] ms2[k1]).0 != (
    #[trigger] ms2[k2]).0 by {
        if k2 == ms.len() {
            assert(ms2[k2].0 == dest);
            assert(ms2[k1] == ms[k1]);
            if ms[k1].0 == dest {
                assert(exists|k: int| 0 <= k < ms.len() && (#[trigger] ms[k]).0 == dest);
                assert(s.merged[dest]);
                assert(false);
            }
        } else {
            assert(ms2[k1] == ms[k1] && ms2[k2] == ms[k2]);
        }
    }
}

/// The relocation branch of one scan step preserves the invariant.
proof fn lemma_push_cell_inv_move(init: Seq<usize>, s: MoveState, d: Dir, p: int)
    requires
        wf_cells(init),
        cell_sum(init) <= crate::model::MAX_TOTAL,
        scan_inv(init, s),
        0 <= p < 16,
        s.cells[p] != 0,
        reach(s.cells, d, p, max_steps(d, p) as nat) >= 1,
        !s.merged[p + reach(s.cells, d, p, max_steps(d, p) as nat) * stride(d)],
        s.cells[p + reach(s.cells, d, p, max_steps(d, p) as nat) * stride(d)] != s.cells[p],
    ensures
        scan_inv(init, push_cell(s, d, p)),
{
    let v: usize = s.cells[p];
    let n: int = reach(s.cells, d, p, max_steps(d, p) as nat) as int;
    lemma_dest_facts(s.cells, d, p);
    let dest: int = p + n * stride(d);
    assert(s.cells[dest] == 0);

    let c1 = s.cells.update(dest, v);
    let c2 = c1.update(p, 0);
    let s2 = push_cell(s, d, p);
    assert(s2.cells == c2);
    assert(s2.merged == s.merged && s2.merges == s.merges && s2.score == s.score);

    // well-formedness of the new board
    assert forall|i: int| 0 <= i < 16 implies valid_cell(#[trigger] c2[i]) by {
        if i != dest && i != p {
            assert(c2[i] == s.cells[i]);
        }
    }

    // total conserved
    lemma_cell_sum_update(s.cells, dest, v);
    lemma_cell_sum_update(c1, p, 0);
    assert(c1[p] == v);
    assert(cell_sum(c2) == cell_sum(init));

    // number of non-empty cells unchanged
    lemma_nonzero_count_update(s.cells, dest, v);
    lemma_nonzero_count_update(c1, p, 0);
    assert(nonzero_count(c2) == nonzero_count(s.cells));

    // the maximum does not drop
    lemma_max_cell_witness(s.cells);
    let i0 = choose|i: int| 0 <= i < 16 && s.cells[i] == max_cell(s.cells);
    if i0 == dest {
        lemma_max_cell_nonneg(c2);
        assert(s.cells[i0] == 0);
    } else if i0 == p {
        lemma_max_cell_ge(c2, dest);
        assert(c2[dest] == v);
    } else {
        lemma_max_cell_ge(c2, i0);
        assert(c2[i0] == s.cells[i0]);
    }
    assert(max_cell(c2) >= max_cell(s.cells));

    // the multiset of non-empty values is unchanged
    lemma_nonzero_mset_update(s.cells, dest, v);
    lemma_nonzero_mset_update(c1, p, 0);
    assert forall|y: usize| nonzero_mset(c2).count(y) == nonzero_mset(s.cells).count(y) by {
        assert(nonzero_mset(c1).add(put_one(s.cells[dest])).count(y) == nonzero_mset(
            s.cells,
        ).add(put_one(v)).count(y));
        assert(nonzero_mset(c2).add(put_one(c1[p])).count(y) == nonzero_mset(c1).add(
            put_one(0),
        ).count(y));
    }
    assert(nonzero_mset(c2) =~= nonzero_mset(s.cells));
    assert(nonzero_mset(c2).add(merges_pairs(s.merges)) == nonzero_mset(init).add(
        merges_created(s.merges),
    ));
}

/// Every prefix of a move's scan satisfies the per-move invariant.
pub proof fn lemma_scan_inv(init: Seq<usize>, d: Dir, t: nat)
    requires
        wf_cells(init),
        cell_sum(init) <= crate::model::MAX_TOTAL,
        t <= 12,
    ensures
        scan_inv(init, run_scan(init, d, t)),
    decreases t,
{
    if t == 0 {
        let s = init_state(init);
        assert(s.merged.len() == 16);
        assert(merges_pairs(s.merges) =~= Multiset::<usize>::empty());
        assert(merges_created(s.merges) =~= Multiset::<usize>::empty());
        assert(nonzero_mset(s.cells).add(merges_pairs(s.merges)) =~= nonzero_mset(init).add(
            merges_created(s.merges),
        ));
        assert forall|dd: int| 0 <= dd < 16 implies ((#[trigger] s.merged[dd]) <==> exists|k: int|
            0 <= k < s.merges.len() && (#[trigger] s.merges[k]).0 == dd) by {
            assert(!s.merged[dd]);
        }
    } else {
        lemma_scan_inv(init, d, (t - 1) as nat);
        lemma_scan_at_bounds(d, t - 1);
        lemma_push_cell_inv(init, run_scan(init, d, (t - 1) as nat), d, scan_at(d, t - 1));
    }
}

/// The score accumulated so far never exceeds 16 times the board total.
pub proof fn lemma_score_bound(init: Seq<usize>, s: MoveState)
    requires
        wf_cells(init),
        scan_inv(init, s),
    ensures
        0 <= s.score <= 16 * cell_sum(init),
{
    lemma_cell_sum_nonneg(init);
    lemma_nonzero_count_bounds(init);
    lemma_nonzero_count_bounds(s.cells);
    assert(s.merges.len() <= 16);
    lemma_merges_total_bound(s.merges, cell_sum(init));
    assert(s.merges.len() * cell_sum(init) <= 16 * cell_sum(init)) by (nonlinear_arith)
        requires
            s.merges.len() <= 16,
            cell_sum(init) >= 0,
    ;
}

} // verus!
