//! The executable board engine: a 4x4 grid of cells with the four
//! directional move operations, tile spawning, and the terminal-state
//! queries. Every operation is specified against the model in `model`
//! and verified against it.

use vstd::prelude::*;

verus! {

use crate::lemmas::lemma_cell_sum_pair;
use crate::lemmas::lemma_cell_sum_update;
use crate::lemmas::lemma_dest_facts;
use crate::lemmas::lemma_max_cell_ge;
use crate::lemmas::lemma_max_cell_witness;
use crate::lemmas::lemma_reach_stops;
use crate::lemmas::lemma_scan_at_bounds;
use crate::lemmas::lemma_scan_inv;
use crate::lemmas::lemma_score_bound;
use crate::lemmas::lemma_stride_mul;
use crate::lemmas::lemma_zero_indices;
use crate::lemmas::scan_inv;
use crate::model::Coord;
use crate::model::Dir;
use crate::model::MAX_TOTAL;
use crate::model::MoveState;
use crate::model::cell_sum;
use crate::model::coord_of;
use crate::model::has_empty;
use crate::model::is_pow2;
use crate::model::max_cell;
use crate::model::max_steps;
use crate::model::passable;
use crate::model::push_cell;
use crate::model::reach;
use crate::model::run_scan;
use crate::model::scan_at;
use crate::model::spec_has_legal_move;
use crate::model::spec_move;
use crate::model::stride;
use crate::model::valid_cell;
use crate::model::wf_cells;
use crate::model::zero_indices;

/// Relies on rand 0.8's `Rng::gen_range` over the range `0..n`: the result
/// is drawn uniformly from that range, in particular it is always below
/// `n`, and the call cannot panic because the range is non-empty.
#[verifier::external_body]
fn random_below(n: usize) -> (r: usize)
    requires
        n >= 1,
    ensures
        r < n,
{
    rand::Rng::gen_range(&mut rand::thread_rng(), 0..n)
}

/// The 4x4 board: 16 cells in row-major order, each 0 (empty) or a power
/// of two that is at least 2.
pub struct Grid {
    pub cells: Vec<usize>,
}

impl Grid {
    /// The board is well formed: 16 cells, each empty or a power of two.
    pub open spec fn wf(&self) -> bool {
        wf_cells(self.cells@)
    }

    /// A fresh board with every cell empty.
    pub fn new() -> (g: Grid)
        ensures
            g.wf(),
            g.cells@.len() == 16,
            forall|i: int| 0 <= i < 16 ==> g.cells@[i] == 0,
            cell_sum(g.cells@) == 0,
    {
        Grid::default()
    }

    /// A fresh board with every cell empty.
    pub fn default() -> (g: Grid)
        ensures
            g.wf(),
            g.cells@.len() == 16,
            forall|i: int| 0 <= i < 16 ==> g.cells@[i] == 0,
            cell_sum(g.cells@) == 0,
    {
        let mut cells: Vec<usize> = Vec::new();
        let mut k: usize = 0;
        while k < 16
            invariant
                k <= 16,
                cells@.len() == k,
                forall|i: int| 0 <= i < k ==> cells@[i] == 0,
            decreases 16 - k,
        {
            cells.push(0);
            k = k + 1;
        }
        proof {
            lemma_sum_of_zeros(cells@);
        }
        Grid { cells }
    }

    /// An independent copy of the board, for side-effect-free probes.
    pub fn clone_board(&self) -> (g: Grid)
        ensures
            g.cells@ == self.cells@,
    {
        let mut cells: Vec<usize> = Vec::new();
        let mut k: usize = 0;
        while k < self.cells.len()
            invariant
                k <= self.cells@.len(),
                cells@ == self.cells@.take(k as int),
            decreases self.cells@.len() - k,
        {
            cells.push(self.cells[k]);
            proof {
                assert(cells@ =~= self.cells@.take(k as int + 1));
            }
            k = k + 1;
        }
        proof {
            assert(self.cells@.take(self.cells@.len() as int) =~= self.cells@);
        }
        Grid { cells }
    }

    /// The row-major index of the cell in column `i` of row `j` on a board
    /// of width `w`.
    pub fn index_2d(i: usize, j: usize, w: usize, _h: usize) -> (idx: usize)
        requires
            j * w + i <= usize::MAX,
        ensures
            idx == j * w + i,
    {
        j * w + i
    }

    /// The column and row of the cell at row-major `index` on a board of
    /// width `w`.
    pub fn index_to_coord(index: usize, w: usize, _h: usize) -> (c: Coord)
        requires
            w >= 1,
            index % w <= u32::MAX,
            index / w <= u32::MAX,
        ensures
            c.x == index % w,
            c.y == index / w,
    {
        Coord { x: (index % w) as u32, y: (index / w) as u32 }
    }

    /// Whether any cell is empty.
    pub fn has_empty_cells(&self) -> (r: bool)
        requires
            self.cells@.len() == 16,
        ensures
            r == has_empty(self.cells@),
    {
        let mut i: usize = 0;
        while i < 16
            invariant
                i <= 16,
                self.cells@.len() == 16,
                forall|j: int| 0 <= j < i ==> self.cells@[j] != 0,
            decreases 16 - i,
        {
            if self.cells[i] == 0 {
                return true;
            }
            i = i + 1;
        }
        false
    }

    /// The largest cell value on the board.
    pub fn max_value(&self) -> (m: usize)
        requires
            self.cells@.len() == 16,
        ensures
            m == max_cell(self.cells@),
            forall|i: int| 0 <= i < 16 ==> self.cells@[i] <= m,
            exists|i: int| 0 <= i < 16 && self.cells@[i] == m,
    {
        let mut m: usize = 0;
        let mut i: usize = 0;
        while i < 16
            invariant
                i <= 16,
                self.cells@.len() == 16,
                m == max_cell(self.cells@.take(i as int)),
            decreases 16 - i,
        {
            proof {
                assert(self.cells@.take(i as int + 1).drop_last() =~= self.cells@.take(i as int));
                assert(self.cells@.take(i as int + 1).last() == self.cells@[i as int]);
            }
            if self.cells[i] > m {
                m = self.cells[i];
            }
            i = i + 1;
        }
        proof {
            assert(self.cells@.take(16) =~= self.cells@);
            assert forall|i: int| 0 <= i < 16 implies self.cells@[i] <= m by {
                lemma_max_cell_ge(self.cells@, i);
            }
            lemma_max_cell_witness(self.cells@);
        }
        m
    }

    /// One scan step of a move: consider the tile at cell `p` and slide or
    /// merge it toward the target edge, exactly as the model's `push_cell`.
    fn step_cell(
        &mut self,
        merged: &mut Vec<bool>,
        moved: &mut Vec<(Coord, Coord)>,
        score: &mut usize,
        d: Dir,
        p: usize,
        Ghost(init): Ghost<Seq<usize>>,
        Ghost(st): Ghost<MoveState>,
    )
        requires
            old(self).cells@ == st.cells,
            old(merged)@ == st.merged,
            old(moved)@ == st.recs,
            *old(score) as int == st.score,
            scan_inv(init, st),
            wf_cells(init),
            cell_sum(init) <= MAX_TOTAL,
            p < 16,
        ensures
            final(self).cells@ == push_cell(st, d, p as int).cells,
            final(merged)@ == push_cell(st, d, p as int).merged,
            final(moved)@ == push_cell(st, d, p as int).recs,
            *final(score) as int == push_cell(st, d, p as int).score,
    {
        let v: usize = self.cells[p];
        if v == 0 {
            return ;
        }
        let maxs: usize = match d {
            Dir::Left => p % 4,
            Dir::Right => 3 - p % 4,
            Dir::Down => p / 4,
            Dir::Up => 3 - p / 4,
        };
        assert(maxs as int == max_steps(d, p as int));

        let mut best: usize = 0;
        let mut blocked: bool = false;
        let mut k: usize = 1;
        while k <= maxs && !blocked
            invariant
                1 <= k <= maxs + 1,
                maxs as int == max_steps(d, p as int),
                p < 16,
                self.cells@ == st.cells,
                st.cells.len() == 16,
                v == st.cells[p as int],
                v != 0,
                best as int == reach(st.cells, d, p as int, (k - 1) as nat),
                !blocked ==> best == k - 1,
                blocked ==> reach(st.cells, d, p as int, maxs as nat) == best,
            decreases maxs + 1 - k,
        {
            let idx: usize = match d {
                Dir::Left => p - k,
                Dir::Right => p + k,
                Dir::Down => p - 4 * k,
                Dir::Up => p + 4 * k,
            };
            proof {
                lemma_stride_mul(d, k as int);
                match d {
                    Dir::Left => assert(idx as int == p + k * stride(d)),
                    Dir::Right => assert(idx as int == p + k * stride(d)),
                    Dir::Down => {
                        assert(stride(d) == -4);
                        assert(k * stride(d) == -4 * k);
                        assert(4 * k <= p);
                        assert(idx == p - 4 * k);
                        assert(idx as int == p + k * stride(d));
                    },
                    Dir::Up => assert(idx as int == p + k * stride(d)),
                }
            }
            assert(idx < 16);
            if self.cells[idx] == 0 || self.cells[idx] == v {
                best = k;
                proof {
                    assert(passable(st.cells, d, p as int, k as int));
                    assert(reach(st.cells, d, p as int, k as nat) == k);
                }
            } else {
                blocked = true;
                proof {
                    assert(!passable(st.cells, d, p as int, k as int));
                    lemma_reach_stops(st.cells, d, p as int, k as int, maxs as int);
                }
            }
            k = k + 1;
        }
        assert(best as int == reach(st.cells, d, p as int, maxs as nat));

        if best == 0 {
            return ;
        }
        proof {
            lemma_dest_facts(st.cells, d, p as int);
            lemma_stride_mul(d, best as int);
        }
        let dest: usize = match d {
            Dir::Left => p - best,
            Dir::Right => p + best,
            Dir::Down => p - 4 * best,
            Dir::Up => p + 4 * best,
        };
        assert(dest as int == p + reach(st.cells, d, p as int, max_steps(d, p as int) as nat)
            * stride(d));
        assert(dest < 16 && dest != p);

        if merged[dest] {
            return ;
        }
        let dv: usize = self.cells[dest];
        proof {
            lemma_cell_sum_pair(st.cells, dest as int, p as int);
            lemma_score_bound(init, st);
        }
        let from: Coord = Coord { x: (p % 4) as u32, y: (p / 4) as u32 };
        let to: Coord = Coord { x: (dest % 4) as u32, y: (dest / 4) as u32 };
        assert(from == coord_of(p as int) && to == coord_of(dest as int));
        if dv == v {
            let newv: usize = dv + v;
            self.cells.set(dest, newv);
            self.cells.set(p, 0);
            merged.set(dest, true);
            moved.push((from, to));
            *score = *score + newv;
            assert(self.cells@ == st.cells.update(dest as int, ((v + v) as usize)).update(
                p as int,
                0,
            ));
        } else {
            assert(dv == 0);
            self.cells.set(dest, v);
            self.cells.set(p, 0);
            moved.push((from, to));
        }
    }

    /// Push all tiles of the board in direction `d`.
    ///
    /// The board is scanned line by line starting nearest the target edge;
    /// each tile travels as far as it can over empty cells, merging with
    /// an equal tile at its destination unless that destination already
    /// absorbed a merge this move. Returns one record per relocated tile,
    /// in scan order, together with the score delta (the total of the
    /// values created by merges). The result is exactly the model's
    /// `spec_move` of the starting board.
    pub fn move_dir(&mut self, d: Dir) -> (r: (Vec<(Coord, Coord)>, usize))
        requires
            old(self).wf(),
            cell_sum(old(self).cells@) <= MAX_TOTAL,
        ensures
            final(self).cells@ == spec_move(old(self).cells@, d).cells,
            r.0@ == spec_move(old(self).cells@, d).recs,
            r.1 as int == spec_move(old(self).cells@, d).score,
            final(self).wf(),
            cell_sum(final(self).cells@) == cell_sum(old(self).cells@),
    {
        let ghost init: Seq<usize> = self.cells@;
        let mut moved: Vec<(Coord, Coord)> = Vec::new();
        let mut score: usize = 0;
        let mut merged: Vec<bool> = Vec::new();
        let mut k: usize = 0;
        while k < 16
            invariant
                k <= 16,
                merged@.len() == k,
                forall|i: int| 0 <= i < k ==> merged@[i] == false,
            decreases 16 - k,
        {
            merged.push(false);
            k = k + 1;
        }
        proof {
            assert(merged@ =~= Seq::new(16, |i: int| false));
            lemma_scan_inv(init, d, 0);
        }

        let mut t: usize = 0;
        while t < 12
            invariant
                t <= 12,
                wf_cells(init),
                cell_sum(init) <= MAX_TOTAL,
                self.cells@ == run_scan(init, d, t as nat).cells,
                merged@ == run_scan(init, d, t as nat).merged,
                moved@ == run_scan(init, d, t as nat).recs,
                score as int == run_scan(init, d, t as nat).score,
            decreases 12 - t,
        {
            proof {
                lemma_scan_inv(init, d, t as nat);
                lemma_scan_at_bounds(d, t as int);
            }
            let p: usize = match d {
                Dir::Left => 4 * (t / 3) + 1 + t % 3,
                Dir::Right => 4 * (t / 3) + 2 - t % 3,
                Dir::Down => 4 * (1 + t / 4) + t % 4,
                Dir::Up => 4 * (2 - t / 4) + t % 4,
            };
            assert(p as int == scan_at(d, t as int));
            self.step_cell(
                &mut merged,
                &mut moved,
                &mut score,
                d,
                p,
                Ghost(init),
                Ghost(run_scan(init, d, t as nat)),
            );
            proof {
                assert(run_scan(init, d, (t + 1) as nat) == push_cell(
                    run_scan(init, d, t as nat),
                    d,
                    scan_at(d, t as int),
                ));
            }
            t = t + 1;
        }
        proof {
            lemma_scan_inv(init, d, 12);
        }
        (moved, score)
    }

    /// Push all tiles toward column 0. Records and score as `move_dir`.
    pub fn move_left(&mut self) -> (r: (Vec<(Coord, Coord)>, usize))
        requires
            old(self).wf(),
            cell_sum(old(self).cells@) <= MAX_TOTAL,
        ensures
            final(self).cells@ == spec_move(old(self).cells@, Dir::Left).cells,
            r.0@ == spec_move(old(self).cells@, Dir::Left).recs,
            r.1 as int == spec_move(old(self).cells@, Dir::Left).score,
            final(self).wf(),
            cell_sum(final(self).cells@) == cell_sum(old(self).cells@),
    {
        self.move_dir(Dir::Left)
    }

    /// Push all tiles toward column 3. Records and score as `move_dir`.
    pub fn move_right(&mut self) -> (r: (Vec<(Coord, Coord)>, usize))
        requires
            old(self).wf(),
            cell_sum(old(self).cells@) <= MAX_TOTAL,
        ensures
            final(self).cells@ == spec_move(old(self).cells@, Dir::Right).cells,
            r.0@ == spec_move(old(self).cells@, Dir::Right).recs,
            r.1 as int == spec_move(old(self).cells@, Dir::Right).score,
            final(self).wf(),
            cell_sum(final(self).cells@) == cell_sum(old(self).cells@),
    {
        self.move_dir(Dir::Right)
    }

    /// Push all tiles toward row 0. Records and score as `move_dir`.
    pub fn move_down(&mut self) -> (r: (Vec<(Coord, Coord)>, usize))
        requires
            old(self).wf(),
            cell_sum(old(self).cells@) <= MAX_TOTAL,
        ensures
            final(self).cells@ == spec_move(old(self).cells@, Dir::Down).cells,
            r.0@ == spec_move(old(self).cells@, Dir::Down).recs,
            r.1 as int == spec_move(old(self).cells@, Dir::Down).score,
            final(self).wf(),
            cell_sum(final(self).cells@) == cell_sum(old(self).cells@),
    {
        self.move_dir(Dir::Down)
    }

    /// Push all tiles toward row 3. Records and score as `move_dir`.
    pub fn move_up(&mut self) -> (r: (Vec<(Coord, Coord)>, usize))
        requires
            old(self).wf(),
            cell_sum(old(self).cells@) <= MAX_TOTAL,
        ensures
            final(self).cells@ == spec_move(old(self).cells@, Dir::Up).cells,
            r.0@ == spec_move(old(self).cells@, Dir::Up).recs,
            r.1 as int == spec_move(old(self).cells@, Dir::Up).score,
            final(self).wf(),
            cell_sum(final(self).cells@) == cell_sum(old(self).cells@),
    {
        self.move_dir(Dir::Up)
    }

    /// Whether some direction would change the board: the four moves are
    /// tried on an independent copy, and the caller's board is untouched.
    pub fn has_legal_move(&self) -> (r: bool)
        requires
            self.wf(),
            cell_sum(self.cells@) <= MAX_TOTAL,
        ensures
            r == spec_has_legal_move(self.cells@),
    {
        let mut g: Grid = self.clone_board();
        let up: (Vec<(Coord, Coord)>, usize) = g.move_dir(Dir::Up);
        if up.0.len() > 0 {
            return true;
        }
        proof {
            crate::laws::lemma_noop_move_unchanged(self.cells@, Dir::Up);
        }
        let down: (Vec<(Coord, Coord)>, usize) = g.move_dir(Dir::Down);
        if down.0.len() > 0 {
            return true;
        }
        proof {
            crate::laws::lemma_noop_move_unchanged(self.cells@, Dir::Down);
        }
        let left: (Vec<(Coord, Coord)>, usize) = g.move_dir(Dir::Left);
        if left.0.len() > 0 {
            return true;
        }
        proof {
            crate::laws::lemma_noop_move_unchanged(self.cells@, Dir::Left);
        }
        let right: (Vec<(Coord, Coord)>, usize) = g.move_dir(Dir::Right);
        if right.0.len() > 0 {
            return true;
        }
        proof {
            crate::laws::lemma_noop_move_unchanged(self.cells@, Dir::Right);
        }
        false
    }

    /// The indices of the empty cells, in increasing order.
    fn empty_cells(&self) -> (e: Vec<usize>)
        requires
            self.cells@.len() == 16,
        ensures
            e@.map_values(|u: usize| u as int) == zero_indices(self.cells@),
    {
        let mut e: Vec<usize> = Vec::new();
        let mut i: usize = 0;
        while i < 16
            invariant
                i <= 16,
                self.cells@.len() == 16,
                e@.map_values(|u: usize| u as int) == zero_indices(self.cells@.take(i as int)),
            decreases 16 - i,
        {
            proof {
                assert(self.cells@.take(i as int + 1).drop_last() =~= self.cells@.take(i as int));
                assert(self.cells@.take(i as int + 1).last() == self.cells@[i as int]);
            }
            if self.cells[i] == 0 {
                let ghost prev = e@;
                e.push(i);
                proof {
                    assert(e@.map_values(|u: usize| u as int) =~= prev.map_values(
                        |u: usize| u as int,
                    ).push(i as int));
                }
            }
            i = i + 1;
        }
        proof {
            assert(self.cells@.take(16) =~= self.cells@);
        }
        e
    }

    /// Place a tile on the `slot`-th empty cell, counted in row-major
    /// order: value 4 if `spawn_four` holds, else 2. This is the
    /// deterministic core of tile spawning; the two choices are injected
    /// so that play can be replayed and tested with scripted draws.
    pub fn spawn_tile(&mut self, slot: usize, spawn_four: bool) -> (c: Coord)
        requires
            old(self).wf(),
            slot < zero_indices(old(self).cells@).len(),
        ensures
            final(self).cells@ == old(self).cells@.update(
                zero_indices(old(self).cells@)[slot as int],
                if spawn_four {
                    4usize
                } else {
                    2usize
                },
            ),
            c == coord_of(zero_indices(old(self).cells@)[slot as int]),
            old(self).cells@[zero_indices(old(self).cells@)[slot as int]] == 0,
            final(self).wf(),
            cell_sum(final(self).cells@) == cell_sum(old(self).cells@) + (if spawn_four {
                4int
            } else {
                2int
            }),
    {
        proof {
            lemma_zero_indices(self.cells@);
        }
        let ghost zi = zero_indices(self.cells@);
        let e: Vec<usize> = self.empty_cells();
        proof {
            assert(e@.map_values(|u: usize| u as int).len() == e@.len());
            assert(e@.map_values(|u: usize| u as int)[slot as int] == e@[slot as int] as int);
        }
        let idx: usize = e[slot];
        assert(idx as int == zi[slot as int]);
        let val: usize = if spawn_four {
            4
        } else {
            2
        };
        let ghost before = self.cells@;
        self.cells.set(idx, val);
        proof {
            assert(is_pow2(2));
            assert(is_pow2(4));
            assert(valid_cell(val));
            assert forall|i: int| 0 <= i < 16 implies valid_cell(#[trigger] self.cells@[i]) by {
                if i != idx {
                    assert(self.cells@[i] == before[i]);
                }
            }
            lemma_cell_sum_update(before, idx as int, val);
        }
        Coord { x: (idx % 4) as u32, y: (idx / 4) as u32 }
    }

    /// Spawn a tile on a uniformly random empty cell: value 2 with
    /// probability 0.9 and 4 with probability 0.1, returning the chosen
    /// coordinate, or nothing when the board has no empty cell (the
    /// board is then untouched).
    pub fn add_random_tile(&mut self) -> (c: Option<Coord>)
        requires
            old(self).wf(),
        ensures
            final(self).wf(),
            !has_empty(old(self).cells@) ==> c is None && final(self).cells@ == old(self).cells@,
            has_empty(old(self).cells@) ==> c is Some,
            c matches Some(co) ==> co.x < 4 && co.y < 4 && old(self).cells@[4 * co.y + co.x] == 0
                && (final(self).cells@ == old(self).cells@.update(4 * co.y + co.x, 2usize)
                || final(self).cells@ == old(self).cells@.update(4 * co.y + co.x, 4usize)),
            cell_sum(final(self).cells@) <= cell_sum(old(self).cells@) + 4,
    {
        proof {
            lemma_zero_indices(self.cells@);
            crate::lemmas::lemma_cell_sum_nonneg(self.cells@);
        }
        let e: Vec<usize> = self.empty_cells();
        proof {
            assert(e@.map_values(|u: usize| u as int).len() == e@.len());
        }
        if e.len() == 0 {
            return None;
        }
        let slot: usize = random_below(e.len());
        let spawn_four: bool = random_below(10) == 9;
        let co: Coord = self.spawn_tile(slot, spawn_four);
        proof {
            let idx = zero_indices(old(self).cells@)[slot as int];
            assert(co == coord_of(idx));
            assert(4 * (idx / 4) + idx % 4 == idx);
            assert(4 * co.y + co.x == idx);
        }
        Some(co)
    }
}

/// The background colour of a tile of the given value, as a packed
/// 0xRRGGBB triple: the classic palette of the game, with magenta for
/// values past the largest styled tile.
pub open spec fn spec_tile_colour(score: u32) -> u32 {
    if score == 0 {
        0xcdc1b4
    } else if score == 2 {
        0xeee4da
    } else if score == 4 {
        0xede0c8
    } else if score == 8 {
        0xf2b179
    } else if score == 16 {
        0xf59563
    } else if score == 32 {
        0xf67c5f
    } else if score == 64 {
        0xf65e3b
    } else if score == 128 {
        0xedcf72
    } else if score == 256 {
        0xedcc61
    } else if score == 512 {
        0xedc850
    } else if score == 1024 {
        0xedc53f
    } else if score == 2048 {
        0xedc22e
    } else {
        0xff00ff
    }
}

/// The background colour for a cell value, as a packed 0xRRGGBB triple.
pub fn score_to_colour(score: u32) -> (c: u32)
    ensures
        c == spec_tile_colour(score),
{
    match score {
        0 => 0xcdc1b4,
        2 => 0xeee4da,
        4 => 0xede0c8,
        8 => 0xf2b179,
        16 => 0xf59563,
        32 => 0xf67c5f,
        64 => 0xf65e3b,
        128 => 0xedcf72,
        256 => 0xedcc61,
        512 => 0xedc850,
        1024 => 0xedc53f,
        2048 => 0xedc22e,
        _ => 0xff00ff,
    }
}

/// An all-zero board has total 0.
proof fn lemma_sum_of_zeros(s: Seq<usize>)
    requires
        forall|i: int| 0 <= i < s.len() ==> s[i] == 0,
    ensures
        cell_sum(s) == 0,
    decreases s.len(),
{
    if s.len() > 0 {
        lemma_sum_of_zeros(s.drop_last());
    }
}

} // verus!
