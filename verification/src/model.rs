//! Mathematical model of the board and of the directional move algorithm.
//!
//! A board is a row-major `Seq<usize>` of 16 cells, indexed `4 * row + col`.
//! A move in a direction is modelled as a sequence of scan steps over the
//! board: each step considers one cell in a fixed order and slides or merges
//! the tile held there toward the target edge. The executable engine in
//! `board` is proved equal to this model step by step, and the laws in
//! `laws` are proved about the model by induction over the scan.

use vstd::prelude::*;

verus! {

use vstd::multiset::Multiset;

/// A direction in which the tiles of the board can be pushed.
///
/// `Up` pushes tiles toward row 3 and `Down` toward row 0, matching a
/// screen layout whose y axis grows upward.
#[derive(Clone, Copy, PartialEq, Eq, Structural, Debug)]
pub enum Dir {
    Left,
    Right,
    Up,
    Down,
}

/// A 2-D board coordinate: `x` is the column and `y` is the row of the
/// cell at index `4 * y + x`.
#[derive(Clone, Copy, PartialEq, Eq, Structural, Debug)]
pub struct Coord {
    pub x: u32,
    pub y: u32,
}

/// Upper bound on the total of all cell values that the move operations
/// accept. It exists only so that no merge or score addition can overflow
/// `usize` on any platform; real play stays far below it.
pub const MAX_TOTAL: usize = 0x100_0000;

/// `n` is a power of two with `n >= 2`.
pub open spec fn is_pow2(n: int) -> bool
    decreases n,
{
    if n < 2 {
        false
    } else if n == 2 {
        true
    } else {
        n % 2 == 0 && is_pow2(n / 2)
    }
}

/// A cell is empty (0) or holds a power of two that is at least 2.
pub open spec fn valid_cell(v: usize) -> bool {
    v == 0 || is_pow2(v as int)
}

/// A well-formed board: 16 cells, each empty or a power of two.
pub open spec fn wf_cells(s: Seq<usize>) -> bool {
    &&& s.len() == 16
    &&& forall|i: int| 0 <= i < 16 ==> valid_cell(#[trigger] s[i])
}

/// The total of all cell values.
pub open spec fn cell_sum(s: Seq<usize>) -> int
    decreases s.len(),
{
    if s.len() == 0 {
        0
    } else {
        cell_sum(s.drop_last()) + s.last()
    }
}

/// The number of non-empty cells.
pub open spec fn nonzero_count(s: Seq<usize>) -> int
    decreases s.len(),
{
    if s.len() == 0 {
        0
    } else {
        nonzero_count(s.drop_last()) + (if s.last() == 0 {
            0int
        } else {
            1int
        })
    }
}

/// The multiset of the values of the non-empty cells.
pub open spec fn nonzero_mset(s: Seq<usize>) -> Multiset<usize>
    decreases s.len(),
{
    if s.len() == 0 {
        Multiset::empty()
    } else if s.last() == 0 {
        nonzero_mset(s.drop_last())
    } else {
        nonzero_mset(s.drop_last()).insert(s.last())
    }
}

/// The multiset holding one copy of a value, or nothing for an empty cell.
pub open spec fn put_one(v: usize) -> Multiset<usize> {
    if v == 0 {
        Multiset::empty()
    } else {
        Multiset::singleton(v)
    }
}

/// The score delta of a move: each merge of a pair of cells of value `v`
/// contributes the created value `2 * v`.
pub open spec fn merges_total(ms: Seq<(int, usize)>) -> int
    decreases ms.len(),
{
    if ms.len() == 0 {
        0
    } else {
        merges_total(ms.drop_last()) + 2 * ms.last().1
    }
}

/// The multiset of the values consumed by the merges: two copies of the
/// pair value for each merge.
pub open spec fn merges_pairs(ms: Seq<(int, usize)>) -> Multiset<usize>
    decreases ms.len(),
{
    if ms.len() == 0 {
        Multiset::empty()
    } else {
        merges_pairs(ms.drop_last()).insert(ms.last().1).insert(ms.last().1)
    }
}

/// The multiset of the values created by the merges: one doubled value
/// for each merge.
pub open spec fn merges_created(ms: Seq<(int, usize)>) -> Multiset<usize>
    decreases ms.len(),
{
    if ms.len() == 0 {
        Multiset::empty()
    } else {
        merges_created(ms.drop_last()).insert((2 * ms.last().1) as usize)
    }
}

/// The largest cell value (0 on an all-empty board).
pub open spec fn max_cell(s: Seq<usize>) -> int
    decreases s.len(),
{
    if s.len() == 0 {
        0
    } else if s.last() >= max_cell(s.drop_last()) {
        s.last() as int
    } else {
        max_cell(s.drop_last())
    }
}

/// Some cell is empty.
pub open spec fn has_empty(s: Seq<usize>) -> bool {
    exists|i: int| 0 <= i < s.len() && s[i] == 0
}

/// The indices of the empty cells, in increasing order.
pub open spec fn zero_indices(s: Seq<usize>) -> Seq<int>
    decreases s.len(),
{
    if s.len() == 0 {
        Seq::empty()
    } else if s.last() == 0 {
        zero_indices(s.drop_last()).push(s.len() - 1)
    } else {
        zero_indices(s.drop_last())
    }
}

/// The coordinate of the cell at index `p`.
pub open spec fn coord_of(p: int) -> Coord {
    Coord { x: (p % 4) as u32, y: (p / 4) as u32 }
}

/// Index displacement of one step toward the target edge.
pub open spec fn stride(d: Dir) -> int {
    match d {
        Dir::Left => -1,
        Dir::Right => 1,
        Dir::Down => -4,
        Dir::Up => 4,
    }
}

/// How many cells lie between cell `p` and the target edge.
pub open spec fn max_steps(d: Dir, p: int) -> int {
    match d {
        Dir::Left => p % 4,
        Dir::Right => 3 - p % 4,
        Dir::Down => p / 4,
        Dir::Up => 3 - p / 4,
    }
}

/// The index of the cell processed at scan step `t` of a move.
///
/// A move processes the 12 cells that are not on the target edge, starting
/// with the line nearest that edge, so a tile is considered only after
/// every tile nearer the edge has settled.
pub open spec fn scan_at(d: Dir, t: int) -> int {
    match d {
        Dir::Left => 4 * (t / 3) + 1 + t % 3,
        Dir::Right => 4 * (t / 3) + 2 - t % 3,
        Dir::Down => 4 * (1 + t / 4) + t % 4,
        Dir::Up => 4 * (2 - t / 4) + t % 4,
    }
}

/// The tile at `p` can cross or land on the cell `k` steps toward the edge:
/// that cell is empty or holds the same value.
pub open spec fn passable(s: Seq<usize>, d: Dir, p: int, k: int) -> bool {
    s[p + k * stride(d)] == 0 || s[p + k * stride(d)] == s[p]
}

/// The number of consecutive passable steps from `p`, looking at most `n`
/// steps toward the edge: the walk stops at the first blocked cell.
pub open spec fn reach(s: Seq<usize>, d: Dir, p: int, n: nat) -> nat
    decreases n,
{
    if n == 0 {
        0
    } else {
        let r = reach(s, d, p, (n - 1) as nat);
        if r == n - 1 && passable(s, d, p, n as int) {
            n
        } else {
            r
        }
    }
}

/// The evolving state of one move: the cells, the per-cell flag recording
/// that a destination already absorbed a merge, the movement records and
/// score delta accumulated so far, and the list of merges performed so far
/// as pairs of destination index and merged pair value.
pub struct MoveState {
    pub cells: Seq<usize>,
    pub merged: Seq<bool>,
    pub recs: Seq<(Coord, Coord)>,
    pub score: int,
    pub merges: Seq<(int, usize)>,
}

/// The state at the start of a move: no merges, no records, no score.
pub open spec fn init_state(cells: Seq<usize>) -> MoveState {
    MoveState {
        cells: cells,
        merged: Seq::new(16, |i: int| false),
        recs: Seq::empty(),
        score: 0,
        merges: Seq::empty(),
    }
}

/// One scan step: consider the tile at cell `p` and slide or merge it
/// toward the target edge.
///
/// An empty cell is skipped. Otherwise the tile's destination is the
/// furthest cell whose whole path from `p` is passable; if there is none
/// the tile stays. A destination that already absorbed a merge this move
/// is inert: nothing happens. Otherwise the tile merges there (equal
/// values) or moves there (empty cell), the source is cleared, and the
/// relocation is recorded.
pub open spec fn push_cell(s: MoveState, d: Dir, p: int) -> MoveState {
    let v = s.cells[p];
    if v == 0 {
        s
    } else {
        let n = reach(s.cells, d, p, max_steps(d, p) as nat);
        if n == 0 {
            s
        } else {
            let dest = p + n * stride(d);
            if s.merged[dest] {
                s
            } else if s.cells[dest] == v {
                MoveState {
                    cells: s.cells.update(dest, (v + v) as usize).update(p, 0),
                    merged: s.merged.update(dest, true),
                    recs: s.recs.push((coord_of(p), coord_of(dest))),
                    score: s.score + v + v,
                    merges: s.merges.push((dest, v)),
                }
            } else {
                MoveState {
                    cells: s.cells.update(dest, v).update(p, 0),
                    merged: s.merged,
                    recs: s.recs.push((coord_of(p), coord_of(dest))),
                    score: s.score,
                    merges: s.merges,
                }
            }
        }
    }
}

/// The state after the first `t` scan steps of a move in direction `d`.
pub open spec fn run_scan(cells: Seq<usize>, d: Dir, t: nat) -> MoveState
    decreases t,
{
    if t == 0 {
        init_state(cells)
    } else {
        push_cell(run_scan(cells, d, (t - 1) as nat), d, scan_at(d, t - 1))
    }
}

/// The complete move of the board in direction `d`.
pub open spec fn spec_move(cells: Seq<usize>, d: Dir) -> MoveState {
    run_scan(cells, d, 12)
}

/// Some direction changes the board, that is, produces a movement record.
pub open spec fn spec_has_legal_move(s: Seq<usize>) -> bool {
    ||| spec_move(s, Dir::Up).recs.len() > 0
    ||| spec_move(s, Dir::Down).recs.len() > 0
    ||| spec_move(s, Dir::Left).recs.len() > 0
    ||| spec_move(s, Dir::Right).recs.len() > 0
}

} // verus!
