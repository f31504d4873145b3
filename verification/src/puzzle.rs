//! The puzzle state: a grid of tile labels with one blank cell, together
//! with the move history that produced it and an optional search rank.

use vstd::prelude::*;

use crate::direction::Direction;
use crate::strategy::Metric;

verus! {

/// The non-negative difference of two integers.
pub open spec fn abs_diff(a: int, b: int) -> nat {
    if a >= b {
        (a - b) as nat
    } else {
        (b - a) as nat
    }
}

/// Manhattan distance of the tile at cell `i` from its goal cell; the
/// blank contributes nothing.
pub open spec fn cell_distance(grid: Seq<u8>, width: nat, i: int) -> nat {
    if grid[i] == 0 {
        0
    } else {
        let v = grid[i] - 1;
        let w = width as int;
        abs_diff(i % w, v % w) + abs_diff(i / w, v / w)
    }
}

/// Sum of `cell_distance` over the first `n` cells.
pub open spec fn manhattan_upto(grid: Seq<u8>, width: nat, n: int) -> nat
    decreases n,
{
    if n <= 0 {
        0
    } else {
        manhattan_upto(grid, width, n - 1) + cell_distance(grid, width, n - 1)
    }
}

/// The Manhattan metric of a grid: the sum over all non-blank tiles of
/// the grid distance from their current cell to their goal cell.
pub open spec fn manhattan_of(grid: Seq<u8>, width: nat) -> nat {
    manhattan_upto(grid, width, grid.len() as int)
}

/// 1 when the tile at cell `i` is a misplaced non-blank tile, else 0.
pub open spec fn cell_misplaced(grid: Seq<u8>, i: int) -> nat {
    if grid[i] != 0 && (grid[i] as int) != i + 1 {
        1
    } else {
        0
    }
}

/// Sum of `cell_misplaced` over the first `n` cells.
pub open spec fn hamming_upto(grid: Seq<u8>, n: int) -> nat
    decreases n,
{
    if n <= 0 {
        0
    } else {
        hamming_upto(grid, n - 1) + cell_misplaced(grid, n - 1)
    }
}

/// The Hamming metric of a grid: the number of non-blank tiles that are
/// not on their goal cell.
pub open spec fn hamming_of(grid: Seq<u8>) -> nat {
    hamming_upto(grid, grid.len() as int)
}

/// The heuristic estimate of a grid under the chosen metric.
pub open spec fn estimate_of(grid: Seq<u8>, width: nat, metric: Metric) -> nat {
    match metric {
        Metric::Hamming => hamming_of(grid),
        Metric::Manhattan => manhattan_of(grid, width),
    }
}

/// The A* ranking key of a state: moves taken so far (g) plus the
/// heuristic estimate of the remaining distance (h).
pub open spec fn rank_value(m: StateModel, metric: Metric) -> nat {
    m.path.len() + estimate_of(m.grid, m.width, metric)
}

/// Clamps an unbounded rank to the machine-representable range.
pub open spec fn clamp_u64(n: nat) -> nat {
    if n > u64::MAX {
        u64::MAX as nat
    } else {
        n
    }
}

/// A state with its rank set for the chosen heuristic, or unchanged when
/// no heuristic is in play.
pub open spec fn with_rank(m: StateModel, metric: Option<Metric>) -> StateModel {
    match metric {
        None => m,
        Some(mt) => StateModel { rank: clamp_u64(rank_value(m, mt)), ..m },
    }
}

/// The successors contributed by one direction: none when the direction
/// is the reverse of the last move (when that exclusion is on) or when
/// the move leaves the grid, else the single ranked successor.
pub open spec fn neighbour_step(
    m: StateModel,
    d: Direction,
    skip_reverse: bool,
    metric: Option<Metric>,
) -> Seq<StateModel> {
    if skip_reverse && m.path.len() > 0 && d.opposite_spec() == m.path[m.path.len() - 1] {
        Seq::empty()
    } else {
        match apply_move(m, d) {
            Some(q) => seq![with_rank(q, metric)],
            None => Seq::empty(),
        }
    }
}

/// The grid reached from `grid` by a sequence of blank moves, or `None`
/// when some move in the sequence leaves the grid.
pub open spec fn replay(grid: Seq<u8>, width: nat, height: nat, path: Seq<Direction>) -> Option<
    Seq<u8>,
>
    decreases path.len(),
{
    if path.len() == 0 {
        Some(grid)
    } else {
        match replay(grid, width, height, path.drop_last()) {
            Some(g) => grid_move(g, width, height, path.last()),
            None => None,
        }
    }
}

/// Extending a valid history by one legal move keeps it valid.
pub proof fn lemma_replay_push(
    grid: Seq<u8>,
    width: nat,
    height: nat,
    path: Seq<Direction>,
    d: Direction,
    g1: Seq<u8>,
    g2: Seq<u8>,
)
    requires
        replay(grid, width, height, path) == Some(g1),
        grid_move(g1, width, height, d) == Some(g2),
    ensures
        replay(grid, width, height, path.push(d)) == Some(g2),
{
    assert(path.push(d).drop_last() =~= path);
    assert(path.push(d).last() == d);
}

/// The successors of a state, in the order the given directions are
/// listed.
pub open spec fn neighbours_spec(
    m: StateModel,
    order: Seq<Direction>,
    skip_reverse: bool,
    metric: Option<Metric>,
) -> Seq<StateModel>
    decreases order.len(),
{
    if order.len() == 0 {
        Seq::empty()
    } else {
        neighbours_spec(m, order.drop_last(), skip_reverse, metric) + neighbour_step(
            m,
            order.last(),
            skip_reverse,
            metric,
        )
    }
}

/// Mathematical model of a puzzle state: the grid as a sequence of tile
/// labels in row-major order, the history of blank moves that produced
/// it, the grid dimensions, and the A* ranking key.
pub ghost struct StateModel {
    pub grid: Seq<u8>,
    pub path: Seq<Direction>,
    pub width: nat,
    pub height: nat,
    pub rank: nat,
}

/// Well-formedness of a grid: positive dimensions small enough for `u8`
/// labels, and a grid holding each label `0 .. width*height - 1` exactly
/// once (so there is exactly one blank).
pub open spec fn wf_grid(grid: Seq<u8>, width: nat, height: nat) -> bool {
    &&& 1 <= width
    &&& 1 <= height
    &&& width * height <= 256
    &&& grid.len() == width * height
    &&& forall|i: int| 0 <= i < grid.len() ==> (grid[i] as int) < grid.len()
    &&& forall|i: int, j: int| 0 <= i < j < grid.len() ==> grid[i] != grid[j]
    &&& exists|i: int| 0 <= i < grid.len() && grid[i] == 0
}

impl StateModel {
    /// Well-formedness of a state: its grid is well formed for its
    /// dimensions.
    pub open spec fn wf(self) -> bool {
        wf_grid(self.grid, self.width, self.height)
    }
}

/// The index of the blank cell in a grid (meaningful when the grid holds
/// exactly one `0`).
pub open spec fn blank_of(grid: Seq<u8>) -> int {
    choose|i: int| 0 <= i < grid.len() && grid[i] == 0
}

/// The canonical solved grid: labels ascending in row-major order with
/// the blank in the last cell.
pub open spec fn goal_grid(width: nat, height: nat) -> Seq<u8> {
    Seq::new(
        width * height,
        |i: int| if i == width * height - 1 { 0u8 } else { (i + 1) as u8 },
    )
}

/// In a well-formed grid the blank index is the unique index holding 0.
pub proof fn lemma_blank_unique(grid: Seq<u8>, width: nat, height: nat, i: int)
    requires
        wf_grid(grid, width, height),
        0 <= i < grid.len(),
        grid[i] == 0,
    ensures
        blank_of(grid) == i,
{
    let b = blank_of(grid);
    assert(0 <= b < grid.len() && grid[b] == 0);
    if b < i {
        assert(grid[b] == grid[i]);
        assert(false);
    } else if i < b {
        assert(grid[i] == grid[b]);
        assert(false);
    }
}

/// The index of the cell that would slide into the blank when the blank
/// moves in direction `d`, or `None` when that cell lies outside the grid.
pub open spec fn grid_target(grid: Seq<u8>, width: nat, height: nat, d: Direction) -> Option<
    int,
> {
    let w = width as int;
    let h = height as int;
    let b = blank_of(grid);
    let y = b / w;
    let x = b % w;
    match d {
        Direction::Up => if y == 0 {
            None
        } else {
            Some(b - w)
        },
        Direction::Down => if y == h - 1 {
            None
        } else {
            Some(b + w)
        },
        Direction::Left => if x == 0 {
            None
        } else {
            Some(b - 1)
        },
        Direction::Right => if x == w - 1 {
            None
        } else {
            Some(b + 1)
        },
    }
}

/// The grid after swapping the blank with the tile at index `t`.
pub open spec fn grid_after(grid: Seq<u8>, t: int) -> Seq<u8> {
    grid.update(blank_of(grid), grid[t]).update(t, 0)
}

/// The grid reached by one blank move in direction `d`, or `None` when the
/// move leaves the grid.
pub open spec fn grid_move(grid: Seq<u8>, width: nat, height: nat, d: Direction) -> Option<
    Seq<u8>,
> {
    match grid_target(grid, width, height, d) {
        Some(t) => Some(grid_after(grid, t)),
        None => None,
    }
}

/// The state reached by one blank move: the swapped grid, the history
/// extended with `d`, and everything else unchanged.
pub open spec fn apply_move(m: StateModel, d: Direction) -> Option<StateModel> {
    match grid_target(m.grid, m.width, m.height, d) {
        Some(t) => Some(
            StateModel {
                grid: grid_after(m.grid, t),
                path: m.path.push(d),
                width: m.width,
                height: m.height,
                rank: m.rank,
            },
        ),
        None => None,
    }
}

/// Swapping the blank with any other cell preserves well-formedness and
/// moves the blank to that cell.
pub proof fn lemma_swap_wf(m: StateModel, t: int)
    requires
        m.wf(),
        0 <= t < m.grid.len(),
        t != blank_of(m.grid),
    ensures
        wf_grid(grid_after(m.grid, t), m.width, m.height),
        blank_of(grid_after(m.grid, t)) == t,
{
    let b = blank_of(m.grid);
    assert(0 <= b < m.grid.len() && m.grid[b] == 0);
    let g2 = grid_after(m.grid, t);
    assert(g2[t] == 0);
    assert forall|i: int| 0 <= i < g2.len() implies (g2[i] as int) < g2.len() by {
        let si: int = if i == b {
            t
        } else if i == t {
            b
        } else {
            i
        };
        assert(g2[i] == m.grid[si]);
    }
    assert forall|i: int, j: int| 0 <= i < j < g2.len() implies g2[i] != g2[j] by {
        let si: int = if i == b {
            t
        } else if i == t {
            b
        } else {
            i
        };
        let sj: int = if j == b {
            t
        } else if j == t {
            b
        } else {
            j
        };
        assert(g2[i] == m.grid[si]);
        assert(g2[j] == m.grid[sj]);
        if si < sj {
            assert(m.grid[si] != m.grid[sj]);
        } else {
            assert(m.grid[sj] != m.grid[si]);
        }
    }
    lemma_blank_unique(g2, m.width, m.height, t);
}

/// A legal target cell lies inside the grid and differs from the blank.
pub proof fn lemma_target_in_range(m: StateModel, d: Direction, t: int)
    requires
        m.wf(),
        grid_target(m.grid, m.width, m.height, d) == Some(t),
    ensures
        0 <= t < m.grid.len(),
        t != blank_of(m.grid),
{
    let w = m.width as int;
    let h = m.height as int;
    let b = blank_of(m.grid);
    assert(0 <= b < m.grid.len() && m.grid[b] == 0);
    vstd::arithmetic::div_mod::lemma_fundamental_div_mod(b, w);
    vstd::arithmetic::div_mod::lemma_mod_bound(b, w);
    let y = b / w;
    let x = b % w;
    assert(0 <= y < h) by (nonlinear_arith)
        requires
            b == y * w + x,
            0 <= x < w,
            0 <= b < w * h,
            w >= 1,
    ;
    match d {
        Direction::Up => {
            assert(t == b - w && y >= 1);
            assert(0 <= t < w * h) by (nonlinear_arith)
                requires
                    t == y * w + x - w,
                    1 <= y < h,
                    0 <= x < w,
            ;
        },
        Direction::Down => {
            assert(t == b + w && y < h - 1);
            assert(0 <= t < w * h) by (nonlinear_arith)
                requires
                    t == y * w + x + w,
                    0 <= y < h - 1,
                    0 <= x < w,
            ;
        },
        Direction::Left => {
            assert(t == b - 1 && x >= 1);
        },
        Direction::Right => {
            assert(t == b + 1 && x < w - 1);
            assert(0 <= t < w * h) by (nonlinear_arith)
                requires
                    t == y * w + x + 1,
                    0 <= y < h,
                    0 <= x < w - 1,
                    w * h == m.grid.len(),
                    b < w * h,
                    t == b + 1,
            ;
        },
    }
}

/// A legal move yields a well-formed state.
pub proof fn lemma_apply_move_wf(m: StateModel, q: StateModel, d: Direction)
    requires
        m.wf(),
        apply_move(m, d) == Some(q),
    ensures
        q.wf(),
        blank_of(q.grid) == grid_target(m.grid, m.width, m.height, d)->Some_0,
{
    let t = grid_target(m.grid, m.width, m.height, d)->Some_0;
    lemma_target_in_range(m, d, t);
    lemma_swap_wf(m, t);
}

/// Applying a legal move and then its inverse restores the original grid:
/// the round trip is always legal and undoes the swap.
pub proof fn lemma_move_then_inverse(m: StateModel, q: StateModel, d: Direction)
    requires
        m.wf(),
        apply_move(m, d) == Some(q),
    ensures
        q.wf(),
        apply_move(q, d.opposite_spec()) matches Some(r) && r.grid == m.grid,
{
    let w = m.width as int;
    let h = m.height as int;
    let b = blank_of(m.grid);
    assert(0 <= b < m.grid.len() && m.grid[b] == 0);
    vstd::arithmetic::div_mod::lemma_fundamental_div_mod(b, w);
    vstd::arithmetic::div_mod::lemma_mod_bound(b, w);
    let y = b / w;
    let x = b % w;
    assert(0 <= y < h) by (nonlinear_arith)
        requires
            b == y * w + x,
            0 <= x < w,
            0 <= b < w * h,
            w >= 1,
    ;
    let t = grid_target(m.grid, m.width, m.height, d)->Some_0;
    lemma_target_in_range(m, d, t);
    lemma_swap_wf(m, t);
    assert(q.grid == grid_after(m.grid, t));
    assert(blank_of(q.grid) == t);
    assert(q.grid[b] == m.grid[t]);
    match d {
        Direction::Up => {
            assert(t == b - w);
            assert(t == (y - 1) * w + x) by (nonlinear_arith)
                requires
                    t == y * w + x - w,
            ;
            vstd::arithmetic::div_mod::lemma_fundamental_div_mod_converse(t, w, y - 1, x);
        },
        Direction::Down => {
            assert(t == b + w);
            assert(t == (y + 1) * w + x) by (nonlinear_arith)
                requires
                    t == y * w + x + w,
            ;
            vstd::arithmetic::div_mod::lemma_fundamental_div_mod_converse(t, w, y + 1, x);
        },
        Direction::Left => {
            assert(t == b - 1);
            vstd::arithmetic::div_mod::lemma_fundamental_div_mod_converse(t, w, y, x - 1);
        },
        Direction::Right => {
            assert(t == b + 1);
            vstd::arithmetic::div_mod::lemma_fundamental_div_mod_converse(t, w, y, x + 1);
        },
    }
    let back = grid_target(q.grid, q.width, q.height, d.opposite_spec());
    assert(back == Some(b));
    let g3 = grid_after(q.grid, b);
    assert(g3 =~= m.grid);
}

/// The canonical goal grid is well formed for any dimensions in range,
/// so the goal test accepts a grid exactly when it is that grid.
pub proof fn lemma_goal_grid_wf(width: nat, height: nat)
    requires
        1 <= width,
        1 <= height,
        width * height <= 256,
    ensures
        wf_grid(goal_grid(width, height), width, height),
{
    let g = goal_grid(width, height);
    let n = width * height;
    assert(1 <= width * height) by (nonlinear_arith)
        requires
            1 <= width,
            1 <= height,
    ;
    assert(g[n - 1] == 0);
}

/// A grid that differs from the goal in any cell is not the goal.
pub proof fn lemma_misplaced_not_goal(grid: Seq<u8>, width: nat, height: nat, i: int)
    requires
        0 <= i < grid.len(),
        grid[i] != goal_grid(width, height)[i],
    ensures
        grid != goal_grid(width, height),
{
}

/// The goal grid has Hamming metric 0 up to any prefix.
proof fn lemma_goal_hamming_upto(width: nat, height: nat, n: int)
    requires
        1 <= width,
        1 <= height,
        width * height <= 256,
        0 <= n <= width * height,
    ensures
        hamming_upto(goal_grid(width, height), n) == 0,
    decreases n,
{
    if n > 0 {
        lemma_goal_hamming_upto(width, height, n - 1);
        assert(cell_misplaced(goal_grid(width, height), n - 1) == 0);
    }
}

/// The goal grid has Manhattan metric 0 up to any prefix.
proof fn lemma_goal_manhattan_upto(width: nat, height: nat, n: int)
    requires
        1 <= width,
        1 <= height,
        width * height <= 256,
        0 <= n <= width * height,
    ensures
        manhattan_upto(goal_grid(width, height), width, n) == 0,
    decreases n,
{
    if n > 0 {
        lemma_goal_manhattan_upto(width, height, n - 1);
        let g = goal_grid(width, height);
        let i = n - 1;
        if g[i] != 0 {
            assert(g[i] == i + 1);
            assert(g[i] - 1 == i);
            assert(cell_distance(g, width, i) == 0);
        }
    }
}

/// Both heuristics vanish on the goal grid.
pub proof fn lemma_goal_estimate_zero(width: nat, height: nat, metric: Metric)
    requires
        1 <= width,
        1 <= height,
        width * height <= 256,
    ensures
        estimate_of(goal_grid(width, height), width, metric) == 0,
{
    match metric {
        Metric::Hamming => {
            lemma_goal_hamming_upto(width, height, (width * height) as int);
        },
        Metric::Manhattan => {
            lemma_goal_manhattan_upto(width, height, (width * height) as int);
        },
    }
}

/// Replaying a concatenation replays the parts in order.
pub proof fn lemma_replay_concat(
    g: Seq<u8>,
    width: nat,
    height: nat,
    a: Seq<Direction>,
    b: Seq<Direction>,
)
    ensures
        replay(g, width, height, a + b) == (match replay(g, width, height, a) {
            Some(mid) => replay(mid, width, height, b),
            None => None,
        }),
    decreases b.len(),
{
    if b.len() == 0 {
        assert(a + b =~= a);
    } else {
        assert((a + b).drop_last() =~= a + b.drop_last());
        assert((a + b).last() == b.last());
        lemma_replay_concat(g, width, height, a, b.drop_last());
    }
}

/// Two grids that agree everywhere but at two cells have Hamming sums
/// that differ only by those cells' contributions.
proof fn lemma_hamming_twopoint(g: Seq<u8>, g2: Seq<u8>, p1: int, p2: int, n: int)
    requires
        g.len() == g2.len(),
        0 <= p1 < p2 < g.len(),
        forall|i: int| 0 <= i < g.len() && i != p1 && i != p2 ==> g2[i] == g[i],
        0 <= n <= g.len(),
    ensures
        hamming_upto(g2, n) + (if p1 < n {
            cell_misplaced(g, p1)
        } else {
            0
        }) + (if p2 < n {
            cell_misplaced(g, p2)
        } else {
            0
        }) == hamming_upto(g, n) + (if p1 < n {
            cell_misplaced(g2, p1)
        } else {
            0
        }) + (if p2 < n {
            cell_misplaced(g2, p2)
        } else {
            0
        }),
    decreases n,
{
    if n > 0 {
        lemma_hamming_twopoint(g, g2, p1, p2, n - 1);
        if n - 1 != p1 && n - 1 != p2 {
            assert(cell_misplaced(g2, n - 1) == cell_misplaced(g, n - 1));
        }
    }
}

/// Two grids that agree everywhere but at two cells have Manhattan sums
/// that differ only by those cells' contributions.
proof fn lemma_manhattan_twopoint(
    g: Seq<u8>,
    g2: Seq<u8>,
    width: nat,
    p1: int,
    p2: int,
    n: int,
)
    requires
        g.len() == g2.len(),
        0 <= p1 < p2 < g.len(),
        forall|i: int| 0 <= i < g.len() && i != p1 && i != p2 ==> g2[i] == g[i],
        0 <= n <= g.len(),
    ensures
        manhattan_upto(g2, width, n) + (if p1 < n {
            cell_distance(g, width, p1)
        } else {
            0
        }) + (if p2 < n {
            cell_distance(g, width, p2)
        } else {
            0
        }) == manhattan_upto(g, width, n) + (if p1 < n {
            cell_distance(g2, width, p1)
        } else {
            0
        }) + (if p2 < n {
            cell_distance(g2, width, p2)
        } else {
            0
        }),
    decreases n,
{
    if n > 0 {
        lemma_manhattan_twopoint(g, g2, width, p1, p2, n - 1);
        if n - 1 != p1 && n - 1 != p2 {
            assert(cell_distance(g2, width, n - 1) == cell_distance(g, width, n - 1));
        }
    }
}

/// The grid-level form of the move inverse: one legal move yields a
/// well-formed grid from which the opposite move leads straight back.
pub proof fn lemma_grid_move_inverse(g: Seq<u8>, width: nat, height: nat, d: Direction, g2: Seq<u8>)
    requires
        wf_grid(g, width, height),
        grid_move(g, width, height, d) == Some(g2),
    ensures
        wf_grid(g2, width, height),
        grid_move(g2, width, height, d.opposite_spec()) == Some(g),
{
    let m = StateModel { grid: g, path: Seq::empty(), width, height, rank: 0 };
    let t = grid_target(g, width, height, d)->Some_0;
    let q = StateModel {
        grid: grid_after(g, t),
        path: m.path.push(d),
        width,
        height,
        rank: 0,
    };
    assert(apply_move(m, d) == Some(q));
    assert(q.grid == g2);
    lemma_move_then_inverse(m, q, d);
    let opp = d.opposite_spec();
    let t2 = grid_target(g2, width, height, opp)->Some_0;
    assert(apply_move(q, opp)->Some_0.grid == grid_after(g2, t2));
    assert(grid_move(g2, width, height, opp) == Some(grid_after(g2, t2)));
}

/// A legal move always changes the grid: the target cell held a tile
/// and now holds the blank.
pub proof fn lemma_grid_move_changes(g: Seq<u8>, width: nat, height: nat, d: Direction, g2: Seq<u8>)
    requires
        wf_grid(g, width, height),
        grid_move(g, width, height, d) == Some(g2),
    ensures
        g2 != g,
{
    let m = StateModel { grid: g, path: Seq::empty(), width, height, rank: 0 };
    let t = grid_target(g, width, height, d)->Some_0;
    lemma_target_in_range(m, d, t);
    let b = blank_of(g);
    assert(0 <= b < g.len() && g[b] == 0);
    if g[t] == 0 {
        if t < b {
            assert(g[t] != g[b]);
        } else {
            assert(g[b] != g[t]);
        }
        assert(false);
    }
    assert(g2[t] == 0);
}

/// One blank move lowers the Hamming estimate by at most one: only the
/// moved tile's placement changes.
proof fn lemma_hamming_consistent(g: Seq<u8>, width: nat, height: nat, d: Direction, g2: Seq<u8>)
    requires
        wf_grid(g, width, height),
        grid_move(g, width, height, d) == Some(g2),
    ensures
        hamming_of(g) <= 1 + hamming_of(g2),
{
    let m = StateModel { grid: g, path: Seq::empty(), width, height, rank: 0 };
    let t = grid_target(g, width, height, d)->Some_0;
    lemma_target_in_range(m, d, t);
    let b = blank_of(g);
    assert(0 <= b < g.len() && g[b] == 0);
    assert(g2 == grid_after(g, t));
    let p1: int = if b < t {
        b
    } else {
        t
    };
    let p2: int = if b < t {
        t
    } else {
        b
    };
    lemma_hamming_twopoint(g, g2, p1, p2, g.len() as int);
    assert(cell_misplaced(g, b) == 0);
    assert(g2[t] == 0);
    assert(cell_misplaced(g2, t) == 0);
    assert(cell_misplaced(g2, b) <= 1 && cell_misplaced(g, t) <= 1);
}

/// One blank move lowers the Manhattan estimate by at most one: the
/// moved tile shifts by one cell, every other tile stays put.
proof fn lemma_manhattan_consistent(
    g: Seq<u8>,
    width: nat,
    height: nat,
    d: Direction,
    g2: Seq<u8>,
)
    requires
        wf_grid(g, width, height),
        grid_move(g, width, height, d) == Some(g2),
    ensures
        manhattan_of(g, width) <= 1 + manhattan_of(g2, width),
{
    let m = StateModel { grid: g, path: Seq::empty(), width, height, rank: 0 };
    let t = grid_target(g, width, height, d)->Some_0;
    lemma_target_in_range(m, d, t);
    let b = blank_of(g);
    assert(0 <= b < g.len() && g[b] == 0);
    assert(g2 == grid_after(g, t));
    let p1: int = if b < t {
        b
    } else {
        t
    };
    let p2: int = if b < t {
        t
    } else {
        b
    };
    lemma_manhattan_twopoint(g, g2, width, p1, p2, g.len() as int);
    assert(cell_distance(g, width, b) == 0);
    assert(g2[t] == 0);
    assert(cell_distance(g2, width, t) == 0);
    let v = g[t];
    if v == 0 {
        if t < b {
            assert(g[t] != g[b]);
        } else {
            assert(g[b] != g[t]);
        }
        assert(false);
    }
    assert(g2[b] == v);
    let wi = width as int;
    let hi = height as int;
    vstd::arithmetic::div_mod::lemma_fundamental_div_mod(b, wi);
    vstd::arithmetic::div_mod::lemma_mod_bound(b, wi);
    let y = b / wi;
    let x = b % wi;
    assert(0 <= y < hi) by (nonlinear_arith)
        requires
            b == y * wi + x,
            0 <= x < wi,
            0 <= b < wi * hi,
            wi >= 1,
    ;
    match d {
        Direction::Up => {
            assert(t == b - wi);
            assert(t == (y - 1) * wi + x) by (nonlinear_arith)
                requires
                    t == y * wi + x - wi,
            ;
            vstd::arithmetic::div_mod::lemma_fundamental_div_mod_converse(t, wi, y - 1, x);
        },
        Direction::Down => {
            assert(t == b + wi);
            assert(t == (y + 1) * wi + x) by (nonlinear_arith)
                requires
                    t == y * wi + x + wi,
            ;
            vstd::arithmetic::div_mod::lemma_fundamental_div_mod_converse(t, wi, y + 1, x);
        },
        Direction::Left => {
            assert(t == b - 1);
            vstd::arithmetic::div_mod::lemma_fundamental_div_mod_converse(t, wi, y, x - 1);
        },
        Direction::Right => {
            assert(t == b + 1);
            vstd::arithmetic::div_mod::lemma_fundamental_div_mod_converse(t, wi, y, x + 1);
        },
    }
    assert(cell_distance(g, width, t) <= 1 + cell_distance(g2, width, b));
}

/// One blank move lowers either heuristic estimate by at most one.
pub proof fn lemma_estimate_consistent(
    g: Seq<u8>,
    width: nat,
    height: nat,
    d: Direction,
    g2: Seq<u8>,
    metric: Metric,
)
    requires
        wf_grid(g, width, height),
        grid_move(g, width, height, d) == Some(g2),
    ensures
        estimate_of(g, width, metric) <= 1 + estimate_of(g2, width, metric),
{
    match metric {
        Metric::Hamming => {
            lemma_hamming_consistent(g, width, height, d, g2);
        },
        Metric::Manhattan => {
            lemma_manhattan_consistent(g, width, height, d, g2);
        },
    }
}

/// Both heuristics are admissible: they never exceed the length of any
/// move sequence that solves the grid.
pub proof fn lemma_estimate_admissible(
    g: Seq<u8>,
    width: nat,
    height: nat,
    q: Seq<Direction>,
    metric: Metric,
)
    requires
        wf_grid(g, width, height),
        replay(g, width, height, q) == Some(goal_grid(width, height)),
    ensures
        estimate_of(g, width, metric) <= q.len(),
    decreases q.len(),
{
    if q.len() == 0 {
        lemma_goal_estimate_zero(width, height, metric);
    } else {
        assert(q =~= seq![q[0]] + q.drop_first());
        lemma_replay_concat(g, width, height, seq![q[0]], q.drop_first());
        assert(seq![q[0]].drop_last() =~= Seq::<Direction>::empty());
        assert(seq![q[0]].last() == q[0]);
        assert(replay(g, width, height, Seq::<Direction>::empty()) == Some(g));
        assert(replay(g, width, height, seq![q[0]]) == grid_move(g, width, height, q[0]));
        let g1 = grid_move(g, width, height, q[0])->Some_0;
        lemma_grid_move_inverse(g, width, height, q[0], g1);
        lemma_estimate_admissible(g1, width, height, q.drop_first(), metric);
        lemma_estimate_consistent(g, width, height, q[0], g1, metric);
    }
}

/// Every generated successor carries the g + h rank for its own history
/// and grid.
pub proof fn lemma_neighbours_ranked(
    m: StateModel,
    order: Seq<Direction>,
    skip_reverse: bool,
    mt: Metric,
)
    ensures
        forall|i: int|
            0 <= i < neighbours_spec(m, order, skip_reverse, Some(mt)).len() ==> (
            #[trigger] neighbours_spec(m, order, skip_reverse, Some(mt))[i]).rank == clamp_u64(
                neighbours_spec(m, order, skip_reverse, Some(mt))[i].path.len() + estimate_of(
                    neighbours_spec(m, order, skip_reverse, Some(mt))[i].grid,
                    m.width,
                    mt,
                ),
            ),
    decreases order.len(),
{
    if order.len() > 0 {
        lemma_neighbours_ranked(m, order.drop_last(), skip_reverse, mt);
        let prev = neighbours_spec(m, order.drop_last(), skip_reverse, Some(mt));
        let ns = neighbours_spec(m, order, skip_reverse, Some(mt));
        let stepl = neighbour_step(m, order.last(), skip_reverse, Some(mt));
        assert forall|i: int|
            0 <= i < ns.len() implies (#[trigger] ns[i]).rank == clamp_u64(
            ns[i].path.len() + estimate_of(ns[i].grid, m.width, mt),
        ) by {
            if i < prev.len() {
                assert(ns[i] == prev[i]);
            } else {
                assert(ns[i] == stepl[0]);
            }
        }
    }
}

/// Replaying a history from a well-formed grid keeps the grid well
/// formed.
pub proof fn lemma_replay_wf(root: Seq<u8>, width: nat, height: nat, path: Seq<Direction>)
    requires
        wf_grid(root, width, height),
        replay(root, width, height, path) is Some,
    ensures
        wf_grid(replay(root, width, height, path)->Some_0, width, height),
    decreases path.len(),
{
    if path.len() > 0 {
        lemma_replay_wf(root, width, height, path.drop_last());
        let gp = replay(root, width, height, path.drop_last())->Some_0;
        let g = replay(root, width, height, path)->Some_0;
        lemma_grid_move_inverse(gp, width, height, path.last(), g);
    }
}

/// The successor contributed by any listed direction appears among the
/// generated neighbours.
pub proof fn lemma_neighbours_cover(
    m: StateModel,
    order: Seq<Direction>,
    skip_reverse: bool,
    metric: Option<Metric>,
    j: int,
)
    requires
        0 <= j < order.len(),
        neighbour_step(m, order[j], skip_reverse, metric).len() == 1,
    ensures
        exists|i: int|
            0 <= i < neighbours_spec(m, order, skip_reverse, metric).len() && neighbours_spec(
                m,
                order,
                skip_reverse,
                metric,
            )[i] == neighbour_step(m, order[j], skip_reverse, metric)[0],
    decreases order.len(),
{
    let ns = neighbours_spec(m, order, skip_reverse, metric);
    let prev = neighbours_spec(m, order.drop_last(), skip_reverse, metric);
    let stepl = neighbour_step(m, order.last(), skip_reverse, metric);
    if j == order.len() - 1 {
        assert(ns[prev.len() as int] == stepl[0]);
    } else {
        assert(order.drop_last()[j] == order[j]);
        lemma_neighbours_cover(m, order.drop_last(), skip_reverse, metric, j);
        let i = choose|i: int|
            0 <= i < prev.len() && prev[i] == neighbour_step(m, order[j], skip_reverse, metric)[0];
        assert(ns[i] == prev[i]);
    }
}

/// A single state of the puzzle: the grid contents, the moves that led
/// here, the grid dimensions, and the rank used by the A* frontier.
pub struct Puzzle {
    grid: Vec<u8>,
    path: Vec<Direction>,
    width: usize,
    height: usize,
    metric: u64,
}

impl View for Puzzle {
    type V = StateModel;

    closed spec fn view(&self) -> StateModel {
        StateModel {
            grid: self.grid@,
            path: self.path@,
            width: self.width as nat,
            height: self.height as nat,
            rank: self.metric as nat,
        }
    }
}

/// Copies a vector of plainly copyable elements, element by element.
pub(crate) fn copy_vec<T: Copy>(v: &Vec<T>) -> (r: Vec<T>)
    ensures
        r@ == v@,
{
    let mut r: Vec<T> = Vec::new();
    let mut i: usize = 0;
    while i < v.len()
        invariant
            i <= v.len(),
            r@ == v@.subrange(0, i as int),
        decreases v.len() - i,
    {
        r.push(v[i]);
        proof {
            assert(r@ =~= v@.subrange(0, i + 1));
        }
        i = i + 1;
    }
    proof {
        assert(r@ =~= v@);
    }
    r
}

/// Decides whether a grid's cells hold each label `0 .. len - 1` at most
/// once with every label in range and the blank present: in-range
/// values, no duplicates, and at least one zero.
pub(crate) fn check_cells(grid: &Vec<u8>) -> (b: bool)
    ensures
        b == ((forall|i: int| 0 <= i < grid@.len() ==> ((#[trigger] grid@[i]) as int)
            < grid@.len()) && (forall|i: int, j: int|
            0 <= i < j < grid@.len() ==> grid@[i] != grid@[j]) && (exists|i: int|
            0 <= i < grid@.len() && grid@[i] == 0)),
{
    let n = grid.len();
    let mut seen: Vec<bool> = Vec::new();
    let mut s: usize = 0;
    while s < n
        invariant
            seen@.len() == s,
            s <= n,
            forall|v: int| 0 <= v < s ==> !(#[trigger] seen@[v]),
        decreases n - s,
    {
        seen.push(false);
        s = s + 1;
    }
    let mut i: usize = 0;
    while i < n
        invariant
            n == grid@.len(),
            seen@.len() == n,
            i <= n,
            forall|j: int| 0 <= j < i ==> ((#[trigger] grid@[j]) as int) < n,
            forall|j: int, k: int| 0 <= j < k < i ==> grid@[j] != grid@[k],
            forall|v: int|
                0 <= v < n ==> ((#[trigger] seen@[v]) <==> exists|j: int|
                    0 <= j < i && (#[trigger] grid@[j]) as int == v),
        decreases n - i,
    {
        let v = grid[i] as usize;
        if v >= n {
            return false;
        }
        if seen[v] {
            proof {
                let j = choose|j: int| 0 <= j < i && (#[trigger] grid@[j]) as int == v as int;
                assert(grid@[j] == grid@[i as int]);
            }
            return false;
        }
        seen.set(v, true);
        proof {
            assert forall|v2: int|
                0 <= v2 < n implies ((#[trigger] seen@[v2]) <==> exists|j: int|
                0 <= j < i + 1 && (#[trigger] grid@[j]) as int == v2) by {
                if v2 == v as int {
                    assert(grid@[i as int] as int == v2);
                } else {
                    if seen@[v2] {
                        let j = choose|j: int|
                            0 <= j < i && (#[trigger] grid@[j]) as int == v2;
                        assert(0 <= j < i + 1 && grid@[j] as int == v2);
                    }
                    if exists|j: int| 0 <= j < i + 1 && (#[trigger] grid@[j]) as int == v2 {
                        let j = choose|j: int|
                            0 <= j < i + 1 && (#[trigger] grid@[j]) as int == v2;
                        assert(j < i);
                    }
                }
            }
        }
        i = i + 1;
    }
    if n == 0 {
        return false;
    }
    let zero_seen = seen[0];
    proof {
        if zero_seen {
            let j = choose|j: int| 0 <= j < n && (#[trigger] grid@[j]) as int == 0;
            assert(grid@[j] == 0);
        } else {
            if exists|j: int| 0 <= j < grid@.len() && grid@[j] == 0 {
                let j = choose|j: int| 0 <= j < grid@.len() && grid@[j] == 0;
                assert(grid@[j] as int == 0);
            }
        }
    }
    zero_seen
}

impl Puzzle {
    /// Builds a state from raw parts, with an empty history and no rank.
    pub(crate) fn from_parts(grid: Vec<u8>, width: usize, height: usize) -> (r: Puzzle)
        ensures
            r@.grid == grid@,
            r@.path.len() == 0,
            r@.width == width,
            r@.height == height,
            r@.rank == 0,
    {
        Puzzle { grid, path: Vec::new(), width, height, metric: 0 }
    }

    /// Decides whether this state satisfies the grid invariant: positive
    /// dimensions in range, and a grid holding each label exactly once
    /// with one blank.
    pub fn is_well_formed(&self) -> (b: bool)
        ensures
            b == self@.wf(),
    {
        if self.width < 1 || self.height < 1 {
            return false;
        }
        if self.width > 256 || self.height > 256 {
            proof {
                assert(self@.width * self@.height >= self@.width && self@.width * self@.height
                    >= self@.height) by (nonlinear_arith)
                    requires
                        self@.width >= 1,
                        self@.height >= 1,
                ;
            }
            return false;
        }
        proof {
            assert(self@.width * self@.height <= 65536) by (nonlinear_arith)
                requires
                    1 <= self@.width <= 256,
                    1 <= self@.height <= 256,
            ;
        }
        if self.width * self.height > 256 {
            return false;
        }
        if self.grid.len() != self.width * self.height {
            return false;
        }
        check_cells(&self.grid)
    }

    /// Constructs the solved puzzle of the given dimensions.
    pub fn _new(width: usize, height: usize) -> (r: Puzzle)
        requires
            1 <= width,
            1 <= height,
            width * height <= 256,
        ensures
            r@.wf(),
            r@.grid == goal_grid(width as nat, height as nat),
            r@.path.len() == 0,
            r@.width == width,
            r@.height == height,
            r@.rank == 0,
    {
        proof {
            assert(1 <= width * height) by (nonlinear_arith)
                requires
                    1 <= width,
                    1 <= height,
            ;
        }
        let n = width * height;
        let mut grid: Vec<u8> = Vec::new();
        let mut i: usize = 0;
        while i < n - 1
            invariant
                n == width * height,
                1 <= n <= 256,
                i <= n - 1,
                grid@.len() == i,
                forall|j: int| 0 <= j < i ==> grid@[j] == j + 1,
            decreases n - i,
        {
            grid.push((i + 1) as u8);
            i = i + 1;
        }
        grid.push(0);
        let r = Puzzle { grid, path: Vec::new(), width, height, metric: 0 };
        proof {
            assert(r@.grid =~= goal_grid(width as nat, height as nat));
            assert(r@.grid[n - 1] == 0);
        }
        r
    }

    /// Borrows the grid contents.
    pub fn grid_ref(&self) -> (g: &Vec<u8>)
        ensures
            g@ == self@.grid,
    {
        &self.grid
    }

    /// The grid width.
    pub fn width(&self) -> (w: usize)
        ensures
            w == self@.width,
    {
        self.width
    }

    /// The grid height.
    pub fn height(&self) -> (h: usize)
        ensures
            h == self@.height,
    {
        self.height
    }

    /// The number of moves taken to reach this state.
    pub fn path_depth(&self) -> (n: usize)
        ensures
            n == self@.path.len(),
    {
        self.path.len()
    }

    /// The move history as an owned vector.
    pub fn path_to_vec(&self) -> (p: Vec<Direction>)
        ensures
            p@ == self@.path,
    {
        copy_vec(&self.path)
    }

    /// The A* ranking key of this state.
    pub fn rank(&self) -> (r: u64)
        ensures
            r == self@.rank,
    {
        self.metric
    }

    /// Overwrites this state's A* ranking key.
    pub(crate) fn set_rank(&mut self, r: u64)
        ensures
            final(self)@ == (StateModel { rank: r as nat, ..old(self)@ }),
    {
        self.metric = r;
    }

    /// An owned copy of this state.
    pub fn duplicate(&self) -> (r: Puzzle)
        ensures
            r@ == self@,
    {
        Puzzle {
            grid: copy_vec(&self.grid),
            path: copy_vec(&self.path),
            width: self.width,
            height: self.height,
            metric: self.metric,
        }
    }

    /// An owned copy of this state with its move history cleared, used to
    /// seed a search from this grid.
    pub fn as_root(&self) -> (r: Puzzle)
        ensures
            r@.grid == self@.grid,
            r@.width == self@.width,
            r@.height == self@.height,
            r@.path.len() == 0,
            r@.rank == 0,
            self@.wf() ==> r@.wf(),
    {
        Puzzle {
            grid: copy_vec(&self.grid),
            path: Vec::new(),
            width: self.width,
            height: self.height,
            metric: 0,
        }
    }

    /// Decides whether this state is the canonical goal: blank in the last
    /// cell and every other label in row-major ascending order.
    pub fn is_solved(&self) -> (r: bool)
        requires
            self@.wf(),
        ensures
            r == (self@.grid == goal_grid(self@.width, self@.height)),
    {
        let n = self.grid.len();
        let ghost goal = goal_grid(self@.width, self@.height);
        if self.grid[n - 1] != 0 {
            proof {
                assert(goal[n - 1] == 0);
            }
            return false;
        }
        let mut i: usize = 0;
        while i < n - 1
            invariant
                self@.wf(),
                goal == goal_grid(self@.width, self@.height),
                n == self@.grid.len(),
                i <= n - 1,
                self@.grid[n - 1] == 0,
                forall|j: int| 0 <= j < i ==> self@.grid[j] == goal[j],
            decreases n - i,
        {
            if self.grid[i] != (i + 1) as u8 {
                proof {
                    assert(goal[i as int] == (i + 1) as u8);
                }
                return false;
            }
            i = i + 1;
        }
        proof {
            assert(self@.grid =~= goal);
        }
        true
    }

    /// Locates the blank cell, returning its (row, column) coordinates.
    pub fn empty_position(&self) -> (r: (usize, usize))
        requires
            self@.wf(),
        ensures
            r.0 < self@.height,
            r.1 < self@.width,
            r.0 * self@.width + r.1 == blank_of(self@.grid),
    {
        let n = self.grid.len();
        let mut i: usize = 0;
        while self.grid[i] != 0
            invariant
                self@.wf(),
                n == self@.grid.len(),
                i < n,
                forall|j: int| 0 <= j < i ==> self@.grid[j] != 0,
            decreases n - i,
        {
            proof {
                if i + 1 == n {
                    let k = choose|k: int| 0 <= k < self@.grid.len() && self@.grid[k] == 0;
                    assert(self@.grid[k] != 0);
                }
            }
            i = i + 1;
        }
        proof {
            lemma_blank_unique(self@.grid, self@.width, self@.height, i as int);
        }
        let y = i / self.width;
        let x = i % self.width;
        proof {
            vstd::arithmetic::div_mod::lemma_fundamental_div_mod(i as int, self.width as int);
            assert(y < self@.height) by (nonlinear_arith)
                requires
                    y == i as int / self@.width as int,
                    i < self@.width * self@.height,
                    self@.width >= 1,
            ;
            assert(x < self@.width) by {
                vstd::arithmetic::div_mod::lemma_mod_bound(i as int, self.width as int);
            }
        }
        (y, x)
    }

    /// Maps a tile label to the (column, row) of its cell in the solved
    /// grid; the blank belongs in the last cell.
    pub fn correct_place(&self, value: u8) -> (r: (usize, usize))
        requires
            self@.wf(),
        ensures
            value == 0 ==> r.0 == self@.width - 1 && r.1 == self@.height - 1,
            value != 0 ==> r.0 == (value - 1) as int % self@.width as int && r.1 == (value
                - 1) as int / self@.width as int,
    {
        if value == 0 {
            return (self.width - 1, self.height - 1);
        }
        let x = ((value - 1) as usize) % self.width;
        let y = ((value - 1) as usize) / self.width;
        (x, y)
    }

    /// Attempts to move the blank one cell in the given direction,
    /// returning the successor state (an owned copy; this state is left
    /// unchanged) or `None` when the move leaves the grid.
    pub fn move_empty(&self, direction: &Direction) -> (r: Option<Puzzle>)
        requires
            self@.wf(),
        ensures
            match r {
                Some(q) => apply_move(self@, *direction) == Some(q@) && q@.wf(),
                None => apply_move(self@, *direction) is None,
            },
    {
        let (y, x) = self.empty_position();
        proof {
            assert(y * self@.width + x < self@.width * self@.height && (y >= 1 ==> y
                * self@.width + x >= self@.width) && self@.width <= self@.width
                * self@.height) by (nonlinear_arith)
                requires
                    (y as int) < self@.height as int,
                    (x as int) < self@.width as int,
                    self@.width >= 1,
                    self@.height >= 1,
            ;
        }
        let b = y * self.width + x;
        proof {
            vstd::arithmetic::div_mod::lemma_fundamental_div_mod_converse(
                b as int,
                self@.width as int,
                y as int,
                x as int,
            );
        }
        let t: usize = match direction {
            Direction::Up => {
                if y == 0 {
                    return None;
                }
                b - self.width
            },
            Direction::Down => {
                if y == self.height - 1 {
                    return None;
                }
                b + self.width
            },
            Direction::Left => {
                if x == 0 {
                    return None;
                }
                b - 1
            },
            Direction::Right => {
                if x == self.width - 1 {
                    return None;
                }
                b + 1
            },
        };
        proof {
            assert(grid_target(self@.grid, self@.width, self@.height, *direction) == Some(
                t as int,
            ));
            lemma_target_in_range(self@, *direction, t as int);
        }
        let mut grid2 = copy_vec(&self.grid);
        let tile = grid2[t];
        grid2.set(b, tile);
        grid2.set(t, 0);
        let mut path2 = copy_vec(&self.path);
        path2.push(*direction);
        let q = Puzzle {
            grid: grid2,
            path: path2,
            width: self.width,
            height: self.height,
            metric: self.metric,
        };
        proof {
            assert(q@.grid == grid_after(self@.grid, t as int));
            assert(apply_move(self@, *direction) == Some(q@));
            lemma_apply_move_wf(self@, q@, *direction);
        }
        Some(q)
    }

    /// The Hamming metric of this state: the number of non-blank tiles
    /// off their goal cell.  A pure function of the grid alone.
    pub fn hamming_metric(&self) -> (score: u32)
        requires
            self@.wf(),
        ensures
            score == hamming_of(self@.grid),
    {
        let mut score: u32 = 0;
        let n = self.grid.len();
        let mut i: usize = 0;
        while i < n
            invariant
                n == self@.grid.len(),
                n <= 256,
                i <= n,
                score == hamming_upto(self@.grid, i as int),
                score <= i,
            decreases n - i,
        {
            let v = self.grid[i];
            if v != 0 && (v as usize) != i + 1 {
                score = score + 1;
            }
            i = i + 1;
        }
        score
    }

    /// The Manhattan metric of this state: the total grid distance of the
    /// non-blank tiles from their goal cells.  A pure function of the
    /// grid alone.
    pub fn manhattan_metric(&self) -> (score: u32)
        requires
            self@.wf(),
        ensures
            score == manhattan_of(self@.grid, self@.width),
    {
        let mut score: u32 = 0;
        let n = self.grid.len();
        let mut i: usize = 0;
        while i < n
            invariant
                self@.wf(),
                n == self@.grid.len(),
                i <= n,
                score == manhattan_upto(self@.grid, self@.width, i as int),
                score <= 512 * i,
            decreases n - i,
        {
            let v = self.grid[i];
            if v != 0 {
                let (cx, cy) = self.correct_place(v);
                let x = i % self.width;
                let y = i / self.width;
                proof {
                    let w = self@.width as int;
                    let h = self@.height as int;
                    vstd::arithmetic::div_mod::lemma_fundamental_div_mod(i as int, w);
                    vstd::arithmetic::div_mod::lemma_mod_bound(i as int, w);
                    vstd::arithmetic::div_mod::lemma_fundamental_div_mod(v - 1, w);
                    vstd::arithmetic::div_mod::lemma_mod_bound(v - 1, w);
                    assert((i as int) / w < h && (v - 1) / w < h && w <= 256 && h <= 256)
                        by (nonlinear_arith)
                        requires
                            ((i as int) / w) * w + (i as int) % w == i as int,
                            0 <= (i as int) % w < w,
                            ((v - 1) / w) * w + (v - 1) % w == v - 1,
                            0 <= (v - 1) % w < w,
                            0 <= (i as int) && (i as int) < w * h,
                            0 <= v - 1 < w * h,
                            w * h <= 256,
                            w >= 1,
                            h >= 1,
                    ;
                }
                let dx = if x >= cx {
                    x - cx
                } else {
                    cx - x
                };
                let dy = if y >= cy {
                    y - cy
                } else {
                    cy - y
                };
                score = score + (dx as u32) + (dy as u32);
            }
            i = i + 1;
        }
        score
    }

    /// Generates the legal successor states of this state, trying the
    /// four directions in the order given.  When `skip_reverse` is set,
    /// the exact inverse of the last move is not generated (this prevents
    /// immediate backtracking in breadth- and depth-first search).  When
    /// a heuristic is given, each successor's rank is set to its history
    /// length plus its heuristic estimate.
    pub fn get_neighbour_states(
        &self,
        order: &[Direction; 4],
        skip_reverse: bool,
        metric: Option<Metric>,
    ) -> (r: Vec<Puzzle>)
        requires
            self@.wf(),
        ensures
            r@.map_values(|p: Puzzle| p@) == neighbours_spec(self@, order@, skip_reverse, metric),
            forall|i: int|
                0 <= i < r@.len() ==> (#[trigger] r@[i])@.wf() && r@[i]@.width == self@.width
                    && r@[i]@.height == self@.height && exists|d: Direction|
                    r@[i]@.path == self@.path.push(d) && grid_move(
                        self@.grid,
                        self@.width,
                        self@.height,
                        d,
                    ) == Some(r@[i]@.grid),
    {
        let mut out: Vec<Puzzle> = Vec::new();
        let mut k: usize = 0;
        while k < 4
            invariant
                self@.wf(),
                k <= 4,
                out@.map_values(|p: Puzzle| p@) == neighbours_spec(
                    self@,
                    order@.subrange(0, k as int),
                    skip_reverse,
                    metric,
                ),
                forall|i: int|
                    0 <= i < out@.len() ==> (#[trigger] out@[i])@.wf() && out@[i]@.width
                        == self@.width && out@[i]@.height == self@.height && exists|d: Direction|
                        out@[i]@.path == self@.path.push(d) && grid_move(
                            self@.grid,
                            self@.width,
                            self@.height,
                            d,
                        ) == Some(out@[i]@.grid),
            decreases 4 - k,
        {
            let d = order[k];
            let ghost prev = out@.map_values(|p: Puzzle| p@);
            let skip_this = if skip_reverse && self.path.len() > 0 {
                let last = self.path[self.path.len() - 1];
                d.opposite() == last
            } else {
                false
            };
            if !skip_this {
                match self.move_empty(&d) {
                    Some(q) => {
                        let mut q = q;
                        let ghost unranked = q@;
                        if let Some(mt) = metric {
                            let est: u32 = match mt {
                                Metric::Hamming => q.hamming_metric(),
                                Metric::Manhattan => q.manhattan_metric(),
                            };
                            let depth = q.path.len() as u64;
                            let rank: u64 = if depth > u64::MAX - (est as u64) {
                                u64::MAX
                            } else {
                                depth + (est as u64)
                            };
                            q.metric = rank;
                        }
                        proof {
                            assert(q@ == with_rank(unranked, metric));
                            assert(q@.path == self@.path.push(d) && grid_move(
                                self@.grid,
                                self@.width,
                                self@.height,
                                d,
                            ) == Some(q@.grid));
                        }
                        out.push(q);
                        proof {
                            assert(out@.map_values(|p: Puzzle| p@) =~= prev + neighbour_step(
                                self@,
                                d,
                                skip_reverse,
                                metric,
                            ));
                        }
                    },
                    None => {
                        proof {
                            assert(out@.map_values(|p: Puzzle| p@) =~= prev + neighbour_step(
                                self@,
                                d,
                                skip_reverse,
                                metric,
                            ));
                        }
                    },
                }
            } else {
                proof {
                    assert(out@.map_values(|p: Puzzle| p@) =~= prev + neighbour_step(
                        self@,
                        d,
                        skip_reverse,
                        metric,
                    ));
                }
            }
            proof {
                assert(order@.subrange(0, k + 1).drop_last() =~= order@.subrange(0, k as int));
                assert(order@.subrange(0, k + 1).last() == d);
            }
            k = k + 1;
        }
        proof {
            assert(order@.subrange(0, 4) =~= order@);
        }
        out
    }
}

} // verus!
