//! The solve drivers: breadth-first and depth-first search over a
//! double-ended queue, and A* over a priority frontier, all sharing the
//! move generator and the visited-state registry.
//!
//! Beyond the soundness of any returned path, the drivers carry enough
//! invariants to prove completeness — when a run ends with no path (and
//! its step counter has not saturated), no move sequence reaches the
//! goal, none within the depth bound for depth-first search — and, for
//! breadth-first search, minimality: a returned path is as short as any
//! move sequence that solves the grid.

use vstd::prelude::*;

use std::collections::VecDeque;

use crate::clock::duration_as_nanos;
use crate::clock::instant_elapsed;
use crate::clock::instant_now;
use crate::direction::full_order;
use crate::direction::Direction;
use crate::puzzle::clamp_u64;
use crate::puzzle::estimate_of;
use crate::puzzle::goal_grid;
use crate::puzzle::grid_move;
use crate::puzzle::lemma_estimate_admissible;
use crate::puzzle::lemma_goal_estimate_zero;
use crate::puzzle::lemma_neighbours_ranked;
use crate::puzzle::lemma_replay_concat;
use crate::puzzle::lemma_grid_move_changes;
use crate::puzzle::lemma_grid_move_inverse;
use crate::puzzle::lemma_neighbours_cover;
use crate::puzzle::lemma_replay_push;
use crate::puzzle::lemma_replay_wf;
use crate::puzzle::neighbour_step;
use crate::puzzle::neighbours_spec;
use crate::puzzle::replay;
use crate::puzzle::wf_grid;
use crate::puzzle::Puzzle;
use crate::puzzle::StateModel;
use crate::registry::apply_upserts;
use crate::registry::clamped_len;
use crate::registry::Registry;
use crate::registry::RegistryModel;
use crate::strategy::Metric;
use crate::strategy::SolveResult;
use crate::strategy::Strategy;

verus! {

broadcast use vstd::std_specs::vecdeque::group_vec_dequeue_axioms, vstd::set::group_set_axioms;

/// Depth bound for depth-first search: states at this history length are
/// counted as processed but not expanded.
pub const MAX_DEPTH: usize = 20;

/// A frontier or registry entry is a truthful record of a search from
/// the root grid: well formed, of the root's dimensions, and holding
/// exactly the grid its own history produces from the root.
pub open spec fn reachable_record(root: Seq<u8>, width: nat, height: nat, m: StateModel) -> bool {
    &&& m.wf()
    &&& m.width == width
    &&& m.height == height
    &&& replay(root, width, height, m.path) == Some(m.grid)
}

/// Every legal move out of grid `y` leads to a registered grid whose
/// stored history is at most one move longer than `y`'s.
pub open spec fn closure_at(m: RegistryModel, width: nat, height: nat, y: Seq<u8>) -> bool {
    forall|d: Direction|
        (#[trigger] grid_move(y, width, height, d)) matches Some(z) ==> m.contains_key(z) && m[
            z
        ].len() <= m[y].len() + 1
}

/// Some frontier entry still carries grid `y` with exactly its stored
/// history length.
pub open spec fn frontier_backed(m: RegistryModel, q: Seq<Puzzle>, y: Seq<u8>) -> bool {
    exists|i: int|
        0 <= i < q.len() && (#[trigger] q[i])@.grid == y && q[i]@.path.len() == m[y].len()
}

/// Every registered grid is still awaiting expansion on the frontier,
/// has been fully expanded, or (depth-first only) sits at the depth
/// bound.
pub open spec fn registry_explored(
    m: RegistryModel,
    q: Seq<Puzzle>,
    width: nat,
    height: nat,
    bounded: bool,
) -> bool {
    forall|y: Seq<u8>|
        #[trigger] m.contains_key(y) ==> frontier_backed(m, q, y) || closure_at(
            m,
            width,
            height,
            y,
        ) || (bounded && m[y].len() >= MAX_DEPTH as nat)
}

/// Every registered grid still has a frontier copy or has been popped.
pub open spec fn grids_accounted(m: RegistryModel, q: Seq<Puzzle>, popped: Set<Seq<u8>>) -> bool {
    forall|y: Seq<u8>|
        #[trigger] m.contains_key(y) ==> (exists|i: int|
            0 <= i < q.len() && (#[trigger] q[i])@.grid == y) || popped.contains(y)
}

/// A frontier entry with its registry bookkeeping: a truthful record
/// whose grid is registered at most as long as its own history, and
/// whose parent grid (when it has one) is registered strictly shorter.
pub open spec fn frontier_elem_ok(
    m: RegistryModel,
    root: Seq<u8>,
    width: nat,
    height: nat,
    s: StateModel,
) -> bool {
    &&& reachable_record(root, width, height, s)
    &&& m.contains_key(s.grid)
    &&& m[s.grid].len() <= s.path.len()
    &&& s.path.len() >= 1 ==> (replay(root, width, height, s.path.drop_last()) matches Some(pg)
        && m.contains_key(pg) && m[pg].len() <= s.path.len() - 1)
}

/// What every solve driver guarantees of its result: a returned path
/// really solves the start grid and is no longer than the deepest state
/// processed; the counters are positive; `visited_states` is exactly
/// the (machine-clamped) number of distinct grids in the run's upsert
/// journal; and a start grid that is already the goal yields the empty
/// path with exactly one visited and one processed state.
pub open spec fn sound_result(start: StateModel, res: SolveResult) -> bool {
    &&& (res.path matches Some(p) ==> replay(start.grid, start.width, start.height, p@) == Some(
        goal_grid(start.width, start.height),
    ) && res.max_depth >= p@.len())
    &&& res.visited_states >= 1
    &&& res.processed_states >= 1
    &&& res.visited_states as nat == clamped_len(
        apply_upserts(RegistryModel::empty(), res.journal@),
    )
    &&& (start.grid == goal_grid(start.width, start.height) ==> (res.path matches Some(p)
        && p@.len() == 0) && res.visited_states == 1 && res.processed_states == 1
        && res.max_depth == 0)
}

/// No route to the goal is shorter than `md` moves.
#[verifier::opaque]
pub open spec fn depth_bounded(root: Seq<u8>, width: nat, height: nat, md: nat) -> bool {
    forall|q: Seq<Direction>|
        (#[trigger] replay(root, width, height, q)) == Some(goal_grid(width, height)) ==> md
            <= q.len()
}

/// The search found no path and its step counter did not saturate: the
/// frontier was genuinely exhausted.
pub open spec fn exhausted(res: SolveResult) -> bool {
    res.path is None && res.processed_states < usize::MAX
}

/// With an empty frontier every registered grid is expanded (or at the
/// depth bound), so everything reachable from the registered root is
/// itself registered, no deeper than the path that reaches it.
proof fn lemma_exhausted_covers(
    m: RegistryModel,
    root: Seq<u8>,
    width: nat,
    height: nat,
    q: Seq<Direction>,
    bounded: bool,
)
    requires
        m.contains_key(root),
        m[root].len() == 0,
        forall|y: Seq<u8>|
            #[trigger] m.contains_key(y) ==> closure_at(m, width, height, y) || (bounded && m[
                y
            ].len() >= MAX_DEPTH as nat),
        replay(root, width, height, q) is Some,
        bounded ==> q.len() <= MAX_DEPTH,
    ensures
        m.contains_key(replay(root, width, height, q)->Some_0),
        m[replay(root, width, height, q)->Some_0].len() <= q.len(),
    decreases q.len(),
{
    if q.len() > 0 {
        lemma_exhausted_covers(m, root, width, height, q.drop_last(), bounded);
        let gp = replay(root, width, height, q.drop_last())->Some_0;
        let g = replay(root, width, height, q)->Some_0;
        assert(grid_move(gp, width, height, q.last()) == Some(g));
        assert(closure_at(m, width, height, gp));
    }
}

/// While every frontier entry still sits at depth `dmin` or deeper,
/// every grid reachable by at most `dmin` moves is already registered,
/// no deeper than the path that reaches it: grids registered shallower
/// than `dmin` are fully expanded, so short paths never escape the
/// registry.
proof fn lemma_frontier_covers(
    m: RegistryModel,
    root: Seq<u8>,
    width: nat,
    height: nat,
    q: Seq<Direction>,
    dmin: nat,
)
    requires
        m.contains_key(root),
        m[root].len() == 0,
        forall|y: Seq<u8>|
            #[trigger] m.contains_key(y) ==> closure_at(m, width, height, y) || m[y].len()
                >= dmin,
        replay(root, width, height, q) is Some,
        q.len() <= dmin,
    ensures
        m.contains_key(replay(root, width, height, q)->Some_0),
        m[replay(root, width, height, q)->Some_0].len() <= q.len(),
    decreases q.len(),
{
    if q.len() > 0 {
        lemma_frontier_covers(m, root, width, height, q.drop_last(), dmin);
        let gp = replay(root, width, height, q.drop_last())->Some_0;
        let g = replay(root, width, height, q)->Some_0;
        assert(grid_move(gp, width, height, q.last()) == Some(g));
        assert(m[gp].len() <= q.len() - 1 < dmin);
        assert(closure_at(m, width, height, gp));
    }
}

/// Walking any route from a registered root: either its endpoint is
/// registered no deeper than the route, or some strict prefix of the
/// route ends at a registered grid, no deeper than that prefix, that is
/// not yet fully expanded.
proof fn lemma_route_covered(
    m: RegistryModel,
    root: Seq<u8>,
    width: nat,
    height: nat,
    q: Seq<Direction>,
)
    requires
        m.contains_key(root),
        m[root].len() == 0,
        replay(root, width, height, q) is Some,
    ensures
        (m.contains_key(replay(root, width, height, q)->Some_0) && m[replay(
            root,
            width,
            height,
            q,
        )->Some_0].len() <= q.len()) || exists|i: int|
            0 <= i < q.len() && replay(root, width, height, #[trigger] q.subrange(0, i)) is Some
                && m.contains_key(replay(root, width, height, q.subrange(0, i))->Some_0) && m[
                replay(root, width, height, q.subrange(0, i))->Some_0
            ].len() <= i && !closure_at(
                m,
                width,
                height,
                replay(root, width, height, q.subrange(0, i))->Some_0,
            ),
    decreases q.len(),
{
    if q.len() > 0 {
        lemma_route_covered(m, root, width, height, q.drop_last());
        let gp = replay(root, width, height, q.drop_last())->Some_0;
        let g = replay(root, width, height, q)->Some_0;
        if m.contains_key(gp) && m[gp].len() <= q.len() - 1 {
            if closure_at(m, width, height, gp) {
                assert(grid_move(gp, width, height, q.last()) == Some(g));
            } else {
                assert(q.subrange(0, q.len() - 1) =~= q.drop_last());
                assert(0 <= q.len() - 1 < q.len() && replay(
                    root,
                    width,
                    height,
                    q.subrange(0, q.len() - 1),
                ) is Some && m.contains_key(gp) && m[gp].len() <= q.len() - 1 && !closure_at(
                    m,
                    width,
                    height,
                    gp,
                ));
            }
        } else {
            let i = choose|i: int|
                0 <= i < q.drop_last().len() && replay(
                    root,
                    width,
                    height,
                    #[trigger] q.drop_last().subrange(0, i),
                ) is Some && m.contains_key(
                    replay(root, width, height, q.drop_last().subrange(0, i))->Some_0,
                ) && m[replay(root, width, height, q.drop_last().subrange(0, i))->Some_0].len()
                    <= i && !closure_at(
                    m,
                    width,
                    height,
                    replay(root, width, height, q.drop_last().subrange(0, i))->Some_0,
                );
            assert(q.subrange(0, i) =~= q.drop_last().subrange(0, i));
            assert(0 <= i < q.len() && replay(root, width, height, q.subrange(0, i)) is Some
                && m.contains_key(replay(root, width, height, q.subrange(0, i))->Some_0) && m[
                replay(root, width, height, q.subrange(0, i))->Some_0
            ].len() <= i && !closure_at(
                m,
                width,
                height,
                replay(root, width, height, q.subrange(0, i))->Some_0,
            ));
        }
    }
}

/// When a state of minimal rank is popped from an informed frontier
/// whose ranks are g + h for an admissible heuristic, its history is no
/// longer than any route to the goal: a shorter route would put a
/// strictly lower-ranked entry on the frontier.
proof fn lemma_astar_pop_bound(
    m: RegistryModel,
    fr: Seq<Puzzle>,
    cur: StateModel,
    root: Seq<u8>,
    width: nat,
    height: nat,
    mt: Metric,
)
    requires
        m.contains_key(root),
        m[root].len() == 0,
        wf_grid(root, width, height),
        1 <= width,
        1 <= height,
        width * height <= 256,
        cur.rank >= cur.path.len(),
        registry_explored(m, fr, width, height, false),
        m.contains_key(goal_grid(width, height)) ==> frontier_backed(
            m,
            fr,
            goal_grid(width, height),
        ),
        forall|i: int|
            0 <= i < fr.len() ==> (#[trigger] fr[i])@.rank == clamp_u64(
                fr[i]@.path.len() + estimate_of(fr[i]@.grid, width, mt),
            ),
        forall|i: int| 0 <= i < fr.len() ==> cur.rank <= (#[trigger] fr[i])@.rank,
    ensures
        forall|q: Seq<Direction>|
            replay(root, width, height, q) == Some(goal_grid(width, height))
                ==> cur.path.len() <= q.len(),
{
    let goalg = goal_grid(width, height);
    lemma_goal_estimate_zero(width, height, mt);
    assert forall|q: Seq<Direction>| replay(root, width, height, q) == Some(
        goalg,
    ) implies cur.path.len() <= q.len() by {
        lemma_route_covered(m, root, width, height, q);
        if m.contains_key(goalg) && m[goalg].len() <= q.len() {
            assert(frontier_backed(m, fr, goalg));
            let gb = choose|i: int|
                0 <= i < fr.len() && (#[trigger] fr[i])@.grid == goalg && fr[i]@.path.len()
                    == m[goalg].len();
            assert(fr[gb]@.rank == clamp_u64(
                fr[gb]@.path.len() + estimate_of(goalg, width, mt),
            ));
            assert(fr[gb]@.rank <= fr[gb]@.path.len());
            assert(cur.rank <= fr[gb]@.rank);
            assert(cur.path.len() <= q.len());
        } else {
            let i = choose|i: int|
                0 <= i < q.len() && replay(root, width, height, #[trigger] q.subrange(0, i))
                    is Some && m.contains_key(
                    replay(root, width, height, q.subrange(0, i))->Some_0,
                ) && m[replay(root, width, height, q.subrange(0, i))->Some_0].len() <= i
                    && !closure_at(
                    m,
                    width,
                    height,
                    replay(root, width, height, q.subrange(0, i))->Some_0,
                );
            let gi = replay(root, width, height, q.subrange(0, i))->Some_0;
            assert(frontier_backed(m, fr, gi));
            let si = choose|k: int|
                0 <= k < fr.len() && (#[trigger] fr[k])@.grid == gi && fr[k]@.path.len() == m[
                    gi
                ].len();
            assert(q =~= q.subrange(0, i) + q.subrange(i, q.len() as int));
            lemma_replay_concat(root, width, height, q.subrange(0, i), q.subrange(
                i,
                q.len() as int,
            ));
            lemma_replay_wf(root, width, height, q.subrange(0, i));
            lemma_estimate_admissible(gi, width, height, q.subrange(i, q.len() as int), mt);
            assert(fr[si]@.rank == clamp_u64(
                fr[si]@.path.len() + estimate_of(gi, width, mt),
            ));
            assert(fr[si]@.rank <= fr[si]@.path.len() + estimate_of(gi, width, mt));
            assert(fr[si]@.rank <= i + (q.len() - i));
            assert(cur.rank <= fr[si]@.rank);
            assert(cur.path.len() <= q.len());
        }
    }
}

/// Removes and returns a state of minimal rank from the frontier.
fn pop_min(frontier: &mut Vec<Puzzle>) -> (r: Puzzle)
    requires
        old(frontier)@.len() > 0,
    ensures
        exists|i: int|
            0 <= i < old(frontier)@.len() && r == old(frontier)@[i] && final(frontier)@ == old(
                frontier,
            )@.remove(i),
        forall|j: int|
            0 <= j < old(frontier)@.len() ==> r@.rank <= (#[trigger] old(frontier)@[j])@.rank,
{
    let mut best: usize = 0;
    let mut k: usize = 1;
    while k < frontier.len()
        invariant
            frontier@.len() > 0,
            (best as int) < frontier@.len(),
            k <= frontier@.len(),
            forall|j: int|
                0 <= j < k ==> frontier@[best as int]@.rank <= (#[trigger] frontier@[j])@.rank,
        decreases frontier@.len() - k,
    {
        if frontier[k].rank() < frontier[best].rank() {
            best = k;
        }
        k = k + 1;
    }
    let ghost pre = frontier@;
    let r = frontier.remove(best);
    proof {
        assert(r == pre[best as int] && frontier@ == pre.remove(best as int));
    }
    r
}

impl Puzzle {
    /// Solves the puzzle with the given strategy (whose move order, for
    /// breadth- and depth-first search, must name every direction).
    ///
    /// Any returned path is a genuine solution: replaying it from this
    /// grid reaches the canonical goal.  A depth-first search never
    /// returns a path longer than `MAX_DEPTH`.  When no path is returned
    /// and the step counter did not saturate, no move sequence reaches
    /// the goal at all — none of length at most `MAX_DEPTH`, for
    /// depth-first search.  A start grid that is already solved yields
    /// the empty path with one visited and one processed state, and
    /// `visited_states` always counts the distinct grids of the run's
    /// upsert journal.
    pub fn solve(&self, strategy: &Strategy) -> (res: SolveResult)
        requires
            self@.wf(),
            strategy matches Strategy::Bfs(o) ==> full_order(o@),
            strategy matches Strategy::Dfs(o) ==> full_order(o@),
        ensures
            sound_result(self@, res),
            strategy matches Strategy::Dfs(_) ==> (res.path matches Some(p) ==> p@.len()
                <= MAX_DEPTH),
            !(strategy matches Strategy::Dfs(_)) ==> (exhausted(res) ==> forall|q: Seq<Direction>|
                replay(self@.grid, self@.width, self@.height, q) != Some(
                    goal_grid(self@.width, self@.height),
                )),
            strategy matches Strategy::Dfs(_) ==> (exhausted(res) ==> forall|q: Seq<Direction>|
                q.len() <= MAX_DEPTH ==> replay(self@.grid, self@.width, self@.height, q) != Some(
                    goal_grid(self@.width, self@.height),
                )),
            !(strategy matches Strategy::Dfs(_)) ==> (res.path matches Some(p) ==> forall|
                q: Seq<Direction>,
            |
                q.len() < p@.len() ==> replay(self@.grid, self@.width, self@.height, q) != Some(
                    goal_grid(self@.width, self@.height),
                )),
            !(strategy matches Strategy::Dfs(_)) ==> (res.path matches Some(p) ==> res.max_depth
                == p@.len()),
    {
        match strategy {
            Strategy::Bfs(order) => self.solve_basic(order, false),
            Strategy::Dfs(order) => self.solve_basic(order, true),
            Strategy::AStar(metric) => self.solve_priority(metric),
        }
    }

    /// Breadth-first (`is_dfs == false`) or depth-first (`is_dfs ==
    /// true`) search from this state, expanding in the given move order
    /// (reversed for depth-first, so that after LIFO popping the first
    /// listed direction is explored first).
    #[verifier::rlimit(100)]
    fn solve_basic(&self, order: &[Direction; 4], is_dfs: bool) -> (res: SolveResult)
        requires
            self@.wf(),
            full_order(order@),
        ensures
            sound_result(self@, res),
            is_dfs ==> (res.path matches Some(p) ==> p@.len() <= MAX_DEPTH),
            exhausted(res) ==> forall|q: Seq<Direction>|
                (!is_dfs || q.len() <= MAX_DEPTH) ==> replay(
                    self@.grid,
                    self@.width,
                    self@.height,
                    q,
                ) != Some(goal_grid(self@.width, self@.height)),
            !is_dfs ==> (res.path matches Some(p) ==> forall|q: Seq<Direction>|
                q.len() < p@.len() ==> replay(self@.grid, self@.width, self@.height, q) != Some(
                    goal_grid(self@.width, self@.height),
                )),
            !is_dfs ==> (res.path matches Some(p) ==> res.max_depth == p@.len()),
    {
        let ghost rootg = self@.grid;
        let ghost w = self@.width;
        let ghost h = self@.height;
        let root = self.as_root();
        let ghost rootv = root@;
        let mut queue: VecDeque<Puzzle> = VecDeque::new();
        let mut registry = Registry::new();
        registry.upsert(&root);
        queue.push_back(root);
        let ghost mut popped_set: Set<Seq<u8>> = Set::empty();
        proof {
            assert(registry@.dom() == Set::<Seq<u8>>::empty().insert(rootg));
            assert(queue@[0]@.grid == rootg && queue@[0]@.path.len() == 0);
            assert(registry@[rootg].len() == 0);
            if registry@.contains_key(goal_grid(w, h)) {
                assert(registry@.dom().contains(goal_grid(w, h)));
                assert(goal_grid(w, h) == rootg);
                assert(frontier_backed(registry@, queue@, rootg));
            }
        }
        let mut max_depth: usize = 0;
        let mut processed: usize = 0;
        let start_time = instant_now();
        let order2: [Direction; 4] = if is_dfs {
            [order[3], order[2], order[1], order[0]]
        } else {
            [order[0], order[1], order[2], order[3]]
        };
        proof {
            let ku = choose|i: int| 0 <= i < order@.len() && order@[i] == Direction::Up;
            let kd = choose|i: int| 0 <= i < order@.len() && order@[i] == Direction::Down;
            let kl = choose|i: int| 0 <= i < order@.len() && order@[i] == Direction::Left;
            let kr = choose|i: int| 0 <= i < order@.len() && order@[i] == Direction::Right;
            if is_dfs {
                assert(order2@[3 - ku] == Direction::Up && order2@[3 - kd] == Direction::Down
                    && order2@[3 - kl] == Direction::Left && order2@[3 - kr] == Direction::Right);
            } else {
                assert(order2@[ku] == Direction::Up && order2@[kd] == Direction::Down
                    && order2@[kl] == Direction::Left && order2@[kr] == Direction::Right);
            }
            assert(full_order(order2@));
        }
        while queue.len() != 0
            invariant
                registry.inv(),
                registry@.contains_key(rootg),
                registry@[rootg].len() == 0,
                rootg == self@.grid,
                w == self@.width,
                h == self@.height,
                wf_grid(rootg, w, h),
                full_order(order2@),
                rootv.grid == rootg,
                rootv.path.len() == 0,
                processed >= 1 || queue@.len() >= 1,
                forall|i: int|
                    0 <= i < queue@.len() ==> frontier_elem_ok(
                        registry@,
                        rootg,
                        w,
                        h,
                        (#[trigger] queue@[i])@,
                    ),
                is_dfs ==> forall|i: int|
                    0 <= i < queue@.len() ==> (#[trigger] queue@[i])@.path.len() <= MAX_DEPTH,
                registry_explored(registry@, queue@, w, h, is_dfs),
                grids_accounted(registry@, queue@, popped_set),
                forall|y: Seq<u8>| #[trigger] popped_set.contains(y) ==> y != goal_grid(w, h),
                !is_dfs ==> forall|i: int, j: int|
                    0 <= i <= j < queue@.len() ==> (#[trigger] queue@[i])@.path.len()
                        <= (#[trigger] queue@[j])@.path.len(),
                !is_dfs ==> forall|i: int, j: int|
                    0 <= i < queue@.len() && 0 <= j < queue@.len() ==> (
                    #[trigger] queue@[i])@.path.len() <= (#[trigger] queue@[j])@.path.len() + 1,
                !is_dfs ==> (registry@.contains_key(goal_grid(w, h)) ==> frontier_backed(
                    registry@,
                    queue@,
                    goal_grid(w, h),
                )),
                !is_dfs ==> forall|i: int|
                    0 <= i < queue@.len() ==> max_depth <= (#[trigger] queue@[i])@.path.len(),
                rootg == goal_grid(w, h) ==> processed == 0 && max_depth == 0 && queue@.len() == 1
                    && queue@[0]@ == rootv && registry@.dom() == Set::<Seq<u8>>::empty().insert(
                    rootg,
                ),
            decreases usize::MAX - processed,
        {
            if processed == usize::MAX {
                let visited = registry.len();
                let elapsed = instant_elapsed(&start_time);
                proof {
                    registry.lemma_tracks_upserts();
                }
                return SolveResult {
                    path: None,
                    journal: Ghost(registry.upserts()),
                    visited_states: visited,
                    processed_states: processed,
                    max_depth,
                    time_spent: duration_as_nanos(&elapsed),
                };
            }
            let ghost pre_q = queue@;
            let popped_opt = if is_dfs {
                queue.pop_back()
            } else {
                queue.pop_front()
            };
            let current = popped_opt.unwrap();
            let ghost popped_at: int = if is_dfs {
                pre_q.len() - 1
            } else {
                0
            };
            proof {
                assert(current == pre_q[popped_at]);
                assert(frontier_elem_ok(registry@, rootg, w, h, current@));
                assert forall|i: int| 0 <= i < queue@.len() implies frontier_elem_ok(
                    registry@,
                    rootg,
                    w,
                    h,
                    (#[trigger] queue@[i])@,
                ) && (is_dfs ==> queue@[i]@.path.len() <= MAX_DEPTH) by {
                    if is_dfs {
                        assert(queue@[i] == pre_q[i]);
                    } else {
                        assert(queue@[i] == pre_q[i + 1]);
                    }
                }
                if !is_dfs {
                    assert forall|i: int, j: int|
                        0 <= i <= j < queue@.len() implies (#[trigger] queue@[i])@.path.len()
                        <= (#[trigger] queue@[j])@.path.len() by {
                        assert(queue@[i] == pre_q[i + 1] && queue@[j] == pre_q[j + 1]);
                    }
                    assert forall|i: int| 0 <= i < queue@.len() implies current@.path.len()
                        <= (#[trigger] queue@[i])@.path.len() && queue@[i]@.path.len()
                        <= current@.path.len() + 1 by {
                        assert(queue@[i] == pre_q[i + 1]);
                        assert(pre_q[0]@.path.len() <= pre_q[i + 1]@.path.len());
                        assert(pre_q[i + 1]@.path.len() <= pre_q[0]@.path.len() + 1);
                    }
                }
            }
            processed = processed + 1;
            let depth = current.path_depth();
            if depth > max_depth {
                max_depth = depth;
            }
            if current.is_solved() {
                let path = current.path_to_vec();
                let visited = registry.len();
                let elapsed = instant_elapsed(&start_time);
                proof {
                    registry.lemma_tracks_upserts();
                    if !is_dfs {
                        let goalg = goal_grid(w, h);
                        let dmin = current@.path.len();
                        assert(pre_q[0]@.path.len() == dmin);
                        assert forall|q: Seq<Direction>| q.len() < dmin implies replay(
                            rootg,
                            w,
                            h,
                            q,
                        ) != Some(goalg) by {
                            if replay(rootg, w, h, q) == Some(goalg) {
                                assert forall|y: Seq<u8>| #[trigger] registry@.contains_key(
                                    y,
                                ) implies closure_at(registry@, w, h, y) || registry@[y].len()
                                    >= dmin by {
                                    if frontier_backed(registry@, pre_q, y) {
                                        let i = choose|i: int|
                                            0 <= i < pre_q.len() && (#[trigger] pre_q[i])@.grid
                                                == y && pre_q[i]@.path.len() == registry@[
                                                y
                                            ].len();
                                        assert(pre_q[0]@.path.len() <= pre_q[i]@.path.len());
                                    }
                                }
                                lemma_frontier_covers(registry@, rootg, w, h, q, dmin);
                                assert(registry@.contains_key(goalg) && registry@[goalg].len()
                                    <= q.len());
                                assert(frontier_backed(registry@, pre_q, goalg));
                                let i = choose|i: int|
                                    0 <= i < pre_q.len() && (#[trigger] pre_q[i])@.grid == goalg
                                        && pre_q[i]@.path.len() == registry@[goalg].len();
                                assert(pre_q[0]@.path.len() <= pre_q[i]@.path.len());
                                assert(false);
                            }
                        }
                    }
                }
                return SolveResult {
                    path: Some(path),
                    journal: Ghost(registry.upserts()),
                    visited_states: visited,
                    processed_states: processed,
                    max_depth,
                    time_spent: duration_as_nanos(&elapsed),
                };
            }
            let ghost cur_grid = current@.grid;
            proof {
                if rootg == goal_grid(w, h) {
                    assert(current@ == rootv);
                    assert(false);
                }
                assert(cur_grid != goal_grid(w, h));
                popped_set = popped_set.insert(cur_grid);
                assert forall|y: Seq<u8>| #[trigger] registry@.contains_key(y) implies (exists|
                    i: int,
                |
                    0 <= i < queue@.len() && (#[trigger] queue@[i])@.grid == y)
                    || popped_set.contains(y) by {
                    if !popped_set.contains(y) {
                        let i = choose|i: int|
                            0 <= i < pre_q.len() && (#[trigger] pre_q[i])@.grid == y;
                        assert(i != popped_at);
                        if is_dfs {
                            assert(queue@[i]@.grid == y);
                        } else {
                            assert(queue@[i - 1]@.grid == y);
                        }
                    }
                }
                if !is_dfs && registry@.contains_key(goal_grid(w, h)) {
                    assert(frontier_backed(registry@, pre_q, goal_grid(w, h)));
                    let gi = choose|i: int|
                        0 <= i < pre_q.len() && (#[trigger] pre_q[i])@.grid == goal_grid(w, h)
                            && pre_q[i]@.path.len() == registry@[goal_grid(w, h)].len();
                    assert(gi != popped_at);
                    assert(queue@[gi - 1]@.grid == goal_grid(w, h) && queue@[gi - 1]@.path.len()
                        == registry@[goal_grid(w, h)].len());
                }
            }
            let ghost handled = frontier_backed(registry@, queue@, cur_grid) || closure_at(
                registry@,
                w,
                h,
                cur_grid,
            ) || (is_dfs && registry@[cur_grid].len() >= MAX_DEPTH as nat);
            proof {
                assert forall|y: Seq<u8>|
                    registry@.contains_key(y) && y != cur_grid implies frontier_backed(
                    registry@,
                    queue@,
                    y,
                ) || closure_at(registry@, w, h, y) || (is_dfs && registry@[y].len()
                    >= MAX_DEPTH as nat) by {
                    if frontier_backed(registry@, pre_q, y) {
                        let i = choose|i: int|
                            0 <= i < pre_q.len() && (#[trigger] pre_q[i])@.grid == y
                                && pre_q[i]@.path.len() == registry@[y].len();
                        assert(i != popped_at);
                        if is_dfs {
                            assert(queue@[i]@.grid == y && queue@[i]@.path.len() == registry@[
                                y
                            ].len());
                        } else {
                            assert(queue@[i - 1]@.grid == y && queue@[i - 1]@.path.len()
                                == registry@[y].len());
                        }
                    }
                }
                if !handled {
                    assert(frontier_backed(registry@, pre_q, cur_grid));
                    let i = choose|i: int|
                        0 <= i < pre_q.len() && (#[trigger] pre_q[i])@.grid == cur_grid
                            && pre_q[i]@.path.len() == registry@[cur_grid].len();
                    if i != popped_at {
                        if is_dfs {
                            assert(queue@[i]@.grid == cur_grid && queue@[i]@.path.len()
                                == registry@[cur_grid].len());
                        } else {
                            assert(queue@[i - 1]@.grid == cur_grid && queue@[i - 1]@.path.len()
                                == registry@[cur_grid].len());
                        }
                        assert(false);
                    }
                    assert(registry@[cur_grid].len() == current@.path.len());
                }
            }
            if is_dfs && depth >= MAX_DEPTH {
                proof {
                    assert(registry_explored(registry@, queue@, w, h, is_dfs)) by {
                        if !handled {
                            assert(registry@[cur_grid].len() >= MAX_DEPTH as nat);
                        }
                    }
                }
                continue ;
            }
            let neighbours = current.get_neighbour_states(&order2, true, None);
            let mut ni: usize = 0;
            while ni < neighbours.len()
                invariant
                    registry.inv(),
                    registry@.contains_key(rootg),
                    registry@[rootg].len() == 0,
                    wf_grid(rootg, w, h),
                    full_order(order2@),
                    ni <= neighbours@.len(),
                    cur_grid == current@.grid,
                    cur_grid != goal_grid(w, h),
                    reachable_record(rootg, w, h, current@),
                    registry@.contains_key(cur_grid),
                    registry@[cur_grid].len() <= current@.path.len(),
                    current@.path.len() >= 1 ==> (replay(
                        rootg,
                        w,
                        h,
                        current@.path.drop_last(),
                    ) matches Some(pg) && registry@.contains_key(pg) && registry@[pg].len()
                        <= current@.path.len() - 1),
                    is_dfs ==> current@.path.len() < MAX_DEPTH,
                    neighbours@.map_values(|p: Puzzle| p@) == neighbours_spec(
                        current@,
                        order2@,
                        true,
                        None,
                    ),
                    forall|i: int|
                        0 <= i < neighbours@.len() ==> (#[trigger] neighbours@[i])@.wf()
                            && neighbours@[i]@.width == w && neighbours@[i]@.height == h
                            && neighbours@[i]@.path.len() == current@.path.len() + 1 && exists|
                            d: Direction,
                        |
                            neighbours@[i]@.path == current@.path.push(d) && grid_move(
                                cur_grid,
                                w,
                                h,
                                d,
                            ) == Some(neighbours@[i]@.grid),
                    forall|k: int|
                        0 <= k < ni ==> registry@.contains_key(
                            (#[trigger] neighbours@[k])@.grid,
                        ) && registry@[neighbours@[k]@.grid].len() <= current@.path.len() + 1,
                    forall|i: int|
                        0 <= i < queue@.len() ==> frontier_elem_ok(
                            registry@,
                            rootg,
                            w,
                            h,
                            (#[trigger] queue@[i])@,
                        ),
                    is_dfs ==> forall|i: int|
                        0 <= i < queue@.len() ==> (#[trigger] queue@[i])@.path.len() <= MAX_DEPTH,
                    forall|y: Seq<u8>|
                        registry@.contains_key(y) && y != cur_grid ==> frontier_backed(
                            registry@,
                            queue@,
                            y,
                        ) || closure_at(registry@, w, h, y) || (is_dfs && registry@[y].len()
                            >= MAX_DEPTH as nat),
                    handled ==> frontier_backed(registry@, queue@, cur_grid) || closure_at(
                        registry@,
                        w,
                        h,
                        cur_grid,
                    ) || (is_dfs && registry@[cur_grid].len() >= MAX_DEPTH as nat),
                    !handled ==> registry@[cur_grid].len() == current@.path.len(),
                    grids_accounted(registry@, queue@, popped_set),
                    forall|y: Seq<u8>| #[trigger] popped_set.contains(y) ==> y != goal_grid(w, h),
                    popped_set.contains(cur_grid),
                    rootg != goal_grid(w, h),
                    !is_dfs ==> forall|i: int, j: int|
                        0 <= i <= j < queue@.len() ==> (#[trigger] queue@[i])@.path.len()
                            <= (#[trigger] queue@[j])@.path.len(),
                    !is_dfs ==> forall|i: int|
                        0 <= i < queue@.len() ==> current@.path.len() <= (
                        #[trigger] queue@[i])@.path.len() && queue@[i]@.path.len()
                            <= current@.path.len() + 1,
                    !is_dfs ==> (registry@.contains_key(goal_grid(w, h)) ==> frontier_backed(
                        registry@,
                        queue@,
                        goal_grid(w, h),
                    )),
                    !is_dfs ==> max_depth == current@.path.len(),
                decreases neighbours@.len() - ni,
            {
                let ghost pre_m = registry@;
                let ghost pre_q2 = queue@;
                let ghost nbv = neighbours@[ni as int]@;
                proof {
                    let d = choose|d: Direction|
                        nbv.path == current@.path.push(d) && grid_move(cur_grid, w, h, d) == Some(
                            nbv.grid,
                        );
                    lemma_replay_push(rootg, w, h, current@.path, d, cur_grid, nbv.grid);
                    assert(reachable_record(rootg, w, h, nbv));
                    lemma_grid_move_changes(cur_grid, w, h, d, nbv.grid);
                    assert(nbv.grid != cur_grid);
                }
                let admitted = registry.upsert(&neighbours[ni]);
                if admitted {
                    queue.push_back(neighbours[ni].duplicate());
                }
                proof {
                    let m1 = registry@;
                    // How each grid's entry moved.
                    assert(m1 == crate::registry::upsert_model(pre_m, nbv.grid, nbv.path));
                    assert(registry@[rootg].len() == 0);
                    assert forall|y: Seq<u8>| #[trigger] pre_m.contains_key(y) implies
                        m1.contains_key(y) && m1[y].len() <= pre_m[y].len() by {}
                    assert(m1.contains_key(nbv.grid) && m1[nbv.grid].len() <= nbv.path.len());
                    // The new frontier entry, when one was pushed.
                    if admitted {
                        assert(queue@[pre_q2.len() as int]@ == nbv);
                        assert(m1[nbv.grid] == nbv.path);
                        assert forall|i: int| 0 <= i < pre_q2.len() implies queue@[i]
                            == pre_q2[i] by {}
                        assert(frontier_elem_ok(m1, rootg, w, h, nbv)) by {
                            assert(nbv.path.drop_last() =~= current@.path);
                        }
                    }
                    // Frontier entries keep their bookkeeping.
                    assert forall|i: int| 0 <= i < queue@.len() implies frontier_elem_ok(
                        m1,
                        rootg,
                        w,
                        h,
                        (#[trigger] queue@[i])@,
                    ) && (is_dfs ==> queue@[i]@.path.len() <= MAX_DEPTH) by {
                        if i < pre_q2.len() {
                            assert(queue@[i] == pre_q2[i]);
                            assert(frontier_elem_ok(pre_m, rootg, w, h, queue@[i]@));
                        }
                    }
                    // Explored-registry bookkeeping for every other grid.
                    assert forall|y: Seq<u8>|
                        m1.contains_key(y) && y != cur_grid implies frontier_backed(
                        m1,
                        queue@,
                        y,
                    ) || closure_at(m1, w, h, y) || (is_dfs && m1[y].len()
                        >= MAX_DEPTH as nat) by {
                        if y == nbv.grid && admitted {
                            assert(queue@[pre_q2.len() as int]@.grid == y
                                && queue@[pre_q2.len() as int]@.path.len() == m1[y].len());
                        } else {
                            assert(pre_m.contains_key(y) && m1[y] == pre_m[y]);
                            if frontier_backed(pre_m, pre_q2, y) {
                                let i = choose|i: int|
                                    0 <= i < pre_q2.len() && (#[trigger] pre_q2[i])@.grid == y
                                        && pre_q2[i]@.path.len() == pre_m[y].len();
                                assert(queue@[i]@.grid == y && queue@[i]@.path.len() == m1[
                                    y
                                ].len());
                            } else if closure_at(pre_m, w, h, y) {
                                assert forall|d: Direction|
                                    (#[trigger] grid_move(y, w, h, d)) is Some implies
                                    m1.contains_key(grid_move(y, w, h, d)->Some_0) && m1[grid_move(
                                    y,
                                    w,
                                    h,
                                    d,
                                )->Some_0].len() <= m1[y].len() + 1 by {
                                    let z = grid_move(y, w, h, d)->Some_0;
                                    assert(pre_m.contains_key(z) && pre_m[z].len() <= pre_m[
                                        y
                                    ].len() + 1);
                                }
                            }
                        }
                    }
                    // The popped grid's own bookkeeping survives.
                    if handled {
                        assert(m1[cur_grid] == pre_m[cur_grid]);
                        if frontier_backed(pre_m, pre_q2, cur_grid) {
                            let i = choose|i: int|
                                0 <= i < pre_q2.len() && (#[trigger] pre_q2[i])@.grid == cur_grid
                                    && pre_q2[i]@.path.len() == pre_m[cur_grid].len();
                            assert(queue@[i]@.grid == cur_grid && queue@[i]@.path.len() == m1[
                                cur_grid
                            ].len());
                        } else if closure_at(pre_m, w, h, cur_grid) {
                            assert forall|d: Direction|
                                (#[trigger] grid_move(cur_grid, w, h, d)) is Some implies
                                m1.contains_key(grid_move(cur_grid, w, h, d)->Some_0) && m1[
                                grid_move(cur_grid, w, h, d)->Some_0].len() <= m1[cur_grid].len()
                                + 1 by {
                                let z = grid_move(cur_grid, w, h, d)->Some_0;
                                assert(pre_m.contains_key(z) && pre_m[z].len() <= pre_m[
                                    cur_grid
                                ].len() + 1);
                            }
                        }
                    }
                    // Accounting of registered grids.
                    assert forall|y: Seq<u8>| #[trigger] m1.contains_key(y) implies (exists|
                        i: int,
                    |
                        0 <= i < queue@.len() && (#[trigger] queue@[i])@.grid == y)
                        || popped_set.contains(y) by {
                        if y == nbv.grid && admitted {
                            assert(queue@[pre_q2.len() as int]@.grid == y);
                        } else {
                            assert(pre_m.contains_key(y));
                            if !popped_set.contains(y) {
                                let i = choose|i: int|
                                    0 <= i < pre_q2.len() && (#[trigger] pre_q2[i])@.grid == y;
                                assert(queue@[i]@.grid == y);
                            }
                        }
                    }
                    // Breadth-first depth window and the goal's backing
                    // copy survive the push.
                    if !is_dfs {
                        if admitted {
                            assert(queue@[pre_q2.len() as int]@.path.len() == current@.path.len()
                                + 1);
                        }
                        assert forall|i: int, j: int|
                            0 <= i <= j < queue@.len() implies (#[trigger] queue@[i])@.path.len()
                            <= (#[trigger] queue@[j])@.path.len() by {
                            if j < pre_q2.len() {
                                assert(queue@[i] == pre_q2[i] && queue@[j] == pre_q2[j]);
                            } else if i < pre_q2.len() {
                                assert(queue@[i] == pre_q2[i]);
                                assert(pre_q2[i]@.path.len() <= current@.path.len() + 1);
                            }
                        }
                        assert forall|i: int| 0 <= i < queue@.len() implies current@.path.len()
                            <= (#[trigger] queue@[i])@.path.len() && queue@[i]@.path.len()
                            <= current@.path.len() + 1 by {
                            if i < pre_q2.len() {
                                assert(queue@[i] == pre_q2[i]);
                            }
                        }
                        if m1.contains_key(goal_grid(w, h)) {
                            if nbv.grid == goal_grid(w, h) && admitted {
                                assert(queue@[pre_q2.len() as int]@.grid == goal_grid(w, h)
                                    && queue@[pre_q2.len() as int]@.path.len() == m1[goal_grid(
                                    w,
                                    h,
                                )].len());
                            } else {
                                assert(pre_m.contains_key(goal_grid(w, h)) && m1[goal_grid(w, h)]
                                    == pre_m[goal_grid(w, h)]);
                                assert(frontier_backed(pre_m, pre_q2, goal_grid(w, h)));
                                let gi = choose|i: int|
                                    0 <= i < pre_q2.len() && (#[trigger] pre_q2[i])@.grid
                                        == goal_grid(w, h) && pre_q2[i]@.path.len() == pre_m[
                                        goal_grid(w, h)
                                    ].len();
                                assert(queue@[gi]@.grid == goal_grid(w, h)
                                    && queue@[gi]@.path.len() == m1[goal_grid(w, h)].len());
                            }
                        }
                    }
                }
                ni = ni + 1;
            }
            proof {
                if !is_dfs {
                    assert forall|i: int, j: int|
                        0 <= i < queue@.len() && 0 <= j < queue@.len() implies (
                    #[trigger] queue@[i])@.path.len() <= (#[trigger] queue@[j])@.path.len()
                        + 1 by {
                        assert(queue@[i]@.path.len() <= current@.path.len() + 1);
                        assert(current@.path.len() <= queue@[j]@.path.len());
                    }
                }
                if !handled {
                    assert forall|d: Direction|
                        (#[trigger] grid_move(cur_grid, w, h, d)) is Some implies
                        registry@.contains_key(grid_move(cur_grid, w, h, d)->Some_0)
                        && registry@[grid_move(cur_grid, w, h, d)->Some_0].len() <= registry@[
                        cur_grid
                    ].len() + 1 by {
                        let z = grid_move(cur_grid, w, h, d)->Some_0;
                        if current@.path.len() > 0 && d.opposite_spec() == current@.path[
                            current@.path.len() - 1
                        ] {
                            // The skipped reverse move leads back to the
                            // parent grid, already registered shorter.
                            let pg = replay(rootg, w, h, current@.path.drop_last())->Some_0;
                            lemma_replay_wf(rootg, w, h, current@.path.drop_last());
                            assert(grid_move(pg, w, h, current@.path.last()) == Some(cur_grid));
                            lemma_grid_move_inverse(pg, w, h, current@.path.last(), cur_grid);
                            assert(d == current@.path.last().opposite_spec());
                            assert(z == pg);
                        } else {
                            assert(neighbour_step(current@, d, true, None) == seq![
                                StateModel { grid: z, path: current@.path.push(d), ..current@ },
                            ]);
                            let j = choose|j: int| 0 <= j < order2@.len() && order2@[j] == d;
                            lemma_neighbours_cover(current@, order2@, true, None, j);
                            let i = choose|i: int|
                                0 <= i < neighbours_spec(current@, order2@, true, None).len()
                                    && neighbours_spec(current@, order2@, true, None)[i]
                                    == neighbour_step(current@, d, true, None)[0];
                            assert(neighbours@.map_values(|p: Puzzle| p@)[i] == neighbours@[i]@);
                            assert(neighbours@[i]@.grid == z);
                            assert(registry@.contains_key(z) && registry@[z].len()
                                <= current@.path.len() + 1);
                        }
                    }
                    assert(closure_at(registry@, w, h, cur_grid));
                }
                assert(registry_explored(registry@, queue@, w, h, is_dfs));
            }
        }
        let visited = registry.len();
        let elapsed = instant_elapsed(&start_time);
        proof {
            registry.lemma_tracks_upserts();
            assert forall|q: Seq<Direction>| (!is_dfs || q.len() <= MAX_DEPTH) implies replay(
                rootg,
                w,
                h,
                q,
            ) != Some(goal_grid(w, h)) by {
                if replay(rootg, w, h, q) == Some(goal_grid(w, h)) {
                    assert forall|y: Seq<u8>| #[trigger] registry@.contains_key(y) implies
                        closure_at(registry@, w, h, y) || (is_dfs && registry@[y].len()
                        >= MAX_DEPTH as nat) by {}
                    lemma_exhausted_covers(registry@, rootg, w, h, q, is_dfs);
                    assert(popped_set.contains(goal_grid(w, h)));
                    assert(false);
                }
            }
        }
        SolveResult {
            path: None,
            journal: Ghost(registry.upserts()),
            visited_states: visited,
            processed_states: processed,
            max_depth,
            time_spent: duration_as_nanos(&elapsed),
        }
    }

    /// A* search from this state: expands the frontier state of lowest
    /// rank (history length plus heuristic estimate) first, with no
    /// reverse-move exclusion.
    #[verifier::rlimit(100)]
    fn solve_priority(&self, metric: &Metric) -> (res: SolveResult)
        requires
            self@.wf(),
        ensures
            sound_result(self@, res),
            exhausted(res) ==> forall|q: Seq<Direction>|
                replay(self@.grid, self@.width, self@.height, q) != Some(
                    goal_grid(self@.width, self@.height),
                ),
            res.path matches Some(p) ==> forall|q: Seq<Direction>|
                q.len() < p@.len() ==> replay(self@.grid, self@.width, self@.height, q) != Some(
                    goal_grid(self@.width, self@.height),
                ),
            res.path matches Some(p) ==> res.max_depth == p@.len(),
    {
        let ghost rootg = self@.grid;
        let ghost w = self@.width;
        let ghost h = self@.height;
        let mut root = self.as_root();
        let est0: u32 = match metric {
            Metric::Hamming => root.hamming_metric(),
            Metric::Manhattan => root.manhattan_metric(),
        };
        root.set_rank(est0 as u64);
        let ghost rootv = root@;
        let mut frontier: Vec<Puzzle> = Vec::new();
        let mut registry = Registry::new();
        registry.upsert(&root);
        frontier.push(root);
        let ghost mut popped_set: Set<Seq<u8>> = Set::empty();
        proof {
            assert(registry@.dom() == Set::<Seq<u8>>::empty().insert(rootg));
            assert(frontier@[0]@.grid == rootg && frontier@[0]@.path.len() == 0);
            assert(registry@[rootg].len() == 0);
            assert(rootv.rank == clamp_u64(rootv.path.len() + estimate_of(rootg, w, *metric)));
            if registry@.contains_key(goal_grid(w, h)) {
                assert(registry@.dom().contains(goal_grid(w, h)));
                assert(goal_grid(w, h) == rootg);
                assert(frontier_backed(registry@, frontier@, rootg));
            }
        }
        let mut max_depth: usize = 0;
        let mut processed: usize = 0;
        let start_time = instant_now();
        let order: [Direction; 4] = [
            Direction::Left,
            Direction::Up,
            Direction::Right,
            Direction::Down,
        ];
        proof {
            assert(order@[0] == Direction::Left && order@[1] == Direction::Up && order@[2]
                == Direction::Right && order@[3] == Direction::Down);
            assert(full_order(order@));
            assert(depth_bounded(rootg, w, h, 0)) by {
                reveal(depth_bounded);
            }
        }
        while frontier.len() != 0
            invariant
                registry.inv(),
                registry@.contains_key(rootg),
                registry@[rootg].len() == 0,
                rootg == self@.grid,
                w == self@.width,
                h == self@.height,
                wf_grid(rootg, w, h),
                full_order(order@),
                rootv.grid == rootg,
                rootv.path.len() == 0,
                processed >= 1 || frontier@.len() >= 1,
                forall|i: int|
                    0 <= i < frontier@.len() ==> frontier_elem_ok(
                        registry@,
                        rootg,
                        w,
                        h,
                        (#[trigger] frontier@[i])@,
                    ),
                registry_explored(registry@, frontier@, w, h, false),
                grids_accounted(registry@, frontier@, popped_set),
                forall|y: Seq<u8>| #[trigger] popped_set.contains(y) ==> y != goal_grid(w, h),
                forall|i: int|
                    0 <= i < frontier@.len() ==> (#[trigger] frontier@[i])@.rank == clamp_u64(
                        frontier@[i]@.path.len() + estimate_of(frontier@[i]@.grid, w, *metric),
                    ),
                registry@.contains_key(goal_grid(w, h)) ==> frontier_backed(
                    registry@,
                    frontier@,
                    goal_grid(w, h),
                ),
                depth_bounded(rootg, w, h, max_depth as nat),
                rootg == goal_grid(w, h) ==> processed == 0 && max_depth == 0 && frontier@.len()
                    == 1 && frontier@[0]@ == rootv && registry@.dom() == Set::<
                    Seq<u8>,
                >::empty().insert(rootg),
            decreases usize::MAX - processed,
        {
            if processed == usize::MAX {
                let visited = registry.len();
                let elapsed = instant_elapsed(&start_time);
                proof {
                    registry.lemma_tracks_upserts();
                }
                return SolveResult {
                    path: None,
                    journal: Ghost(registry.upserts()),
                    visited_states: visited,
                    processed_states: processed,
                    max_depth,
                    time_spent: duration_as_nanos(&elapsed),
                };
            }
            let ghost pre_q = frontier@;
            let current = pop_min(&mut frontier);
            let ghost popped_at: int = choose|i: int|
                0 <= i < pre_q.len() && current == pre_q[i] && frontier@ == pre_q.remove(i);
            proof {
                assert(current == pre_q[popped_at]);
                assert(frontier_elem_ok(registry@, rootg, w, h, current@));
                assert(current@.rank == clamp_u64(
                    current@.path.len() + estimate_of(current@.grid, w, *metric),
                ));
                assert forall|i: int| 0 <= i < frontier@.len() implies frontier_elem_ok(
                    registry@,
                    rootg,
                    w,
                    h,
                    (#[trigger] frontier@[i])@,
                ) && frontier@[i]@.rank == clamp_u64(
                    frontier@[i]@.path.len() + estimate_of(frontier@[i]@.grid, w, *metric),
                ) by {
                    if i < popped_at {
                        assert(frontier@[i] == pre_q[i]);
                    } else {
                        assert(frontier@[i] == pre_q[i + 1]);
                    }
                }
            }
            processed = processed + 1;
            let depth = current.path_depth();
            proof {
                assert(current@.path.len() <= usize::MAX);
                assert(current@.rank >= current@.path.len());
                lemma_astar_pop_bound(registry@, pre_q, current@, rootg, w, h, *metric);
            }
            if depth > max_depth {
                max_depth = depth;
            }
            proof {
                assert(depth_bounded(rootg, w, h, max_depth as nat)) by {
                    reveal(depth_bounded);
                }
            }
            if current.is_solved() {
                let path = current.path_to_vec();
                let visited = registry.len();
                let elapsed = instant_elapsed(&start_time);
                proof {
                    registry.lemma_tracks_upserts();
                    lemma_goal_estimate_zero(w, h, *metric);
                    assert(replay(rootg, w, h, current@.path) == Some(goal_grid(w, h)));
                    assert(max_depth == current@.path.len()) by {
                        reveal(depth_bounded);
                    }
                    assert forall|q: Seq<Direction>| q.len() < current@.path.len() implies replay(
                        rootg,
                        w,
                        h,
                        q,
                    ) != Some(goal_grid(w, h)) by {
                        if replay(rootg, w, h, q) == Some(goal_grid(w, h)) {
                            assert(current@.path.len() <= q.len());
                        }
                    }
                }
                return SolveResult {
                    path: Some(path),
                    journal: Ghost(registry.upserts()),
                    visited_states: visited,
                    processed_states: processed,
                    max_depth,
                    time_spent: duration_as_nanos(&elapsed),
                };
            }
            let ghost cur_grid = current@.grid;
            proof {
                if rootg == goal_grid(w, h) {
                    assert(current@ == rootv);
                    assert(false);
                }
                assert(cur_grid != goal_grid(w, h));
                popped_set = popped_set.insert(cur_grid);
                assert forall|y: Seq<u8>| #[trigger] registry@.contains_key(y) implies (exists|
                    i: int,
                |
                    0 <= i < frontier@.len() && (#[trigger] frontier@[i])@.grid == y)
                    || popped_set.contains(y) by {
                    if !popped_set.contains(y) {
                        let i = choose|i: int|
                            0 <= i < pre_q.len() && (#[trigger] pre_q[i])@.grid == y;
                        assert(i != popped_at);
                        if i < popped_at {
                            assert(frontier@[i]@.grid == y);
                        } else {
                            assert(frontier@[i - 1]@.grid == y);
                        }
                    }
                }
                if registry@.contains_key(goal_grid(w, h)) {
                    assert(frontier_backed(registry@, pre_q, goal_grid(w, h)));
                    let gi = choose|i: int|
                        0 <= i < pre_q.len() && (#[trigger] pre_q[i])@.grid == goal_grid(w, h)
                            && pre_q[i]@.path.len() == registry@[goal_grid(w, h)].len();
                    assert(gi != popped_at);
                    if gi < popped_at {
                        assert(frontier@[gi]@.grid == goal_grid(w, h) && frontier@[gi]@.path.len()
                            == registry@[goal_grid(w, h)].len());
                    } else {
                        assert(frontier@[gi - 1]@.grid == goal_grid(w, h) && frontier@[gi
                            - 1]@.path.len() == registry@[goal_grid(w, h)].len());
                    }
                }
            }
            let ghost handled = frontier_backed(registry@, frontier@, cur_grid) || closure_at(
                registry@,
                w,
                h,
                cur_grid,
            );
            proof {
                assert forall|y: Seq<u8>|
                    registry@.contains_key(y) && y != cur_grid implies frontier_backed(
                    registry@,
                    frontier@,
                    y,
                ) || closure_at(registry@, w, h, y) by {
                    if frontier_backed(registry@, pre_q, y) {
                        let i = choose|i: int|
                            0 <= i < pre_q.len() && (#[trigger] pre_q[i])@.grid == y
                                && pre_q[i]@.path.len() == registry@[y].len();
                        assert(i != popped_at);
                        if i < popped_at {
                            assert(frontier@[i]@.grid == y && frontier@[i]@.path.len()
                                == registry@[y].len());
                        } else {
                            assert(frontier@[i - 1]@.grid == y && frontier@[i - 1]@.path.len()
                                == registry@[y].len());
                        }
                    }
                }
                if !handled {
                    assert(frontier_backed(registry@, pre_q, cur_grid));
                    let i = choose|i: int|
                        0 <= i < pre_q.len() && (#[trigger] pre_q[i])@.grid == cur_grid
                            && pre_q[i]@.path.len() == registry@[cur_grid].len();
                    if i != popped_at {
                        if i < popped_at {
                            assert(frontier@[i]@.grid == cur_grid && frontier@[i]@.path.len()
                                == registry@[cur_grid].len());
                        } else {
                            assert(frontier@[i - 1]@.grid == cur_grid && frontier@[i
                                - 1]@.path.len() == registry@[cur_grid].len());
                        }
                        assert(false);
                    }
                    assert(registry@[cur_grid].len() == current@.path.len());
                }
            }
            let neighbours = current.get_neighbour_states(&order, false, Some(*metric));
            proof {
                lemma_neighbours_ranked(current@, order@, false, *metric);
                assert forall|i: int| 0 <= i < neighbours@.len() implies (
                #[trigger] neighbours@[i])@.rank == clamp_u64(
                    neighbours@[i]@.path.len() + estimate_of(neighbours@[i]@.grid, w, *metric),
                ) by {
                    assert(neighbours@.map_values(|p: Puzzle| p@)[i] == neighbours@[i]@);
                }
            }
            let mut ni: usize = 0;
            while ni < neighbours.len()
                invariant
                    registry.inv(),
                    registry@.contains_key(rootg),
                    registry@[rootg].len() == 0,
                    wf_grid(rootg, w, h),
                    full_order(order@),
                    ni <= neighbours@.len(),
                    cur_grid == current@.grid,
                    cur_grid != goal_grid(w, h),
                    reachable_record(rootg, w, h, current@),
                    registry@.contains_key(cur_grid),
                    registry@[cur_grid].len() <= current@.path.len(),
                    neighbours@.map_values(|p: Puzzle| p@) == neighbours_spec(
                        current@,
                        order@,
                        false,
                        Some(*metric),
                    ),
                    forall|i: int|
                        0 <= i < neighbours@.len() ==> (#[trigger] neighbours@[i])@.wf()
                            && neighbours@[i]@.width == w && neighbours@[i]@.height == h
                            && neighbours@[i]@.path.len() == current@.path.len() + 1 && exists|
                            d: Direction,
                        |
                            neighbours@[i]@.path == current@.path.push(d) && grid_move(
                                cur_grid,
                                w,
                                h,
                                d,
                            ) == Some(neighbours@[i]@.grid),
                    forall|k: int|
                        0 <= k < ni ==> registry@.contains_key(
                            (#[trigger] neighbours@[k])@.grid,
                        ) && registry@[neighbours@[k]@.grid].len() <= current@.path.len() + 1,
                    forall|i: int|
                        0 <= i < frontier@.len() ==> frontier_elem_ok(
                            registry@,
                            rootg,
                            w,
                            h,
                            (#[trigger] frontier@[i])@,
                        ),
                    forall|y: Seq<u8>|
                        registry@.contains_key(y) && y != cur_grid ==> frontier_backed(
                            registry@,
                            frontier@,
                            y,
                        ) || closure_at(registry@, w, h, y),
                    handled ==> frontier_backed(registry@, frontier@, cur_grid) || closure_at(
                        registry@,
                        w,
                        h,
                        cur_grid,
                    ),
                    !handled ==> registry@[cur_grid].len() == current@.path.len(),
                    grids_accounted(registry@, frontier@, popped_set),
                    forall|y: Seq<u8>| #[trigger] popped_set.contains(y) ==> y != goal_grid(w, h),
                    popped_set.contains(cur_grid),
                    rootg != goal_grid(w, h),
                    forall|i: int|
                        0 <= i < neighbours@.len() ==> (#[trigger] neighbours@[i])@.rank
                            == clamp_u64(
                            neighbours@[i]@.path.len() + estimate_of(
                                neighbours@[i]@.grid,
                                w,
                                *metric,
                            ),
                        ),
                    forall|i: int|
                        0 <= i < frontier@.len() ==> (#[trigger] frontier@[i])@.rank == clamp_u64(
                            frontier@[i]@.path.len() + estimate_of(
                                frontier@[i]@.grid,
                                w,
                                *metric,
                            ),
                        ),
                    registry@.contains_key(goal_grid(w, h)) ==> frontier_backed(
                        registry@,
                        frontier@,
                        goal_grid(w, h),
                    ),
                decreases neighbours@.len() - ni,
            {
                let ghost pre_m = registry@;
                let ghost pre_q2 = frontier@;
                let ghost nbv = neighbours@[ni as int]@;
                proof {
                    let d = choose|d: Direction|
                        nbv.path == current@.path.push(d) && grid_move(cur_grid, w, h, d) == Some(
                            nbv.grid,
                        );
                    lemma_replay_push(rootg, w, h, current@.path, d, cur_grid, nbv.grid);
                    assert(reachable_record(rootg, w, h, nbv));
                    lemma_grid_move_changes(cur_grid, w, h, d, nbv.grid);
                    assert(nbv.grid != cur_grid);
                }
                let admitted = registry.upsert(&neighbours[ni]);
                if admitted {
                    frontier.push(neighbours[ni].duplicate());
                }
                proof {
                    let m1 = registry@;
                    assert(m1 == crate::registry::upsert_model(pre_m, nbv.grid, nbv.path));
                    assert(registry@[rootg].len() == 0);
                    assert forall|y: Seq<u8>| #[trigger] pre_m.contains_key(y) implies
                        m1.contains_key(y) && m1[y].len() <= pre_m[y].len() by {}
                    assert(m1.contains_key(nbv.grid) && m1[nbv.grid].len() <= nbv.path.len());
                    if admitted {
                        assert(frontier@[pre_q2.len() as int]@ == nbv);
                        assert(m1[nbv.grid] == nbv.path);
                        assert forall|i: int| 0 <= i < pre_q2.len() implies frontier@[i]
                            == pre_q2[i] by {}
                        assert(frontier_elem_ok(m1, rootg, w, h, nbv)) by {
                            assert(nbv.path.drop_last() =~= current@.path);
                        }
                    }
                    assert forall|i: int| 0 <= i < frontier@.len() implies frontier_elem_ok(
                        m1,
                        rootg,
                        w,
                        h,
                        (#[trigger] frontier@[i])@,
                    ) by {
                        if i < pre_q2.len() {
                            assert(frontier@[i] == pre_q2[i]);
                            assert(frontier_elem_ok(pre_m, rootg, w, h, frontier@[i]@));
                        }
                    }
                    assert forall|y: Seq<u8>|
                        m1.contains_key(y) && y != cur_grid implies frontier_backed(
                        m1,
                        frontier@,
                        y,
                    ) || closure_at(m1, w, h, y) by {
                        if y == nbv.grid && admitted {
                            assert(frontier@[pre_q2.len() as int]@.grid == y
                                && frontier@[pre_q2.len() as int]@.path.len() == m1[y].len());
                        } else {
                            assert(pre_m.contains_key(y) && m1[y] == pre_m[y]);
                            if frontier_backed(pre_m, pre_q2, y) {
                                let i = choose|i: int|
                                    0 <= i < pre_q2.len() && (#[trigger] pre_q2[i])@.grid == y
                                        && pre_q2[i]@.path.len() == pre_m[y].len();
                                assert(frontier@[i]@.grid == y && frontier@[i]@.path.len() == m1[
                                    y
                                ].len());
                            } else if closure_at(pre_m, w, h, y) {
                                assert forall|d: Direction|
                                    (#[trigger] grid_move(y, w, h, d)) is Some implies
                                    m1.contains_key(grid_move(y, w, h, d)->Some_0) && m1[grid_move(
                                    y,
                                    w,
                                    h,
                                    d,
                                )->Some_0].len() <= m1[y].len() + 1 by {
                                    let z = grid_move(y, w, h, d)->Some_0;
                                    assert(pre_m.contains_key(z) && pre_m[z].len() <= pre_m[
                                        y
                                    ].len() + 1);
                                }
                            }
                        }
                    }
                    if handled {
                        assert(m1[cur_grid] == pre_m[cur_grid]);
                        if frontier_backed(pre_m, pre_q2, cur_grid) {
                            let i = choose|i: int|
                                0 <= i < pre_q2.len() && (#[trigger] pre_q2[i])@.grid == cur_grid
                                    && pre_q2[i]@.path.len() == pre_m[cur_grid].len();
                            assert(frontier@[i]@.grid == cur_grid && frontier@[i]@.path.len()
                                == m1[cur_grid].len());
                        } else if closure_at(pre_m, w, h, cur_grid) {
                            assert forall|d: Direction|
                                (#[trigger] grid_move(cur_grid, w, h, d)) is Some implies
                                m1.contains_key(grid_move(cur_grid, w, h, d)->Some_0) && m1[
                                grid_move(cur_grid, w, h, d)->Some_0].len() <= m1[cur_grid].len()
                                + 1 by {
                                let z = grid_move(cur_grid, w, h, d)->Some_0;
                                assert(pre_m.contains_key(z) && pre_m[z].len() <= pre_m[
                                    cur_grid
                                ].len() + 1);
                            }
                        }
                    }
                    assert forall|y: Seq<u8>| #[trigger] m1.contains_key(y) implies (exists|
                        i: int,
                    |
                        0 <= i < frontier@.len() && (#[trigger] frontier@[i])@.grid == y)
                        || popped_set.contains(y) by {
                        if y == nbv.grid && admitted {
                            assert(frontier@[pre_q2.len() as int]@.grid == y);
                        } else {
                            assert(pre_m.contains_key(y));
                            if !popped_set.contains(y) {
                                let i = choose|i: int|
                                    0 <= i < pre_q2.len() && (#[trigger] pre_q2[i])@.grid == y;
                                assert(frontier@[i]@.grid == y);
                            }
                        }
                    }
                    // Ranks on the frontier and the goal's backing copy
                    // survive the push.
                    assert forall|i: int| 0 <= i < frontier@.len() implies (
                    #[trigger] frontier@[i])@.rank == clamp_u64(
                        frontier@[i]@.path.len() + estimate_of(frontier@[i]@.grid, w, *metric),
                    ) by {
                        if i < pre_q2.len() {
                            assert(frontier@[i] == pre_q2[i]);
                        } else {
                            assert(frontier@[i]@ == nbv);
                        }
                    }
                    if m1.contains_key(goal_grid(w, h)) {
                        if nbv.grid == goal_grid(w, h) && admitted {
                            assert(frontier@[pre_q2.len() as int]@.grid == goal_grid(w, h)
                                && frontier@[pre_q2.len() as int]@.path.len() == m1[goal_grid(
                                w,
                                h,
                            )].len());
                        } else {
                            assert(pre_m.contains_key(goal_grid(w, h)) && m1[goal_grid(w, h)]
                                == pre_m[goal_grid(w, h)]);
                            assert(frontier_backed(pre_m, pre_q2, goal_grid(w, h)));
                            let gi = choose|i: int|
                                0 <= i < pre_q2.len() && (#[trigger] pre_q2[i])@.grid
                                    == goal_grid(w, h) && pre_q2[i]@.path.len() == pre_m[
                                    goal_grid(w, h)
                                ].len();
                            assert(frontier@[gi]@.grid == goal_grid(w, h)
                                && frontier@[gi]@.path.len() == m1[goal_grid(w, h)].len());
                        }
                    }
                }
                ni = ni + 1;
            }
            proof {
                if !handled {
                    assert forall|d: Direction|
                        (#[trigger] grid_move(cur_grid, w, h, d)) is Some implies
                        registry@.contains_key(grid_move(cur_grid, w, h, d)->Some_0)
                        && registry@[grid_move(cur_grid, w, h, d)->Some_0].len() <= registry@[
                        cur_grid
                    ].len() + 1 by {
                        let z = grid_move(cur_grid, w, h, d)->Some_0;
                        let stepped = neighbour_step(current@, d, false, Some(*metric));
                        assert(stepped.len() == 1 && stepped[0].grid == z && stepped[0].path
                            == current@.path.push(d));
                        let j = choose|j: int| 0 <= j < order@.len() && order@[j] == d;
                        lemma_neighbours_cover(current@, order@, false, Some(*metric), j);
                        let i = choose|i: int|
                            0 <= i < neighbours_spec(current@, order@, false, Some(*metric)).len()
                                && neighbours_spec(current@, order@, false, Some(*metric))[i]
                                == neighbour_step(current@, d, false, Some(*metric))[0];
                        assert(neighbours@.map_values(|p: Puzzle| p@)[i] == neighbours@[i]@);
                        assert(neighbours@[i]@.grid == z);
                        assert(registry@.contains_key(z) && registry@[z].len()
                            <= current@.path.len() + 1);
                    }
                    assert(closure_at(registry@, w, h, cur_grid));
                }
                assert(registry_explored(registry@, frontier@, w, h, false));
            }
        }
        let visited = registry.len();
        let elapsed = instant_elapsed(&start_time);
        proof {
            registry.lemma_tracks_upserts();
            assert forall|q: Seq<Direction>| replay(rootg, w, h, q) != Some(
                goal_grid(w, h),
            ) by {
                if replay(rootg, w, h, q) == Some(goal_grid(w, h)) {
                    assert forall|y: Seq<u8>| #[trigger] registry@.contains_key(y) implies
                        closure_at(registry@, w, h, y) by {}
                    lemma_exhausted_covers(registry@, rootg, w, h, q, false);
                    assert(popped_set.contains(goal_grid(w, h)));
                    assert(false);
                }
            }
        }
        SolveResult {
            path: None,
            journal: Ghost(registry.upserts()),
            visited_states: visited,
            processed_states: processed,
            max_depth,
            time_spent: duration_as_nanos(&elapsed),
        }
    }
}

} // verus!
