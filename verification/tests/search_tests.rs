use npuzzle::Direction;
use npuzzle::Metric;
use npuzzle::Puzzle;
use npuzzle::Registry;
use npuzzle::SolveResult;
use npuzzle::Strategy;
use npuzzle::MAX_DEPTH;

fn load(text: &str) -> Puzzle {
    Puzzle::from_text(&text.as_bytes().to_vec()).unwrap()
}

fn udlr() -> [Direction; 4] {
    [
        Direction::Up,
        Direction::Down,
        Direction::Left,
        Direction::Right,
    ]
}

/// Replays a reported path from a start state and checks it solves it.
fn check_solution(start: &Puzzle, res: &SolveResult) {
    let path = res.path.as_ref().expect("a path was expected");
    let mut state = start.duplicate();
    for d in path {
        state = state.move_empty(d).expect("illegal move in path");
    }
    assert!(state.is_solved());
}

#[test]
fn registry_keeps_the_shortest_history() {
    // Reach the solved grid twice: directly (0 moves) and via a detour
    // (2 moves).
    let root = Puzzle::_new(3, 3);
    let detour = root
        .move_empty(&Direction::Up)
        .unwrap()
        .move_empty(&Direction::Down)
        .unwrap();
    assert_eq!(detour.grid_ref(), root.grid_ref());

    let mut reg = Registry::new();
    assert_eq!(reg.len(), 0);
    // New grid: admitted.
    assert!(reg.upsert(&detour));
    assert_eq!(reg.len(), 1);
    // Same grid, equal history: discarded.
    assert!(!reg.upsert(&detour));
    assert_eq!(reg.len(), 1);
    // Same grid, strictly shorter history: replaces the entry.
    assert!(reg.upsert(&root));
    assert_eq!(reg.len(), 1);
    // The stored history is now the shortest seen; the longer one loses.
    assert!(!reg.upsert(&detour));
    // A different grid counts separately.
    let other = root.move_empty(&Direction::Up).unwrap();
    assert!(reg.upsert(&other));
    assert_eq!(reg.len(), 2);
}

#[test]
fn registry_count_never_decreases() {
    let root = Puzzle::_new(2, 2);
    let mut reg = Registry::new();
    let mut last = 0;
    let a = root.move_empty(&Direction::Up).unwrap();
    let b = root.move_empty(&Direction::Left).unwrap();
    for cand in [&root, &a, &b, &root, &a, &b] {
        reg.upsert(cand);
        assert!(reg.len() >= last);
        last = reg.len();
    }
    assert_eq!(reg.len(), 3);
}

#[test]
fn solved_start_under_any_strategy() {
    for text in ["3 3\n1 2 3\n4 5 6\n7 8 0", "2 2\n1 2\n3 0"] {
        let p = load(text);
        for strategy in [
            Strategy::Bfs(udlr()),
            Strategy::Dfs(udlr()),
            Strategy::AStar(Metric::Hamming),
            Strategy::AStar(Metric::Manhattan),
        ] {
            let res = p.solve(&strategy);
            assert_eq!(res.path, Some(Vec::new()));
            assert_eq!(res.visited_states, 1);
            assert_eq!(res.processed_states, 1);
            assert_eq!(res.max_depth, 0);
        }
    }
}

#[test]
fn bfs_solves_a_one_move_puzzle() {
    let p = load("3 3\n1 2 3\n4 5 0\n7 8 6");
    let res = p.solve(&Strategy::Bfs(udlr()));
    let path = res.path.expect("a path was expected");
    assert_eq!(path.len(), 1);
    assert_eq!(path, vec![Direction::Down]);
}

#[test]
fn bfs_exhausts_an_unsolvable_puzzle() {
    // Two adjacent non-blank tiles swapped from solved: unsolvable.
    let p = load("3 3\n2 1 3\n4 5 6\n7 8 0");
    let res = p.solve(&Strategy::Bfs(udlr()));
    assert!(res.path.is_none());
    // The search visits exactly one parity class of the 3x3 state space.
    assert_eq!(res.visited_states, 181440);
}

#[test]
fn searches_agree_on_a_three_move_puzzle() {
    // Solved 3x3 scrambled by three blank moves (optimum is 3: the
    // Manhattan metric of the grid is 3).
    let p = load("3 3\n1 0 3\n4 2 5\n7 8 6");
    let bfs = p.solve(&Strategy::Bfs(udlr()));
    check_solution(&p, &bfs);
    assert_eq!(bfs.path.as_ref().unwrap().len(), 3);

    let hamm = p.solve(&Strategy::AStar(Metric::Hamming));
    check_solution(&p, &hamm);
    assert_eq!(hamm.path.as_ref().unwrap().len(), 3);

    let manh = p.solve(&Strategy::AStar(Metric::Manhattan));
    check_solution(&p, &manh);
    assert_eq!(manh.path.as_ref().unwrap().len(), 3);
}

#[test]
fn dfs_finds_a_bounded_valid_path() {
    let p = load("3 3\n1 0 3\n4 2 5\n7 8 6");
    let res = p.solve(&Strategy::Dfs(udlr()));
    check_solution(&p, &res);
    assert!(res.path.as_ref().unwrap().len() <= MAX_DEPTH);
}

#[test]
fn dfs_order_controls_descent() {
    // From the one-move grid, a depth-first search still solves it.
    let p = load("3 3\n1 2 3\n4 5 0\n7 8 6");
    let res = p.solve(&Strategy::Dfs([
        Direction::Down,
        Direction::Up,
        Direction::Left,
        Direction::Right,
    ]));
    check_solution(&p, &res);
}

#[test]
fn counters_grow_with_the_search() {
    let p = load("3 3\n1 0 3\n4 2 5\n7 8 6");
    let res = p.solve(&Strategy::Bfs(udlr()));
    assert!(res.visited_states >= res.processed_states);
    assert!(res.processed_states >= 1);
    assert!(res.max_depth >= 3);
}

#[test]
fn solve_on_a_two_by_two_exhausts_its_class() {
    // 2x2 unsolvable arrangement: the reachable class has 12 states.
    let p = load("2 2\n2 1\n3 0");
    let res = p.solve(&Strategy::Bfs(udlr()));
    assert!(res.path.is_none());
    assert_eq!(res.visited_states, 12);
}
