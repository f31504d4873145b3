use npuzzle::ArgsError;
use npuzzle::Config;
use npuzzle::Direction;
use npuzzle::Metric;
use npuzzle::Strategy;

fn args(strategy: &str, order: &str) -> Vec<String> {
    vec![
        "solver".to_string(),
        strategy.to_string(),
        order.to_string(),
        "puzzle.txt".to_string(),
        "solution.txt".to_string(),
        "stats.txt".to_string(),
    ]
}

#[test]
fn config_parses_bfs_with_lower_case_order() {
    let c = Config::new(&args("bfs", "udlr")).unwrap();
    match c.strategy {
        Strategy::Bfs(dirs) => assert_eq!(
            dirs,
            [
                Direction::Up,
                Direction::Down,
                Direction::Left,
                Direction::Right
            ]
        ),
        _ => panic!("expected a breadth-first strategy"),
    }
    assert_eq!(c.input_file, "puzzle.txt");
    assert_eq!(c.solution_file, "solution.txt");
    assert_eq!(c.stats_file, "stats.txt");
}

#[test]
fn config_parses_dfs_with_upper_case_order() {
    let c = Config::new(&args("dfs", "RLDU")).unwrap();
    match c.strategy {
        Strategy::Dfs(dirs) => assert_eq!(
            dirs,
            [
                Direction::Right,
                Direction::Left,
                Direction::Down,
                Direction::Up
            ]
        ),
        _ => panic!("expected a depth-first strategy"),
    }
}

#[test]
fn config_parses_informed_search_metrics() {
    let c = Config::new(&args("astr", "manh")).unwrap();
    assert!(matches!(c.strategy, Strategy::AStar(Metric::Manhattan)));
    let c = Config::new(&args("astr", "hamm")).unwrap();
    assert!(matches!(c.strategy, Strategy::AStar(Metric::Hamming)));
}

#[test]
fn config_rejects_short_argument_lists() {
    let mut a = args("bfs", "udlr");
    a.pop();
    assert!(matches!(
        Config::new(&a),
        Err(ArgsError::NotEnoughArguments)
    ));
    assert!(matches!(
        Config::new(&Vec::new()),
        Err(ArgsError::NotEnoughArguments)
    ));
}

#[test]
fn config_rejects_unknown_strategies() {
    assert!(matches!(
        Config::new(&args("ids", "udlr")),
        Err(ArgsError::InvalidStrategy)
    ));
}

#[test]
fn config_rejects_bad_orders_and_metrics() {
    assert!(matches!(
        Config::new(&args("bfs", "udxr")),
        Err(ArgsError::InvalidOrder)
    ));
    assert!(matches!(
        Config::new(&args("bfs", "udl")),
        Err(ArgsError::InvalidOrder)
    ));
    assert!(matches!(
        Config::new(&args("dfs", "udlrr")),
        Err(ArgsError::InvalidOrder)
    ));
    assert!(matches!(
        Config::new(&args("astr", "eucl")),
        Err(ArgsError::InvalidOrder)
    ));
    // Repeated letters are not a permutation of the four moves.
    assert!(matches!(
        Config::new(&args("bfs", "uudd")),
        Err(ArgsError::InvalidOrder)
    ));
    assert!(matches!(
        Config::new(&args("dfs", "UULR")),
        Err(ArgsError::InvalidOrder)
    ));
}
