use npuzzle::Direction;
use npuzzle::FileReadError;
use npuzzle::Metric;
use npuzzle::Puzzle;

fn load(text: &str) -> Puzzle {
    Puzzle::from_text(&text.as_bytes().to_vec()).unwrap()
}

#[test]
fn opposite_pairs() {
    assert_eq!(Direction::Up.opposite(), Direction::Down);
    assert_eq!(Direction::Down.opposite(), Direction::Up);
    assert_eq!(Direction::Left.opposite(), Direction::Right);
    assert_eq!(Direction::Right.opposite(), Direction::Left);
    for d in [Direction::Up, Direction::Down, Direction::Left, Direction::Right] {
        assert_eq!(d.opposite().opposite(), d);
    }
}

#[test]
fn new_puzzle_is_solved_for_many_dimensions() {
    for (w, h) in [(1, 1), (2, 2), (3, 3), (4, 4), (2, 5), (8, 2), (16, 16)] {
        let p = Puzzle::_new(w, h);
        assert!(p.is_well_formed());
        assert!(p.is_solved());
    }
}

#[test]
fn misplaced_tile_is_not_solved() {
    let p = load("3 3\n1 2 3\n4 5 0\n7 8 6");
    assert!(!p.is_solved());
    let q = load("2 2\n2 1\n3 0");
    assert!(!q.is_solved());
}

#[test]
fn from_text_reads_dimensions_and_cells() {
    let p = load("2 3\n1 2 0\n3 4 5");
    assert_eq!(p.width(), 3);
    assert_eq!(p.height(), 2);
    assert_eq!(p.grid_ref(), &vec![1u8, 2, 0, 3, 4, 5]);
    assert_eq!(p.path_depth(), 0);
    assert!(p.is_well_formed());
}

#[test]
fn from_text_empty_is_distinct_from_corrupt() {
    assert!(matches!(
        Puzzle::from_text(&Vec::new()),
        Err(FileReadError::IsEmpty)
    ));
    let r = Puzzle::from_text(&b"3 3\n1 2 x\n4 5 6\n7 8 0".to_vec());
    assert!(matches!(r, Err(FileReadError::IsCorrupt)));
}

#[test]
fn from_text_rejects_malformed_descriptions() {
    // Missing a cell in a row.
    assert!(matches!(
        Puzzle::from_text(&b"2 2\n1 2\n3".to_vec()),
        Err(FileReadError::IsCorrupt)
    ));
    // Missing a whole row.
    assert!(matches!(
        Puzzle::from_text(&b"2 2\n1 2\n".to_vec()),
        Err(FileReadError::IsCorrupt)
    ));
    // An extra cell in a row.
    assert!(matches!(
        Puzzle::from_text(&b"2 2\n1 2 3\n3 0".to_vec()),
        Err(FileReadError::IsCorrupt)
    ));
    // A duplicate label.
    assert!(matches!(
        Puzzle::from_text(&b"2 2\n1 1\n3 0".to_vec()),
        Err(FileReadError::IsCorrupt)
    ));
    // No blank cell.
    assert!(matches!(
        Puzzle::from_text(&b"2 2\n1 2\n3 4".to_vec()),
        Err(FileReadError::IsCorrupt)
    ));
    // A label out of range.
    assert!(matches!(
        Puzzle::from_text(&b"2 2\n1 2\n9 0".to_vec()),
        Err(FileReadError::IsCorrupt)
    ));
    // Zero dimensions.
    assert!(matches!(
        Puzzle::from_text(&b"0 0\n".to_vec()),
        Err(FileReadError::IsCorrupt)
    ));
    // Only one dimension given.
    assert!(matches!(
        Puzzle::from_text(&b"3\n1 2 0".to_vec()),
        Err(FileReadError::IsCorrupt)
    ));
    // Trailing line with stray tokens.
    assert!(matches!(
        Puzzle::from_text(&b"2 2\n1 2\n3 0\n7".to_vec()),
        Err(FileReadError::IsCorrupt)
    ));
}

#[test]
fn from_text_accepts_trailing_blank_lines() {
    let p = Puzzle::from_text(&b"2 2\n1 2\n3 0\n\n  \n".to_vec()).unwrap();
    assert!(p.is_solved());
}

#[test]
fn move_then_inverse_restores_grid() {
    let p = load("3 3\n1 2 3\n4 0 5\n6 7 8");
    for d in [Direction::Up, Direction::Down, Direction::Left, Direction::Right] {
        let q = p.move_empty(&d).unwrap();
        let back = q.move_empty(&d.opposite()).unwrap();
        assert_eq!(back.grid_ref(), p.grid_ref());
        assert_eq!(q.path_depth(), 1);
        assert_eq!(back.path_depth(), 2);
    }
}

#[test]
fn moves_off_the_grid_yield_nothing() {
    // Solved 3x3: blank in the bottom-right corner.
    let p = Puzzle::_new(3, 3);
    assert!(p.move_empty(&Direction::Down).is_none());
    assert!(p.move_empty(&Direction::Right).is_none());
    assert!(p.move_empty(&Direction::Up).is_some());
    assert!(p.move_empty(&Direction::Left).is_some());
}

#[test]
fn move_swaps_blank_with_neighbour() {
    let p = load("3 3\n1 2 3\n4 5 0\n7 8 6");
    // The tile below the blank slides up into it.
    let q = p.move_empty(&Direction::Down).unwrap();
    assert_eq!(q.grid_ref(), &vec![1u8, 2, 3, 4, 5, 6, 7, 8, 0]);
    assert!(q.is_solved());
    assert_eq!(q.path_to_vec(), vec![Direction::Down]);
    // The original state is unchanged.
    assert_eq!(p.grid_ref(), &vec![1u8, 2, 3, 4, 5, 0, 7, 8, 6]);
}

#[test]
fn correct_place_maps_labels_to_goal_cells() {
    let p = Puzzle::_new(3, 3);
    assert_eq!(p.correct_place(0), (2, 2));
    assert_eq!(p.correct_place(1), (0, 0));
    assert_eq!(p.correct_place(3), (2, 0));
    assert_eq!(p.correct_place(5), (1, 1));
    assert_eq!(p.correct_place(8), (1, 2));
}

#[test]
fn metrics_have_exact_values() {
    let solved = Puzzle::_new(3, 3);
    assert_eq!(solved.hamming_metric(), 0);
    assert_eq!(solved.manhattan_metric(), 0);

    let p = load("3 3\n1 2 3\n4 5 0\n7 8 6");
    assert_eq!(p.hamming_metric(), 1);
    assert_eq!(p.manhattan_metric(), 1);

    let q = load("2 2\n0 1\n3 2");
    assert_eq!(q.hamming_metric(), 2);
    assert_eq!(q.manhattan_metric(), 2);
}

#[test]
fn metrics_depend_on_grid_alone() {
    // Reach the same grid along two different histories.
    let p = Puzzle::_new(3, 3);
    let a = p.move_empty(&Direction::Up).unwrap();
    let b = p
        .move_empty(&Direction::Left)
        .unwrap()
        .move_empty(&Direction::Right)
        .unwrap()
        .move_empty(&Direction::Up)
        .unwrap();
    assert_eq!(a.grid_ref(), b.grid_ref());
    assert_ne!(a.path_depth(), b.path_depth());
    assert_eq!(a.hamming_metric(), b.hamming_metric());
    assert_eq!(a.manhattan_metric(), b.manhattan_metric());
}

#[test]
fn neighbours_follow_the_given_order() {
    let p = load("3 3\n1 2 3\n4 0 5\n6 7 8");
    let order = [
        Direction::Up,
        Direction::Down,
        Direction::Left,
        Direction::Right,
    ];
    let ns = p.get_neighbour_states(&order, true, None);
    assert_eq!(ns.len(), 4);
    for (i, d) in order.iter().enumerate() {
        assert_eq!(ns[i].path_to_vec(), vec![*d]);
    }
}

#[test]
fn neighbours_skip_the_reverse_of_the_last_move() {
    let p = load("3 3\n1 2 3\n4 0 5\n6 7 8");
    let up = p.move_empty(&Direction::Up).unwrap();
    let order = [
        Direction::Up,
        Direction::Down,
        Direction::Left,
        Direction::Right,
    ];
    let with_skip = up.get_neighbour_states(&order, true, None);
    for n in &with_skip {
        assert_ne!(n.path_to_vec().last(), Some(&Direction::Down));
    }
    let without_skip = up.get_neighbour_states(&order, false, None);
    assert_eq!(without_skip.len(), with_skip.len() + 1);
}

#[test]
fn neighbours_carry_g_plus_h_ranks() {
    // One move from solved: each successor has depth 1 plus its estimate.
    let p = load("3 3\n1 2 3\n4 5 0\n7 8 6");
    let order = [
        Direction::Up,
        Direction::Down,
        Direction::Left,
        Direction::Right,
    ];
    let ns = p.get_neighbour_states(&order, false, Some(Metric::Manhattan));
    for n in &ns {
        assert_eq!(n.rank(), 1 + n.manhattan_metric() as u64);
    }
    let ns = p.get_neighbour_states(&order, false, Some(Metric::Hamming));
    for n in &ns {
        assert_eq!(n.rank(), 1 + n.hamming_metric() as u64);
    }
}
