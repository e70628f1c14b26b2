use expectimax2048::board::{push_left, tile_value, Action, Board, PlayableBoard};

fn check(row: [u8; 4], expected: [u8; 4]) {
    let mut pushed = row;
    push_left(&mut pushed);
    assert_eq!(pushed, expected);
}

#[test]
fn test_push_left() {
    check([0, 0, 0, 0], [0, 0, 0, 0]);
    check([0, 1, 0, 0], [1, 0, 0, 0]);
    check([0, 0, 1, 0], [1, 0, 0, 0]);
    check([0, 0, 0, 1], [1, 0, 0, 0]);
    check([0, 0, 0, 0], [0, 0, 0, 0]);
    check([1, 1, 0, 1], [2, 1, 0, 0]);
    check([0, 0, 1, 1], [2, 0, 0, 0]);
    check([0, 1, 0, 1], [2, 0, 0, 0]);
    check([1, 2, 0, 1], [1, 2, 1, 0]);
}

#[test]
fn test_actions() {
    let board = Board {
        cells: [[1, 2, 1, 0], [4, 1, 0, 0], [3, 0, 0, 0], [0, 0, 0, 0]],
    };
    let target = Board {
        cells: [[0, 0, 0, 0], [1, 0, 0, 0], [4, 2, 0, 0], [3, 1, 1, 0]],
    };
    assert_eq!(board.apply(Action::Down), Some(target));
}

#[test]
fn merge_first_pair_without_cascading() {
    check([1, 1, 1, 0], [2, 1, 0, 0]);
}

#[test]
fn merge_trailing_pair_first_match_wins() {
    check([0, 2, 2, 2], [3, 2, 0, 0]);
}

#[test]
fn merge_left_is_idempotent_on_settled_rows() {
    let rows: [[u8; 4]; 6] = [
        [0, 0, 0, 0],
        [1, 0, 0, 0],
        [1, 2, 1, 0],
        [2, 1, 0, 0],
        [3, 2, 0, 0],
        [5, 4, 3, 2],
    ];
    for row in rows {
        let mut once = row;
        push_left(&mut once);
        let mut twice = once;
        push_left(&mut twice);
        assert_eq!(twice, once);
    }
}

#[test]
fn apply_changes_the_board_or_returns_nothing() {
    let board = Board {
        cells: [[1, 2, 1, 0], [4, 1, 0, 0], [3, 0, 0, 0], [0, 0, 0, 0]],
    };
    for action in [Action::Up, Action::Down, Action::Left, Action::Right] {
        if let Some(next) = board.apply(action) {
            assert_ne!(next, board);
        }
    }
    // Tiles already sit at the top-left; pushing them up moves nothing.
    let settled = Board {
        cells: [[1, 2, 3, 4], [0, 0, 0, 0], [0, 0, 0, 0], [0, 0, 0, 0]],
    };
    assert_eq!(settled.apply(Action::Up), None);
}

#[test]
fn transpose_is_involutive() {
    let board = Board {
        cells: [[1, 2, 3, 4], [5, 6, 7, 8], [9, 10, 11, 12], [13, 14, 15, 16]],
    };
    assert_eq!(board.transposed().transposed(), board);
    assert_eq!(
        board.transposed(),
        Board { cells: [[1, 5, 9, 13], [2, 6, 10, 14], [3, 7, 11, 15], [4, 8, 12, 16]] }
    );
}

#[test]
fn spawn_enumeration_covers_the_whole_distribution() {
    let board = Board {
        cells: [[1, 2, 1, 0], [4, 1, 0, 0], [3, 0, 0, 0], [0, 0, 0, 0]],
    };
    let e = board.num_empty();
    assert_eq!(e, 10);
    let succs = board.random_successors();
    assert_eq!(succs.len(), 2 * e);
    let total: u64 = succs.iter().map(|p| p.0).sum();
    assert_eq!(total, 10 * e as u64);
    let mass: f32 = succs
        .iter()
        .map(|p| p.0 as f32 / (10.0 * e as f32))
        .sum();
    assert!((mass - 1.0).abs() < 1e-5);
    for (w, next) in &succs {
        assert!(*w == 9 || *w == 1);
        assert_eq!(next.num_empty(), e - 1);
    }
}

#[test]
fn add_random_fills_exactly_one_empty_cell() {
    let mut board = Board {
        cells: [[1, 2, 1, 0], [4, 1, 0, 0], [3, 0, 0, 0], [0, 0, 0, 0]],
    };
    let before = board.num_empty();
    board.add_random();
    assert_eq!(board.num_empty(), before - 1);
    assert_eq!(board.cells[0][0], 1);
    assert_eq!(board.cells[1][0], 4);
}

#[test]
fn init_spawns_one_small_tile_on_the_empty_grid() {
    let board = PlayableBoard::init();
    let mut tiles = 0;
    for r in 0..4 {
        for c in 0..4 {
            let v = board.get(r, c);
            if v != 0 {
                tiles += 1;
                assert!(v == 1 || v == 2);
            }
        }
    }
    assert_eq!(tiles, 1);
}

#[test]
fn has_at_least_tile_scans_every_cell() {
    let board = PlayableBoard::init();
    assert!(board.has_at_least_tile(1));
    assert!(!board.has_at_least_tile(3));
}

#[test]
fn stuck_board_has_no_legal_action() {
    let board = Board {
        cells: [[1, 2, 1, 2], [2, 1, 2, 1], [1, 2, 1, 2], [2, 1, 2, 1]],
    };
    assert_eq!(board.apply(Action::Up), None);
    assert_eq!(board.apply(Action::Down), None);
    assert_eq!(board.apply(Action::Left), None);
    assert_eq!(board.apply(Action::Right), None);
}

#[test]
fn tile_codes_display_as_powers_of_two() {
    assert_eq!(tile_value(1), 2);
    assert_eq!(tile_value(2), 4);
    assert_eq!(tile_value(11), 2048);
    assert_eq!(tile_value(17), 131072);
}
