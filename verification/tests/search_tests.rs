use expectimax2048::board::{Action, Board, PlayableBoard, RandableBoard};
use expectimax2048::search::{
    decision_value, expected_value, select_action, select_action_expectimax,
    select_action_greedily, select_action_randomly, SearchCache, Stats,
};

fn stuck_board() -> Board {
    Board {
        cells: [[1, 2, 1, 2], [2, 1, 2, 1], [1, 2, 1, 2], [2, 1, 2, 1]],
    }
}

fn two_ones_board() -> Board {
    Board {
        cells: [[1, 1, 0, 0], [0, 0, 0, 0], [0, 0, 0, 0], [0, 0, 0, 0]],
    }
}

#[test]
fn evaluate_rewards_open_space_and_large_tiles() {
    // 16 empty cells at 4096 each.
    let empty = RandableBoard::from_board(Board {
        cells: [[0, 0, 0, 0], [0, 0, 0, 0], [0, 0, 0, 0], [0, 0, 0, 0]],
    });
    assert_eq!(empty.evaluate(), 16 * 4096);
    // 15 empty cells plus one tile of exponent 3.
    let one_tile = RandableBoard::from_board(Board {
        cells: [[0, 0, 0, 0], [0, 3, 0, 0], [0, 0, 0, 0], [0, 0, 0, 0]],
    });
    assert_eq!(one_tile.evaluate(), 15 * 4096 + 9);
}

#[test]
fn expected_value_at_depth_zero_is_the_heuristic() {
    let rb = RandableBoard::from_board(Board {
        cells: [[1, 2, 1, 0], [4, 1, 0, 0], [3, 0, 0, 0], [0, 0, 0, 0]],
    });
    let mut stats = Stats::new();
    let mut cache = SearchCache::new();
    let v = expected_value(rb, 0, &mut stats, &mut cache);
    assert_eq!(v, rb.evaluate());
    assert_eq!(stats.num_evals, 1);
}

#[test]
fn memoization_is_transparent() {
    let rb = RandableBoard::from_board(two_ones_board());
    let mut stats = Stats::new();
    let mut cache = SearchCache::new();
    let first = expected_value(rb, 2, &mut stats, &mut cache);
    let evals_after_first = stats.num_evals;
    assert!(evals_after_first > 0);
    let second = expected_value(rb, 2, &mut stats, &mut cache);
    assert_eq!(second, first);
    // The second call is a cache hit: no further leaf evaluation ran.
    assert_eq!(stats.num_evals, evals_after_first);
}

#[test]
fn cache_entries_are_not_reused_across_depths() {
    let rb = RandableBoard::from_board(two_ones_board());
    let mut stats = Stats::new();
    let mut cache = SearchCache::new();
    let shallow = expected_value(rb, 1, &mut stats, &mut cache);
    let evals_after_shallow = stats.num_evals;
    // Same board, different remaining depth: the entry must not answer.
    let deep = expected_value(rb, 2, &mut stats, &mut cache);
    assert!(stats.num_evals > evals_after_shallow);
    // Both runs stay within the heuristic's range.
    assert!(shallow <= 1040400);
    assert!(deep <= 1040400);
}

#[test]
fn decision_value_takes_the_best_action() {
    let pb = PlayableBoard::from_board(two_ones_board());
    let mut stats = Stats::new();
    let mut cache = SearchCache::new();
    // One ply: Up moves nothing (0), Down slides both tiles (57346),
    // Left and Right merge them into one (61444); the maximum wins.
    let v = decision_value(pb, 1, &mut stats, &mut cache);
    assert_eq!(v, 15 * 4096 + 4);
}

#[test]
fn greedy_picks_the_first_strictly_best_action() {
    let pb = PlayableBoard::from_board(two_ones_board());
    // Left and Right tie; Left comes first in canonical order and Right
    // does not strictly beat it.
    assert_eq!(select_action_greedily(pb), Some(Action::Left));
}

#[test]
fn stuck_board_selects_no_action() {
    let pb = PlayableBoard::from_board(stuck_board());
    assert!(pb.is_terminal());
    assert_eq!(select_action(pb), None);
    assert_eq!(select_action_expectimax(pb, 2), None);
    assert_eq!(select_action_greedily(pb), None);
    assert_eq!(select_action_randomly(pb), None);
}

#[test]
fn selected_actions_are_always_legal() {
    let pb = PlayableBoard::init();
    assert!(!pb.is_terminal());
    let chosen = select_action(pb).expect("a fresh board always has a move");
    assert!(pb.apply(chosen).is_some());
    let random = select_action_randomly(pb).expect("a fresh board always has a move");
    assert!(pb.apply(random).is_some());
}

#[test]
fn play_follows_the_phase_cycle() {
    let mut cur = PlayableBoard::init();
    for _ in 0..20 {
        match select_action(cur) {
            Some(action) => {
                let chance = cur.apply(action).expect("selected action must be legal");
                cur = chance.with_random_tile();
            },
            None => break,
        }
    }
    assert!(cur.has_at_least_tile(1));
}
