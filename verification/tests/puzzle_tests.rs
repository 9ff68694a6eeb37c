//! Behavioural tests of the puzzle library: the direction codes, state
//! construction, move application, the heuristic, the validator, the
//! search engine and the instance generator.

use puzzle::search::SeenSet;
use puzzle::Direction;
use puzzle::State;

fn tokens(words: &[&str]) -> Vec<String> {
    words.iter().map(|w| w.to_string()).collect()
}

#[test]
fn direction_codes_parse_back() {
    let dirs = [
        Direction::Up,
        Direction::Down,
        Direction::Left,
        Direction::Right,
    ];
    for d in dirs {
        assert_eq!(Direction::parse(d.code()), Some(d));
    }
    assert_eq!(Direction::Up.code(), "c");
    assert_eq!(Direction::Down.code(), "b");
    assert_eq!(Direction::Left.code(), "e");
    assert_eq!(Direction::Right.code(), "d");
}

#[test]
fn unknown_tokens_do_not_parse() {
    assert_eq!(Direction::parse("x"), None);
    assert_eq!(Direction::parse(""), None);
    assert_eq!(Direction::parse("cc"), None);
}

#[test]
fn opposite_is_an_involution() {
    let dirs = [
        Direction::Up,
        Direction::Down,
        Direction::Left,
        Direction::Right,
    ];
    for d in dirs {
        assert_eq!(d.opposite().opposite(), d);
    }
    assert_eq!(Direction::Up.opposite(), Direction::Down);
    assert_eq!(Direction::Left.opposite(), Direction::Right);
}

#[test]
fn position_tuples_are_unit_offsets() {
    assert_eq!(Direction::Up.position_tuple(), (-1, 0));
    assert_eq!(Direction::Down.position_tuple(), (1, 0));
    assert_eq!(Direction::Left.position_tuple(), (0, -1));
    assert_eq!(Direction::Right.position_tuple(), (0, 1));
}

#[test]
fn probe_order_is_fixed() {
    let order = Direction::iter();
    assert_eq!(
        order,
        vec![
            Direction::Up,
            Direction::Down,
            Direction::Left,
            Direction::Right
        ]
    );
}

#[test]
fn new_locates_slot_and_costs_the_board() {
    let s = State::new(vec![1, 0, 2, 3, 4, 5], 2, 3);
    assert_eq!(s.slot, 1);
    assert_eq!(s.cost, 1);
    assert!(s.moves.is_empty());

    let goal = State::new(vec![0, 1, 2, 3, 4, 5], 2, 3);
    assert_eq!(goal.slot, 0);
    assert_eq!(goal.cost, 0);
}

#[test]
fn manhattan_distance_sums_tile_offsets() {
    // 3 sits a full row from home; 0 contributes nothing.
    let s = State::new(vec![3, 1, 2, 0, 4, 5], 2, 3);
    assert_eq!(s.cost, 1);
    // 2x2 rotation: 1, 2 and 3 are each one slide from home.
    let r = State::new(vec![0, 2, 3, 1], 2, 2);
    assert_eq!(r.manhattan_distance(), 4);
}

#[test]
fn final_state_has_zero_cost_and_conversely() {
    let goal = State::new(vec![0, 1, 2, 3, 4, 5], 2, 3);
    assert!(goal.is_final());
    assert_eq!(goal.cost, 0);

    let off = State::new(vec![1, 0, 2, 3, 4, 5], 2, 3);
    assert!(!off.is_final());
    assert!(off.cost > 0);
}

#[test]
fn can_move_respects_the_borders() {
    let corner = State::new(vec![0, 1, 2, 3, 4, 5], 2, 3);
    assert!(!corner.can_move(Direction::Up));
    assert!(!corner.can_move(Direction::Left));
    assert!(corner.can_move(Direction::Down));
    assert!(corner.can_move(Direction::Right));

    let center = State::new(vec![1, 2, 3, 4, 0, 5, 6, 7, 8], 3, 3);
    assert!(center.can_move(Direction::Up));
    assert!(center.can_move(Direction::Down));
    assert!(center.can_move(Direction::Left));
    assert!(center.can_move(Direction::Right));
}

#[test]
fn make_move_swaps_slot_and_tile() {
    let goal = State::new(vec![0, 1, 2, 3, 4, 5], 2, 3);
    let right = goal.make_move(Direction::Right).unwrap();
    assert_eq!(right.board, vec![1, 0, 2, 3, 4, 5]);
    assert_eq!(right.slot, 1);
    assert_eq!(right.moves, vec![Direction::Right]);
    assert_eq!(right.cost, 1);

    assert!(goal.make_move(Direction::Up).is_none());
}

#[test]
fn move_then_opposite_restores_the_board() {
    let s = State::new(vec![1, 2, 3, 4, 0, 5, 6, 7, 8], 3, 3);
    for d in Direction::iter() {
        let there = s.make_move(d).unwrap();
        let back = there.make_move(d.opposite()).unwrap();
        assert_eq!(back.board, s.board);
    }
}

#[test]
fn possible_moves_lists_each_legal_slide_once() {
    let corner = State::new(vec![0, 1, 2, 3, 4, 5], 2, 3);
    let succs = corner.possible_moves();
    assert_eq!(succs.len(), 2);
    assert_eq!(succs[0].board, vec![3, 1, 2, 0, 4, 5]); // Down first
    assert_eq!(succs[1].board, vec![1, 0, 2, 3, 4, 5]); // then Right

    let center = State::new(vec![1, 2, 3, 4, 0, 5, 6, 7, 8], 3, 3);
    assert_eq!(center.possible_moves().len(), 4);
}

#[test]
fn validator_accepts_goal_with_empty_sequence() {
    let goal = State::new(vec![0, 1, 2, 3, 4, 5], 2, 3);
    assert_eq!(goal.check_solution(&tokens(&[])), Some(true));
}

#[test]
fn validator_rejects_unknown_token() {
    let goal = State::new(vec![0, 1, 2, 3, 4, 5], 2, 3);
    assert_eq!(goal.check_solution(&tokens(&["z"])), None);
}

#[test]
fn validator_rejects_illegal_move() {
    // From the top-left corner the slot cannot slide up.
    let goal = State::new(vec![0, 1, 2, 3, 4, 5], 2, 3);
    assert_eq!(goal.check_solution(&tokens(&["c"])), None);
}

#[test]
fn validator_reports_wrong_final_board() {
    // A legal move that leaves the goal arrangement.
    let goal = State::new(vec![0, 1, 2, 3, 4, 5], 2, 3);
    assert_eq!(goal.check_solution(&tokens(&["d"])), Some(false));
}

#[test]
fn validator_replays_a_full_solution() {
    let start = State::new(vec![1, 0, 2, 3, 4, 5], 2, 3);
    assert_eq!(start.check_solution(&tokens(&["e"])), Some(true));
}

#[test]
fn solve_returns_the_goal_state_at_once() {
    let goal = State::new(vec![0, 1, 2, 3, 4, 5], 2, 3);
    let solved = goal.solve().unwrap();
    assert!(solved.is_final());
    assert_eq!(solved.board, goal.board);
    assert_eq!(solved.moves.len(), 0);
}

#[test]
fn solve_finds_the_single_missing_slide() {
    let start = State::new(vec![1, 0, 2, 3, 4, 5], 2, 3);
    let solved = start.solve().unwrap();
    assert!(solved.is_final());
    assert_eq!(solved.moves, vec![Direction::Left]);
    let words: Vec<String> = solved.moves.iter().map(|d| d.code().to_string()).collect();
    assert_eq!(start.check_solution(&words), Some(true));
}

#[test]
fn solve_reports_unsolvable_boards() {
    // Two swapped tiles give an odd permutation: no slide sequence
    // reaches the goal, and the search exhausts the reachable space.
    let start = State::new(vec![0, 2, 1, 3], 2, 2);
    assert!(start.solve().is_none());
}

#[test]
fn solve_handles_a_short_scramble() {
    let start = State::new(vec![3, 0, 2, 4, 1, 5], 2, 3);
    let solved = start.solve().unwrap();
    assert!(solved.is_final());
    let words: Vec<String> = solved.moves.iter().map(|d| d.code().to_string()).collect();
    assert_eq!(start.check_solution(&words), Some(true));
}

#[test]
fn generator_with_zero_moves_yields_the_goal() {
    let s = State::generate_random(2, 3, 0);
    assert_eq!(s.board, vec![0, 1, 2, 3, 4, 5]);
    assert!(s.moves.is_empty());
    assert!(s.is_final());
    assert_eq!(s.check_solution(&tokens(&[])), Some(true));
}

#[test]
fn generator_with_one_move_is_one_slide_from_goal() {
    for _ in 0..20 {
        let s = State::generate_random(2, 3, 1);
        assert_eq!(s.moves.len(), 1);
        let board = s.board.clone();
        assert!(board == vec![1, 0, 2, 3, 4, 5] || board == vec![3, 1, 2, 0, 4, 5]);
    }
}

#[test]
fn generator_output_is_solvable() {
    for _ in 0..5 {
        let s = State::generate_random(3, 3, 4);
        assert_eq!(s.moves.len(), 4);
        let start = State::new(s.board.clone(), 3, 3);
        let solved = start.solve().unwrap();
        let words: Vec<String> = solved.moves.iter().map(|d| d.code().to_string()).collect();
        assert_eq!(start.check_solution(&words), Some(true));
    }
}

#[test]
fn generator_never_undoes_the_previous_slide() {
    for _ in 0..20 {
        let s = State::generate_random(3, 3, 6);
        for k in 1..s.moves.len() {
            assert_ne!(s.moves[k], s.moves[k - 1].opposite());
        }
    }
}

#[test]
fn seen_set_counts_each_board_once() {
    let mut seen = SeenSet::new();
    let a = vec![0usize, 1, 2, 3];
    let b = vec![1usize, 0, 2, 3];
    assert!(seen.insert(&a));
    assert!(!seen.insert(&a));
    assert!(seen.insert(&b));
    assert!(!seen.insert(&b));
    assert_eq!(seen.len(), 2);
    assert!(seen.contains(&a));
    assert!(seen.contains(&b));
    assert!(!seen.contains(&vec![2usize, 1, 0, 3]));
}
