use maze_search::AutoMazeState;
use maze_search::{hill_climb, hill_climb_from};
use rand::Rng;
use rand::SeedableRng;

fn random_auto_board(seed: u8, n_chars: usize) -> AutoMazeState {
    let mut rng = rand::rngs::StdRng::from_seed([seed; 32]);
    let h: usize = 6;
    let w: usize = 6;
    let mut points = Vec::new();
    for _ in 0..h * w {
        points.push(rng.gen_range(0..10) as u8);
    }
    AutoMazeState::new(h, w, 8, points, n_chars)
}

#[test]
fn playout_walks_toward_the_best_neighbour() {
    // One agent on a 1 by 3 strip: it must step right onto the value-4
    // cell; the horizon ends the episode there, so the playout scores 4.
    let state = AutoMazeState::new(1, 3, 1, vec![0, 4, 9], 1);
    assert_eq!(state.get_score(), 4);
}

#[test]
fn playout_collects_each_cell_once() {
    // Two agents on one cell both step onto the only neighbour; the cell's
    // value is collected once, not twice.
    let state = AutoMazeState::new(1, 2, 1, vec![0, 5], 2);
    assert_eq!(state.get_score(), 5);
}

#[test]
fn playout_does_not_count_the_starting_cell() {
    // The agent stands on a value-7 cell; the playout clears it first, so
    // only the neighbour's value is scored.
    let mut state = AutoMazeState::new(1, 2, 1, vec![3, 7], 1);
    state.set_character(0, 0, 1);
    assert_eq!(state.get_score(), 3);
}

#[test]
fn move_player_breaks_ties_by_smallest_action() {
    // All neighbours of the centre hold the same value: the agent steps
    // right, the smallest action.
    let mut state = AutoMazeState::new(3, 3, 4, vec![2, 2, 2, 2, 0, 2, 2, 2, 2], 1);
    state.set_character(0, 1, 1);
    state.move_player(0);
    assert_eq!(state.characters[0], (1, 2));
}

#[test]
fn move_player_prefers_the_richest_neighbour() {
    let mut state = AutoMazeState::new(3, 3, 4, vec![0, 1, 0, 2, 0, 3, 0, 9, 0], 1);
    state.set_character(0, 1, 1);
    state.move_player(0);
    // Down to the value-9 cell at (2,1): action 2 beats the others.
    assert_eq!(state.characters[0], (2, 1));
}

#[test]
fn advance_moves_all_agents_and_collects() {
    let mut state = AutoMazeState::new(1, 4, 4, vec![0, 6, 0, 8], 2);
    state.set_character(0, 0, 0);
    state.set_character(1, 0, 2);
    state.advance();
    // Agent 0 steps right onto the 6, agent 1 right onto the 8.
    assert_eq!(state.characters, vec![(0, 1), (0, 3)]);
    assert_eq!(state.game_score, 14);
    assert_eq!(state.points, vec![0, 0, 0, 0]);
    assert_eq!(state.turn, 1);
}

#[test]
fn get_score_leaves_the_state_untouched() {
    let state = random_auto_board(4, 3);
    let before = (state.turn, state.game_score, state.characters.clone());
    let _ = state.get_score();
    assert_eq!(
        (state.turn, state.game_score, state.characters.clone()),
        before
    );
}

#[test]
fn hill_climb_never_regresses_from_its_start() {
    for seed in 0..5 {
        let mut start = random_auto_board(seed, 3);
        let mut rng = rand::rngs::StdRng::from_seed([seed.wrapping_add(1); 32]);
        for id in 0..3 {
            let y = rng.gen_range(0..6);
            let x = rng.gen_range(0..6);
            start.set_character(id, y, x);
        }
        let improved = hill_climb_from(&start, 50);
        assert!(improved.get_score() >= start.get_score());
    }
}

#[test]
fn more_iterations_never_hurt_on_a_frozen_start() {
    // With a zero-iteration budget the climb returns the start itself; any
    // budget can only match or beat it.
    let start = random_auto_board(9, 2);
    let unchanged = hill_climb_from(&start, 0);
    assert_eq!(unchanged.get_score(), start.get_score());
    let climbed = hill_climb_from(&start, 30);
    assert!(climbed.get_score() >= unchanged.get_score());
}

#[test]
fn hill_climb_keeps_the_board_and_budget_shape() {
    let state = random_auto_board(2, 3);
    let best = hill_climb(&state, 40);
    assert_eq!(best.points, state.points);
    assert_eq!(best.turn, state.turn);
    assert_eq!(best.characters.len(), state.characters.len());
    for (y, x) in &best.characters {
        assert!(*y < best.h && *x < best.w);
    }
}

#[test]
fn transition_moves_exactly_one_agent() {
    for seed in 0..5 {
        let before = random_auto_board(seed, 4);
        let mut after = before.duplicate();
        after.transition();
        assert_eq!(after.points, before.points);
        assert_eq!(after.turn, before.turn);
        assert_eq!(after.game_score, before.game_score);
        assert_eq!(after.characters.len(), before.characters.len());
        let changed: Vec<usize> = (0..before.characters.len())
            .filter(|i| after.characters[*i] != before.characters[*i])
            .collect();
        // At most one agent moved, and wherever it stands is on the board.
        assert!(changed.len() <= 1);
        for i in changed {
            let (y, x) = after.characters[i];
            assert!(y < after.h && x < after.w);
        }
    }
}
