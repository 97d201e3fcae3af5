use maze_search::MazeState;
use maze_search::{beam_search_action, chokudai_search_action, greedy_action};
use rand::Rng;
use rand::SeedableRng;

fn small_board() -> MazeState {
    // 2 by 2 board, horizon 2, agent at (0,0), values (0,1)=3 (1,0)=1 (1,1)=5.
    MazeState::new(2, 2, 2, 0, 0, vec![0, 3, 1, 5])
}

fn random_board(seed: u8) -> MazeState {
    let mut rng = rand::rngs::StdRng::from_seed([seed; 32]);
    let h: usize = 5;
    let w: usize = 5;
    let y = rng.gen_range(0..h);
    let x = rng.gen_range(0..w);
    let mut points = Vec::new();
    for yy in 0..h {
        for xx in 0..w {
            if yy == y && xx == x {
                points.push(0);
            } else {
                points.push(rng.gen_range(0..10) as u8);
            }
        }
    }
    MazeState::new(h, w, 10, y, x, points)
}

#[test]
fn greedy_picks_richer_neighbour() {
    let state = small_board();
    assert_eq!(greedy_action(&state), Some(0));
}

#[test]
fn greedy_two_turn_scenario_reaches_eight() {
    // Greedy must go toward the value-3 cell first, then on to the value-5
    // cell: cumulative score 3 after turn 1 and exactly 8 at the horizon.
    let mut state = small_board();
    let first = greedy_action(&state).unwrap();
    assert_eq!(first, 0);
    state.advance(first);
    assert_eq!(state.game_score, 3);
    assert_eq!(state.points, vec![0, 0, 1, 5]);
    let second = greedy_action(&state).unwrap();
    state.advance(second);
    assert_eq!(state.game_score, 8);
    assert!(state.is_done());
}

#[test]
fn greedy_breaks_ties_by_smallest_action() {
    let state = MazeState::new(2, 2, 2, 0, 0, vec![0, 3, 3, 5]);
    assert_eq!(greedy_action(&state), Some(0));
}

#[test]
fn greedy_on_terminal_state_returns_none() {
    let state = MazeState::new(2, 2, 0, 0, 0, vec![0, 1, 2, 3]);
    assert_eq!(greedy_action(&state), None);
}

#[test]
fn degenerate_single_cell_board_has_no_action() {
    let state = MazeState::new(1, 1, 5, 0, 0, vec![0]);
    assert_eq!(greedy_action(&state), None);
    assert_eq!(beam_search_action(&state, 3, 3), None);
    assert_eq!(chokudai_search_action(&state, 3, 3, 3), None);
}

#[test]
fn legal_actions_listed_in_increasing_order() {
    let state = small_board();
    assert_eq!(state.legal_actions(), vec![0, 2]);
    let centre = MazeState::new(3, 3, 4, 1, 1, vec![0, 1, 2, 3, 0, 5, 6, 7, 8]);
    assert_eq!(centre.legal_actions(), vec![0, 1, 2, 3]);
}

#[test]
fn advance_collects_and_zeroes_the_cell() {
    let mut state = small_board();
    state.advance(2);
    assert_eq!(state.game_score, 1);
    assert_eq!(state.points, vec![0, 3, 0, 5]);
    assert_eq!((state.y, state.x), (1, 0));
    assert_eq!(state.turn, 1);
}

#[test]
fn score_is_monotone_across_transitions() {
    let mut state = random_board(7);
    while !state.is_done() {
        let before = state.evaluate();
        let a = greedy_action(&state).unwrap();
        state.advance(a);
        assert!(state.evaluate() >= before);
    }
}

#[test]
fn beam_width_one_depth_one_matches_greedy() {
    for seed in 0..20 {
        let state = random_board(seed);
        assert_eq!(
            beam_search_action(&state, 1, 1),
            greedy_action(&state),
            "seed {}",
            seed
        );
    }
}

#[test]
fn beam_any_width_depth_one_matches_greedy() {
    for seed in 0..20 {
        let state = random_board(seed);
        assert_eq!(beam_search_action(&state, 4, 1), greedy_action(&state));
    }
}

#[test]
fn beam_depth_two_follows_best_two_step_path() {
    // From (0,0) the best two-step path collects 3 then 5; its first step is
    // action 0, and beam search of any width at depth 2 finds it.
    let state = small_board();
    assert_eq!(beam_search_action(&state, 1, 2), Some(0));
    assert_eq!(beam_search_action(&state, 2, 2), Some(0));
    assert_eq!(beam_search_action(&state, 4, 2), Some(0));
}

#[test]
fn beam_with_zero_budget_returns_none() {
    let state = small_board();
    assert_eq!(beam_search_action(&state, 0, 3), None);
    assert_eq!(beam_search_action(&state, 3, 0), None);
}

#[test]
fn chokudai_single_round_matches_depth_one_beam() {
    for seed in 0..20 {
        let state = random_board(seed);
        assert_eq!(
            chokudai_search_action(&state, 2, 2, 1),
            beam_search_action(&state, 2, 1)
        );
    }
}

#[test]
fn chokudai_finds_the_greedy_first_step() {
    let state = small_board();
    assert_eq!(chokudai_search_action(&state, 1, 2, 2), Some(0));
}

#[test]
fn chokudai_with_zero_depth_returns_none() {
    let state = small_board();
    assert_eq!(chokudai_search_action(&state, 2, 0, 2), None);
}

#[test]
fn chokudai_with_zero_rounds_returns_none() {
    let state = small_board();
    assert_eq!(chokudai_search_action(&state, 2, 3, 0), None);
}

#[test]
fn engines_are_idempotent_on_equal_clones() {
    for seed in 0..10 {
        let a = random_board(seed);
        let b = random_board(seed);
        assert_eq!(greedy_action(&a), greedy_action(&b));
        assert_eq!(beam_search_action(&a, 2, 3), beam_search_action(&b, 2, 3));
        assert_eq!(
            chokudai_search_action(&a, 2, 3, 2),
            chokudai_search_action(&b, 2, 3, 2)
        );
        assert_eq!(greedy_action(&a), greedy_action(&a.duplicate()));
    }
}

#[test]
fn chokudai_full_playout_never_beats_collectable_total() {
    let mut state = random_board(3);
    let total: u64 = state.points.iter().map(|p| *p as u64).sum();
    while !state.is_done() {
        match chokudai_search_action(&state, 1, 2, 2) {
            Some(a) => state.advance(a),
            None => break,
        }
    }
    assert!(state.game_score <= total);
}

fn brute_force_best(state: &MazeState, depth: usize) -> u64 {
    if depth == 0 || state.is_done() {
        return state.game_score;
    }
    let mut best = state.game_score;
    for a in state.legal_actions() {
        let mut next = state.duplicate();
        next.advance(a);
        let s = brute_force_best(&next, depth - 1);
        if s > best {
            best = s;
        }
    }
    best
}

#[test]
fn wide_beam_converges_to_brute_force() {
    // With width enough for every candidate and depth reaching the horizon,
    // following beam search move by move attains the brute-force optimum.
    for seed in 0..5 {
        let mut state = {
            let mut rng = rand::rngs::StdRng::from_seed([seed; 32]);
            let mut points = Vec::new();
            for _ in 0..9 {
                points.push(rng.gen_range(0..10) as u8);
            }
            points[0] = 0;
            MazeState::new(3, 3, 4, 0, 0, points)
        };
        let optimum = brute_force_best(&state, 4);
        while !state.is_done() {
            let remaining = state.horizon - state.turn;
            let a = beam_search_action(&state, 1 << (2 * remaining), remaining).unwrap();
            state.advance(a);
        }
        assert_eq!(state.game_score, optimum);
    }
}

#[test]
fn wide_beam_on_small_board_matches_exhaustive_two_by_two() {
    let state = small_board();
    let optimum = brute_force_best(&state, 2);
    assert_eq!(optimum, 8);
    let mut play = state.duplicate();
    while !play.is_done() {
        let a = beam_search_action(&play, 16, 2).unwrap();
        play.advance(a);
    }
    assert_eq!(play.game_score, 8);
}

#[test]
fn chokudai_single_round_matches_shallower_beam_at_any_depth() {
    for seed in 0..10 {
        let state = random_board(seed);
        for depth in 1..5 {
            assert_eq!(
                chokudai_search_action(&state, 3, depth, 1),
                beam_search_action(&state, 3, depth - 1)
            );
        }
    }
}

#[test]
fn wide_chokudai_converges_to_brute_force() {
    // A single full-width round answers from one level above the depth
    // bound, so depth remaining+1 reaches the brute-force optimum.
    for seed in 0..3 {
        let mut state = {
            let mut rng = rand::rngs::StdRng::from_seed([seed; 32]);
            let mut points = Vec::new();
            for _ in 0..9 {
                points.push(rng.gen_range(0..10) as u8);
            }
            points[0] = 0;
            MazeState::new(3, 3, 3, 0, 0, points)
        };
        let optimum = brute_force_best(&state, 3);
        while !state.is_done() {
            let remaining = state.horizon - state.turn;
            let a = chokudai_search_action(&state, 1 << (2 * remaining), remaining + 1, 1).unwrap();
            state.advance(a);
        }
        assert_eq!(state.game_score, optimum);
    }
}
