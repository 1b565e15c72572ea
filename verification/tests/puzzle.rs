use cozzle::color::Color;
use cozzle::gradient::{gradient_between, GRADIENT_LEN};
use cozzle::puzzle::PuzzleState;

fn shade(level: u8) -> Color {
    Color { red: level, green: level, blue: level, alpha: 255 }
}

fn four() -> Vec<Color> {
    vec![shade(0), shade(10), shade(20), shade(30)]
}

fn ten() -> Vec<Color> {
    gradient_between(shade(0), shade(90), 10)
}

fn sorted_inner(row: &[Color]) -> Vec<(u8, u8, u8, u8)> {
    let mut inner: Vec<(u8, u8, u8, u8)> = row[1..row.len() - 1]
        .iter()
        .map(|c| (c.red, c.green, c.blue, c.alpha))
        .collect();
    inner.sort();
    inner
}

fn check_fresh(state: &PuzzleState, n: usize) {
    assert_eq!(state.pending_selection(), None);
    let solved = state.solved();
    let current = state.current();
    assert_eq!(solved.len(), n);
    assert_eq!(current.len(), n);
    assert_eq!(solved.to_vec(), gradient_between(solved[0], solved[n - 1], n));
    assert!(solved.iter().all(|c| c.alpha == 255));
    assert_eq!(current[0], solved[0]);
    assert_eq!(current[n - 1], solved[n - 1]);
    assert_eq!(sorted_inner(current), sorted_inner(solved));
}

#[test]
fn new_puzzle_is_a_shuffled_gradient_of_ten() {
    for _ in 0..20 {
        let state = PuzzleState::new();
        check_fresh(&state, GRADIENT_LEN);
        assert_eq!(state.current().len(), 10);
    }
}

#[test]
fn with_len_gives_the_length_asked_for() {
    for n in 3..9usize {
        let state = PuzzleState::with_len(n);
        check_fresh(&state, n);
    }
}

#[test]
fn from_gradients_keeps_both_rows() {
    let current = vec![shade(0), shade(20), shade(10), shade(30)];
    let state = PuzzleState::from_gradients(four(), current.clone());
    assert_eq!(state.solved().to_vec(), four());
    assert_eq!(state.current().to_vec(), current);
    assert_eq!(state.pending_selection(), None);
    assert!(!state.is_solved());
}

#[test]
fn is_solved_compares_the_rows() {
    assert!(PuzzleState::from_gradients(four(), four()).is_solved());
    let current = vec![shade(0), shade(20), shade(10), shade(30)];
    assert!(!PuzzleState::from_gradients(four(), current).is_solved());
}

#[test]
fn first_choice_arms_the_cell() {
    let mut state = PuzzleState::from_gradients(ten(), ten());
    state.select_or_swap(4);
    assert_eq!(state.pending_selection(), Some(4));
    assert_eq!(state.current().to_vec(), ten());
    assert_eq!(state.solved().to_vec(), ten());
}

#[test]
fn same_cell_twice_changes_nothing() {
    let current = vec![shade(0), shade(20), shade(10), shade(30)];
    let mut state = PuzzleState::from_gradients(four(), current.clone());
    state.select_or_swap(2);
    assert_eq!(state.pending_selection(), Some(2));
    state.select_or_swap(2);
    assert_eq!(state.pending_selection(), None);
    assert_eq!(state.current().to_vec(), current);
    assert_eq!(state.solved().to_vec(), four());
}

#[test]
fn two_cells_change_places() {
    let mut state = PuzzleState::from_gradients(ten(), ten());
    state.select_or_swap(2);
    state.select_or_swap(7);
    assert_eq!(state.pending_selection(), None);
    let before = ten();
    let after = state.current().to_vec();
    assert_eq!(after[2], before[7]);
    assert_eq!(after[7], before[2]);
    for k in 0..10 {
        if k != 2 && k != 7 {
            assert_eq!(after[k], before[k]);
        }
    }
    assert_eq!(state.solved().to_vec(), ten());
}

#[test]
fn swap_works_in_either_order() {
    let mut state = PuzzleState::from_gradients(ten(), ten());
    state.select_or_swap(8);
    state.select_or_swap(1);
    let after = state.current().to_vec();
    assert_eq!(after[1], shade(80));
    assert_eq!(after[8], shade(10));
}

#[test]
fn swapping_back_restores_the_row() {
    let mut state = PuzzleState::from_gradients(ten(), ten());
    state.select_or_swap(3);
    state.select_or_swap(5);
    assert!(!state.is_solved());
    state.select_or_swap(5);
    state.select_or_swap(3);
    assert!(state.is_solved());
}

#[test]
fn swap_of_four_solves_and_tick_starts_again() {
    let current = vec![shade(0), shade(20), shade(10), shade(30)];
    let mut state = PuzzleState::from_gradients(four(), current.clone());
    state.select_or_swap(1);
    assert_eq!(state.pending_selection(), Some(1));
    assert_eq!(state.current().to_vec(), current);
    state.select_or_swap(2);
    assert_eq!(state.current().to_vec(), four());
    assert_eq!(state.pending_selection(), None);
    assert!(state.is_solved());
    state.tick();
    check_fresh(&state, 4);
}

#[test]
fn tick_leaves_an_unsolved_puzzle_alone() {
    let current = vec![shade(0), shade(20), shade(10), shade(30)];
    let mut state = PuzzleState::from_gradients(four(), current.clone());
    for _ in 0..5 {
        state.tick();
        assert_eq!(state.solved().to_vec(), four());
        assert_eq!(state.current().to_vec(), current);
        assert_eq!(state.pending_selection(), None);
    }
    state.select_or_swap(1);
    for _ in 0..5 {
        state.tick();
        assert_eq!(state.solved().to_vec(), four());
        assert_eq!(state.current().to_vec(), current);
        assert_eq!(state.pending_selection(), Some(1));
    }
}

#[test]
fn tick_on_a_solved_puzzle_clears_the_waiting_cell() {
    let mut state = PuzzleState::from_gradients(ten(), ten());
    state.select_or_swap(4);
    assert_eq!(state.pending_selection(), Some(4));
    state.tick();
    check_fresh(&state, 10);
}

#[test]
fn tick_on_a_solved_puzzle_draws_new_colors() {
    let mut state = PuzzleState::from_gradients(ten(), ten());
    let mut fresh = false;
    for _ in 0..64 {
        state.tick();
        if state.solved().to_vec() != ten() {
            fresh = true;
        }
    }
    assert!(fresh);
}

#[test]
fn puzzle_of_three_starts_again_at_every_tick() {
    let mut state = PuzzleState::with_len(3);
    assert!(state.is_solved());
    state.select_or_swap(1);
    state.select_or_swap(1);
    assert!(state.is_solved());
    state.tick();
    check_fresh(&state, 3);
}
