use minesweeper::field::{Difficulty, Field, Square, State};

fn single_mine_field(mx: usize, my: usize) -> Field {
    let mut f = Field::new();
    let mut flags = vec![false; 81];
    flags[my * 9 + mx] = true;
    f.populate_with_mines(Difficulty::BEGINNER, &flags);
    f
}

#[test]
fn difficulty_dimensions_and_probability() {
    assert_eq!(Difficulty::BEGINNER.get_dimensions(), 9);
    assert_eq!(Difficulty::INTERMEDIATE.get_dimensions(), 16);
    assert_eq!(Difficulty::ADVANCED.get_dimensions(), 24);
    assert_eq!(Difficulty::BEGINNER.p_is_mine(), 12);
    assert_eq!(Difficulty::INTERMEDIATE.p_is_mine(), 15);
    assert_eq!(Difficulty::ADVANCED.p_is_mine(), 17);
}

#[test]
fn populate_counts_mines_exactly() {
    let mut f = Field::new();
    f.populate(Difficulty::BEGINNER);
    assert_eq!(f.get_dimensions(), 9);
    assert_eq!(f.get_grid().len(), 81);
    let by_scan = f.get_grid().iter().filter(|s| s.is_mine()).count();
    assert_eq!(f.get_n_mines(), by_scan);
    assert_eq!(f.get_n_mines(), f.get_mines().len());
    assert_eq!(f.get_n_flags(), 0);
    assert!(f.get_grid().iter().all(|s| s.get_state() == State::HIDDEN));
}

#[test]
fn danger_counts_are_exact_around_single_mine() {
    let f = single_mine_field(1, 1);
    // the eight neighbors of the mine see exactly one mine
    for (x, y) in [(0, 0), (1, 0), (2, 0), (0, 1), (2, 1), (0, 2), (1, 2), (2, 2)] {
        let s = f.get_square_at(x, y).unwrap();
        assert_eq!(s.get_danger(), 1, "at {},{}", x, y);
        assert!(!s.is_mine());
    }
    // far away squares see none
    assert_eq!(f.get_square_at(8, 8).unwrap().get_danger(), 0);
    assert_eq!(f.get_square_at(4, 0).unwrap().get_danger(), 0);
    assert!(f.get_square_at(1, 1).unwrap().is_mine());
}

#[test]
fn out_of_range_lookups_are_absent() {
    let f = single_mine_field(1, 1);
    assert!(f.get_square_at(-1, 0).is_none());
    assert!(f.get_square_at(0, -1).is_none());
    assert!(f.get_square_at(9, 9).is_none());
    assert!(f.get_square_at(0, 9).is_none());
    assert!(f.get_square_at(0, 0).is_some());
    assert!(f.get_square_at(8, 8).is_some());
}

#[test]
fn show_mines_reveals_hidden_mines_only() {
    let mut f = Field::new();
    let mut flags = vec![false; 81];
    flags[1 * 9 + 1] = true;
    flags[5 * 9 + 5] = true;
    f.populate_with_mines(Difficulty::BEGINNER, &flags);
    f.show_mines();
    assert_eq!(f.get_square_at(1, 1).unwrap().get_state(), State::VISIBLE);
    assert_eq!(f.get_square_at(5, 5).unwrap().get_state(), State::VISIBLE);
    assert_eq!(f.get_square_at(0, 0).unwrap().get_state(), State::HIDDEN);
}

#[test]
fn icons_follow_state_and_danger() {
    let mut s = Square::new(0, 0, false);
    assert_eq!(s.get_icon(), '-');
    s.set_state(State::FLAGGED);
    assert_eq!(s.get_icon(), 'f');
    s.set_state(State::VISIBLE);
    assert_eq!(s.get_icon(), ' ');
    let mut m = Square::new(1, 1, true);
    m.set_state(State::VISIBLE);
    assert_eq!(m.get_icon(), '*');
    let f = single_mine_field(1, 1);
    let mut near = f.get_square_at(0, 0).unwrap();
    near.set_state(State::VISIBLE);
    assert_eq!(near.get_icon(), '1');
}

#[test]
fn square_accessors_report_fields() {
    let s = Square::new(3, 7, true);
    assert_eq!(s.get_position(), (3, 7));
    assert!(s.is_mine());
    assert_eq!(s.get_danger(), 0);
    assert_eq!(s.get_state(), State::HIDDEN);
}

#[test]
fn flag_counters_move_by_one() {
    let mut f = Field::new();
    f.increment_n_flags();
    f.increment_n_flags();
    assert_eq!(f.get_n_flags(), 2);
    f.decrement_n_flags();
    assert_eq!(f.get_n_flags(), 1);
}
