use minesweeper::engine::{apply_move, no_hidden_mines, MoveKind, MoveResult};
use minesweeper::field::{Difficulty, Field, State};

fn single_mine_field(mx: usize, my: usize) -> Field {
    let mut f = Field::new();
    let mut flags = vec![false; 81];
    flags[my * 9 + mx] = true;
    f.populate_with_mines(Difficulty::BEGINNER, &flags);
    f
}

#[test]
fn flag_toggle_twice_restores_hidden_state() {
    let mut f = single_mine_field(1, 1);
    let before = f.get_n_flags();
    let r1 = apply_move(&mut f, MoveKind::Flag, 3, 3);
    assert_eq!(r1, MoveResult::Continue);
    assert_eq!(f.get_square_at(3, 3).unwrap().get_state(), State::FLAGGED);
    assert_eq!(f.get_n_flags(), before + 1);
    let r2 = apply_move(&mut f, MoveKind::Flag, 3, 3);
    assert_eq!(r2, MoveResult::Continue);
    assert_eq!(f.get_square_at(3, 3).unwrap().get_state(), State::HIDDEN);
    assert_eq!(f.get_n_flags(), before);
}

#[test]
fn flagging_the_mine_wins_and_a_wrong_flag_does_not() {
    let mut f = single_mine_field(1, 1);
    assert_eq!(apply_move(&mut f, MoveKind::Flag, 1, 1), MoveResult::Win);
    assert!(no_hidden_mines(&f));

    let mut g = single_mine_field(1, 1);
    assert_eq!(apply_move(&mut g, MoveKind::Flag, 2, 2), MoveResult::Continue);
    assert!(!no_hidden_mines(&g));
}

#[test]
fn checking_a_hidden_mine_loses_and_discloses_mines() {
    let mut f = Field::new();
    let mut flags = vec![false; 81];
    flags[1 * 9 + 1] = true;
    flags[5 * 9 + 5] = true;
    f.populate_with_mines(Difficulty::BEGINNER, &flags);
    assert_eq!(apply_move(&mut f, MoveKind::Flag, 1, 1), MoveResult::Continue);
    assert_eq!(apply_move(&mut f, MoveKind::Check, 5, 5), MoveResult::Loss);
    // the flagged mine keeps its flag, the checked one is shown
    assert_eq!(f.get_square_at(1, 1).unwrap().get_state(), State::FLAGGED);
    assert_eq!(f.get_square_at(5, 5).unwrap().get_state(), State::VISIBLE);
    // safe squares stay hidden
    assert_eq!(f.get_square_at(8, 0).unwrap().get_state(), State::HIDDEN);
}

#[test]
fn checking_a_positive_danger_square_reveals_only_it() {
    let mut f = single_mine_field(1, 1);
    assert_eq!(apply_move(&mut f, MoveKind::Check, 0, 0), MoveResult::Continue);
    assert_eq!(f.get_square_at(0, 0).unwrap().get_state(), State::VISIBLE);
    assert_eq!(f.get_square_at(0, 1).unwrap().get_state(), State::HIDDEN);
    assert_eq!(f.get_square_at(1, 0).unwrap().get_state(), State::HIDDEN);
}

#[test]
fn zero_danger_check_floods_up_to_the_ring() {
    let mut f = single_mine_field(1, 1);
    assert_eq!(apply_move(&mut f, MoveKind::Check, 8, 8), MoveResult::Continue);
    // the whole zero region is revealed plus the ring of danger-1
    // squares that border it; the mine and the three squares walled in
    // with it at the corner touch no zero-danger square and stay hidden
    for y in 0..9 {
        for x in 0..9 {
            let s = f.get_square_at(x, y).unwrap();
            let pocket = (x, y) == (1, 1) || (x, y) == (0, 0) || (x, y) == (1, 0) || (x, y) == (0, 1);
            if pocket {
                assert_eq!(s.get_state(), State::HIDDEN, "at {},{}", x, y);
            } else {
                assert_eq!(s.get_state(), State::VISIBLE, "at {},{}", x, y);
            }
        }
    }
    // flagging the last mine now wins
    assert_eq!(apply_move(&mut f, MoveKind::Flag, 1, 1), MoveResult::Win);
}

#[test]
fn moves_on_non_hidden_or_absent_squares_are_no_ops() {
    let mut f = single_mine_field(1, 1);
    assert_eq!(apply_move(&mut f, MoveKind::Check, -1, 0), MoveResult::Invalid);
    assert_eq!(apply_move(&mut f, MoveKind::Check, 9, 9), MoveResult::Invalid);
    assert_eq!(apply_move(&mut f, MoveKind::Flag, 9, 0), MoveResult::Invalid);
    assert_eq!(apply_move(&mut f, MoveKind::Check, 0, 0), MoveResult::Continue);
    // checking the same square again changes nothing
    let st = f.get_square_at(0, 0).unwrap().get_state();
    assert_eq!(apply_move(&mut f, MoveKind::Check, 0, 0), MoveResult::Invalid);
    assert_eq!(f.get_square_at(0, 0).unwrap().get_state(), st);
    // checking a flagged square is a no-op too
    apply_move(&mut f, MoveKind::Flag, 4, 4);
    assert_eq!(apply_move(&mut f, MoveKind::Check, 4, 4), MoveResult::Invalid);
    assert_eq!(f.get_square_at(4, 4).unwrap().get_state(), State::FLAGGED);
}

#[test]
fn neighbor_update_reveals_all_hidden_neighbors() {
    let mut f = single_mine_field(1, 1);
    let backlog = f.check_and_update_states_of_adjacent_squares(4, 4);
    // all eight neighbors of (4,4) are far from the mine: hidden with
    // danger 0, so each is revealed and each lands on the backlog
    let expected = [
        (3, 3),
        (4, 3),
        (5, 3),
        (3, 4),
        (5, 4),
        (3, 5),
        (4, 5),
        (5, 5),
    ];
    assert_eq!(backlog.len(), 8);
    for (nx, ny) in expected {
        assert!(backlog.contains(&(nx, ny)), "missing {},{}", nx, ny);
        assert_eq!(
            f.get_square_at(nx, ny).unwrap().get_state(),
            State::VISIBLE,
            "at {},{}",
            nx,
            ny
        );
    }
    // the square itself was not touched
    assert_eq!(f.get_square_at(4, 4).unwrap().get_state(), State::HIDDEN);
}
