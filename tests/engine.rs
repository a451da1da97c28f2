use mancala::game::GameSituation;
use mancala::rules::{ENDED, ILLEGAL, NOT_ENDED};

#[test]
fn fresh_game_layout() {
    let g = GameSituation::new(2);
    assert_eq!(g.board, [4, 4, 4, 4, 4, 4, 0, 4, 4, 4, 4, 4, 4, 0]);
    assert_eq!(g.actor, 2);
    assert!(!g.ended);
}

#[test]
fn from_copies_the_board() {
    let status = [1, 2, 3, 4, 5, 6, 7, 8, 9, 10, 11, 12, 13, 14, 99];
    let g = GameSituation::from(1, &status);
    assert_eq!(g.board, [1, 2, 3, 4, 5, 6, 7, 8, 9, 10, 11, 12, 13, 14]);
    assert_eq!(g.actor, 1);
    assert!(!g.ended);
}

#[test]
fn pit_three_ends_in_store_and_keeps_turn() {
    let mut g = GameSituation::new(1);
    assert_eq!(g.act(13), NOT_ENDED);
    assert_eq!(g.board, [4, 4, 0, 5, 5, 5, 1, 4, 4, 4, 4, 4, 4, 0]);
    assert_eq!(g.actor, 1);
}

#[test]
fn ordinary_move_passes_turn() {
    let mut g = GameSituation::new(1);
    assert_eq!(g.act(11), NOT_ENDED);
    assert_eq!(g.board, [0, 5, 5, 5, 5, 4, 0, 4, 4, 4, 4, 4, 4, 0]);
    assert_eq!(g.actor, 2);
    assert_eq!(g.act(26), NOT_ENDED);
    assert_eq!(g.board, [1, 6, 6, 5, 5, 4, 0, 4, 4, 4, 4, 4, 0, 1]);
    assert_eq!(g.actor, 1);
}

#[test]
fn rejected_moves_change_nothing() {
    let mut g = GameSituation::new(1);
    let before = g.board;
    // wrong player, pits out of range, negative code
    for m in [21, 10, 17, 18, 19, 30, 0, 5, -11] {
        assert_eq!(g.act(m), ILLEGAL);
        assert_eq!(g.board, before);
        assert_eq!(g.actor, 1);
        assert!(!g.ended);
    }
    // an empty pit
    let mut h = GameSituation::new(1);
    assert_eq!(h.act(11), NOT_ENDED);
    assert_eq!(h.act(26), NOT_ENDED);
    assert_eq!(h.act(12), NOT_ENDED);
    let snapshot = h.board;
    assert_eq!(h.act(26), ILLEGAL);
    assert_eq!(h.board, snapshot);
    assert_eq!(h.actor, 2);
}

#[test]
fn capture_takes_opposite_pit() {
    let status = [1, 0, 2, 0, 0, 0, 0, 2, 0, 0, 0, 3, 0, 0];
    let mut g = GameSituation::from(1, &status);
    assert_eq!(g.act(11), NOT_ENDED);
    assert_eq!(g.board, [0, 0, 2, 0, 0, 0, 4, 2, 0, 0, 0, 0, 0, 0]);
    assert_eq!(g.actor, 2);
}

#[test]
fn no_capture_opposite_an_empty_pit() {
    let status = [1, 0, 2, 0, 0, 0, 0, 2, 0, 0, 0, 0, 3, 0];
    let mut g = GameSituation::from(1, &status);
    assert_eq!(g.act(11), NOT_ENDED);
    assert_eq!(g.board, [0, 1, 2, 0, 0, 0, 0, 2, 0, 0, 0, 0, 3, 0]);
}

#[test]
fn sowing_skips_opponent_store() {
    let status = [0, 0, 0, 0, 0, 9, 0, 1, 1, 1, 1, 1, 1, 0];
    let mut g = GameSituation::from(1, &status);
    assert_eq!(g.act(16), NOT_ENDED);
    // the last stone lands in the empty pit 2 across from four stones' worth
    assert_eq!(g.board, [1, 0, 0, 0, 0, 0, 4, 2, 2, 2, 2, 0, 2, 0]);
    assert_eq!(g.board.iter().sum::<i32>(), 15);
    assert_eq!(g.actor, 2);
}

#[test]
fn player_two_skips_player_one_store() {
    let status = [1, 1, 1, 1, 1, 1, 0, 0, 0, 0, 0, 0, 9, 0];
    let mut g = GameSituation::from(2, &status);
    assert_eq!(g.act(26), NOT_ENDED);
    assert_eq!(g.board, [2, 2, 2, 2, 0, 2, 0, 1, 0, 0, 0, 0, 0, 4]);
    assert_eq!(g.board.iter().sum::<i32>(), 15);
}

#[test]
fn emptied_side_ends_game_and_sweeps() {
    let status = [0, 0, 0, 0, 0, 1, 0, 1, 2, 0, 0, 0, 0, 0];
    let mut g = GameSituation::from(1, &status);
    assert_eq!(g.act(16), ENDED);
    assert_eq!(g.board, [0, 0, 0, 0, 0, 0, 1, 0, 0, 0, 0, 0, 0, 3]);
    assert!(g.ended);
    assert_eq!(g.actor, 1);
    assert_eq!(g.act(11), ILLEGAL);
    assert_eq!(g.act(21), ILLEGAL);
    assert_eq!(g.board, [0, 0, 0, 0, 0, 0, 1, 0, 0, 0, 0, 0, 0, 3]);
}

#[test]
fn opponent_side_emptied_sweeps_mover_side() {
    let status = [0, 0, 0, 0, 2, 3, 5, 0, 0, 0, 0, 0, 1, 0];
    let mut g = GameSituation::from(2, &status);
    assert_eq!(g.act(26), ENDED);
    assert_eq!(g.board, [0, 0, 0, 0, 0, 0, 10, 0, 0, 0, 0, 0, 0, 1]);
    assert_eq!(g.actor, 2);
}

#[test]
fn stones_conserved_over_a_game() {
    let moves = [11, 21, 12, 13, 25, 11, 21, 12, 22, 11, 23, 12, 24, 13, 11, 26, 12, 25, 11, 26];
    let mut g = GameSituation::new(1);
    for m in moves {
        assert_ne!(g.act(m), ILLEGAL);
        assert_eq!(g.board.iter().sum::<i32>(), 48);
        assert!(g.board.iter().all(|&x| x >= 0));
    }
    assert!(g.ended);
    assert_eq!(g.board[6] - g.board[13], 16);
}
