use mancala::replay::{mancala_board, mancala_result};
use mancala::rules::{ENDED, ILLEGAL, NOT_ENDED};

#[test]
fn test_case_illegal() {
    assert_eq!(mancala_result(1, &[11, 12], 2), ILLEGAL + 1);
    assert_eq!(mancala_result(1, &[
        11, 22, 12, 13, 21,
        14, 22, 16, 23, 15,
        23, 14, 22
    ], 13), ILLEGAL + 12);
    assert_eq!(mancala_result(1, &[
        11, 22, 12, 13, 21,
        14, 22, 16, 23, 15,
        23, 14, 21, 13, 24,
        16, 15, 25, 16, 15
    ], 20), ILLEGAL + 16);
    assert_eq!(mancala_result(1, &[
        11, 21, 12, 13, 25,
        11, 21, 12, 22, 11,
        23, 12, 24, 13, 11,
        26, 12, 25, 11, 26,
        11
    ], 21), ILLEGAL + 20);
}

#[test]
fn test_case_ended() {
    assert_eq!(mancala_result(1, &[
        11, 21, 12, 13, 25,
        11, 21, 12, 22, 11,
        23, 12, 24, 13, 11,
        26, 12, 25, 11, 26
    ], 20), ENDED + 16);
}

#[test]
fn test_case_not_ended() {
    assert_eq!(mancala_result(1, &[11, 22], 2), NOT_ENDED + 0);
    assert_eq!(mancala_result(1, &[11, 22, 12, 13], 4), NOT_ENDED + 2);
    assert_eq!(mancala_result(1, &[
        11, 22, 12, 13, 21, 14,
        22, 16, 23, 15, 23, 14
    ], 12), NOT_ENDED + 8);
    assert_eq!(mancala_result(1, &[
        11, 21, 12, 13, 25
    ], 5), NOT_ENDED + 2);
}

#[test]
fn lib_test_case_illegal() {
    let r = mancala_board(1, &[
        11, 21, 12, 13, 25,
        11, 21, 12, 22, 11,
        23, 12, 24, 13, 11,
        26, 12, 25, 12
    ], 19);
    assert_eq!(r.len(), 15);
    assert_eq!(r[14], 200 + 2 * r[6] - 48);
}

#[test]
fn lib_test_case_ended() {
    let r = mancala_board(2, &[
        11, 21, 12, 13, 25,
        11, 21, 12, 22, 11,
        23, 12, 24, 13, 11,
        26, 12, 25, 11, 26
    ], 20);
    assert_eq!(r[14], 200 + 16);
    assert_eq!(r[..14].iter().sum::<i32>(), 48);
    assert!(r[..6].iter().all(|&x| x == 0));
    assert!(r[7..13].iter().all(|&x| x == 0));
}

#[test]
fn lib_test_case_not_ended() {
    let r = mancala_board(1, &[
        11, 21, 12, 13, 25,
        11, 21, 12, 22, 11,
        23, 12, 24, 13, 11,
        26, 12, 25, 11
    ], 19);
    assert_eq!(r[14], 2);
    assert_eq!(r[..14].iter().sum::<i32>(), 48);
}

#[test]
fn second_move_by_same_player_is_rejected() {
    assert_eq!(mancala_result(1, &[11, 12], 2), ILLEGAL + 1);
    assert_eq!(mancala_result(2, &[11], 1), ILLEGAL);
}

#[test]
fn extra_turn_lets_player_move_twice() {
    // pit 3 ends in the store, so player 1 moves again
    assert_eq!(mancala_result(1, &[13, 12], 2), NOT_ENDED + 1);
}

#[test]
fn empty_replay_reports_stores() {
    assert_eq!(mancala_result(1, &[], 0), NOT_ENDED);
    assert_eq!(mancala_result(2, &[], 0), NOT_ENDED);
}

#[test]
fn result_for_player_two_uses_its_store() {
    // 21 sows 4 stones from index 7 into 8..11; 11 sows into 1..4
    assert_eq!(mancala_result(2, &[21], 1), NOT_ENDED);
    assert_eq!(mancala_result(1, &[13], 1), NOT_ENDED + 1);
}

#[test]
fn board_snapshot_after_rejected_move() {
    let r = mancala_board(1, &[11, 12], 2);
    assert_eq!(r, vec![0, 5, 5, 5, 5, 4, 0, 4, 4, 4, 4, 4, 4, 0, 152]);
    let r = mancala_board(2, &[11, 12], 2);
    assert_eq!(r[14], 200 - 2 * 0 + 48);
}

#[test]
fn board_snapshot_reports_next_player() {
    let r = mancala_board(1, &[13], 1);
    assert_eq!(r, vec![4, 4, 0, 5, 5, 5, 1, 4, 4, 4, 4, 4, 4, 0, 1]);
    let r = mancala_board(1, &[11], 1);
    assert_eq!(r[14], 2);
}
