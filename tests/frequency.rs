use mancala::frequency::bocchi_shut_up;

#[test]
fn bocchi_shut_up_test_when_10() {
    assert_eq!(bocchi_shut_up(1, &[11, 12, 13], 3), 10);
    assert_eq!(bocchi_shut_up(2, &[21, 22, 23], 3), 10);
}

#[test]
fn bocchi_shut_up_test_when_not_10() {
    assert_eq!(bocchi_shut_up(1, &[11, 12, 12], 3), 12);
    assert_eq!(bocchi_shut_up(2, &[21, 21, 22], 3), 21);
}

#[test]
fn other_players_moves_are_ignored() {
    assert_eq!(bocchi_shut_up(1, &[21, 21, 21, 14], 4), 14);
    assert_eq!(bocchi_shut_up(2, &[11, 11, 25, 23, 25], 5), 25);
}
