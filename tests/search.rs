use mancala::search::mancala_operator;

#[test]
fn single_legal_pit_is_chosen() {
    let status = [0, 0, 0, 0, 0, 1, 20, 4, 4, 4, 4, 4, 4, 3];
    assert_eq!(mancala_operator(1, &status), 16);
    let status = [0, 0, 3, 0, 0, 0, 20, 1, 0, 0, 0, 0, 0, 24];
    assert_eq!(mancala_operator(1, &status), 13);
}

#[test]
fn single_legal_pit_for_player_two() {
    let status = [1, 0, 0, 0, 0, 1, 25, 0, 0, 0, 2, 0, 0, 19];
    assert_eq!(mancala_operator(2, &status), 24);
}

#[test]
fn no_legal_move_falls_back_to_first_pit() {
    let status = [0, 0, 0, 0, 0, 0, 24, 4, 4, 4, 4, 4, 4, 0];
    assert_eq!(mancala_operator(1, &status), 11);
    let status = [4, 4, 4, 4, 4, 4, 0, 0, 0, 0, 0, 0, 0, 24];
    assert_eq!(mancala_operator(2, &status), 21);
}

#[test]
fn search_takes_the_capture() {
    // pit 1 sows into empty pit 2 across from ten stones; pit 5 gains nothing
    let status = [1, 0, 0, 0, 1, 0, 0, 0, 0, 0, 0, 10, 0, 0];
    assert_eq!(mancala_operator(1, &status), 11);
}
