//! Fixed-depth exhaustive minimax search for the best move.
use vstd::prelude::*;
use crate::game::{board_of, GameSituation};
use crate::rules::{apply, is_legal, lemma_sum_bound, total, valid_board, GameState, ILLEGAL};

verus! {

/// Plies that the search looks ahead after the move it weighs.
pub const MAX_STEP: i32 = 9;

/// Static evaluation of board `b` for player `p`: the difference of the
/// stores, player 1's minus player 2's for player 1 and the reverse otherwise.
pub open spec fn value_for_spec(b: Seq<int>, p: int) -> int {
    if p == 1 {
        b[6] - b[13]
    } else {
        b[13] - b[6]
    }
}

/// The move of player `p` from pit `k`.
pub open spec fn move_code(p: int, k: int) -> int {
    p * 10 + k
}

/// Minimax value of `s` for player `p`, looking `depth` plies ahead: the
/// static evaluation at an ended game, at depth zero and where the player to
/// move has no legal move; else the best child value when `p` is to move
/// and the worst one otherwise.
pub open spec fn evaluate(s: GameState, p: int, depth: nat) -> int
    decreases depth, 7int,
{
    if s.ended || depth == 0 {
        value_for_spec(s.board, p)
    } else {
        match children(s, p, depth, 6) {
            Some(v) => v,
            None => value_for_spec(s.board, p),
        }
    }
}

/// The best (for `p`) or worst (for the opponent to move) value among the
/// legal moves from the first `k` pits of the player to move in `s`; `None`
/// when none of them is legal.
pub open spec fn children(s: GameState, p: int, depth: nat, k: int) -> Option<int>
    decreases depth, k,
{
    if k <= 0 || depth == 0 {
        None
    } else {
        let rest = children(s, p, depth, k - 1);
        let m = move_code(s.actor, k);
        if is_legal(s, m) {
            let v = evaluate(apply(s, m), p, (depth - 1) as nat);
            Some(
                match rest {
                    None => v,
                    Some(r) => if s.actor == p {
                        if v > r {
                            v
                        } else {
                            r
                        }
                    } else {
                        if v < r {
                            v
                        } else {
                            r
                        }
                    },
                },
            )
        } else {
            rest
        }
    }
}

/// The first of the legal moves from the first `k` pits of `p` whose value
/// is strictly the greatest, with that value.
pub open spec fn choice(s: GameState, p: int, k: int) -> Option<(int, int)>
    decreases k,
{
    if k <= 0 {
        None
    } else {
        let rest = choice(s, p, k - 1);
        let m = move_code(p, k);
        if is_legal(s, m) {
            let v = evaluate(apply(s, m), p, MAX_STEP as nat);
            match rest {
                None => Some((v, m)),
                Some(best) => if v > best.0 {
                    Some((v, m))
                } else {
                    rest
                },
            }
        } else {
            rest
        }
    }
}

/// The move that the search picks for `p` in `s`; pit 1 of `p` when no move
/// is legal.
pub open spec fn chosen_move(s: GameState, p: int) -> int {
    match choice(s, p, 6) {
        Some(best) => best.1,
        None => move_code(p, 1),
    }
}

/// The `i32` form of an optional value, as the search folds it.
pub open spec fn widen(o: Option<i32>) -> Option<int> {
    match o {
        Some(v) => Some(v as int),
        None => None,
    }
}

/// The move that a depth-nine minimax search picks for `flag` on the board
/// held by the first fourteen values of `status`, with `flag` to move.
pub fn mancala_operator(flag: i32, status: &[i32]) -> (r: i32)
    requires
        flag == 1 || flag == 2,
        status@.len() >= 14,
        valid_board(board_of(status@)),
    ensures
        r == chosen_move(
            GameState { board: board_of(status@), actor: flag as int, ended: false },
            flag as int,
        ),
{
    let ghost s = GameState { board: board_of(status@), actor: flag as int, ended: false };
    let mut best: Option<(i32, i32)> = None;
    let mut i: i32 = 0;
    while i < 6
        invariant
            0 <= i <= 6,
            flag == 1 || flag == 2,
            status@.len() >= 14,
            valid_board(s.board),
            s == (GameState { board: board_of(status@), actor: flag as int, ended: false }),
            match best {
                None => choice(s, flag as int, i as int).is_none(),
                Some(b) => choice(s, flag as int, i as int) == Some((b.0 as int, b.1 as int)),
            },
        decreases 6 - i,
    {
        let mut next_situation = GameSituation::from(flag, status);
        let action = flag * 10 + i + 1;
        if next_situation.act(action) != ILLEGAL {
            let current = decide(&next_situation, flag, MAX_STEP);
            best = match best {
                None => Some((current, action)),
                Some(b) => if current > b.0 {
                    Some((current, action))
                } else {
                    Some(b)
                },
            };
        }
        i = i + 1;
    }
    match best {
        Some(b) => b.1,
        None => flag * 10 + 1,
    }
}

/// Minimax value of `game_situation` for `decide_for`, `remain_step` plies deep.
fn decide(game_situation: &GameSituation, decide_for: i32, remain_step: i32) -> (r: i32)
    requires
        valid_board(game_situation@.board),
        game_situation.actor == 1 || game_situation.actor == 2,
        remain_step >= 0,
    ensures
        r == evaluate(game_situation@, decide_for as int, remain_step as nat),
    decreases remain_step,
{
    if game_situation.ended || remain_step == 0 {
        return value_for(&game_situation.board, decide_for);
    }
    let ghost s = game_situation@;
    let ghost p = decide_for as int;
    let ghost depth = remain_step as nat;
    let mut best: Option<i32> = None;
    let mut i: i32 = 0;
    while i < 6
        invariant
            0 <= i <= 6,
            s == game_situation@,
            valid_board(s.board),
            !s.ended,
            s.actor == 1 || s.actor == 2,
            p == decide_for,
            depth == remain_step,
            remain_step > 0,
            widen(best) == children(s, p, depth, i as int),
        decreases 6 - i,
    {
        let mut next_situation = GameSituation::from(game_situation.actor, &game_situation.board);
        assert(next_situation@ == s);
        let action = next_situation.actor * 10 + i + 1;
        if next_situation.act(action) != ILLEGAL {
            let current = decide(&next_situation, decide_for, remain_step - 1);
            best = match best {
                None => Some(current),
                Some(b) => if game_situation.actor == decide_for {
                    if current > b {
                        Some(current)
                    } else {
                        Some(b)
                    }
                } else {
                    if current < b {
                        Some(current)
                    } else {
                        Some(b)
                    }
                },
            };
        }
        i = i + 1;
    }
    match best {
        Some(v) => v,
        None => value_for(&game_situation.board, decide_for),
    }
}

/// Static evaluation of the board held by `status` for player `decide_for`.
fn value_for(status: &[i32], decide_for: i32) -> (r: i32)
    requires
        status@.len() >= 14,
        valid_board(board_of(status@)),
    ensures
        r == value_for_spec(board_of(status@), decide_for as int),
{
    proof {
        let b = board_of(status@);
        lemma_sum_bound(b, 0, 14);
        assert(b[13] <= total(b));
        assert(b[6] >= 0);
    }
    match decide_for {
        1 => value(status),
        _ => -value(status),
    }
}

/// Player 1's store minus player 2's.
fn value(status: &[i32]) -> (r: i32)
    requires
        status@.len() >= 14,
        valid_board(board_of(status@)),
    ensures
        r == status@[6] - status@[13],
{
    assert(board_of(status@)[6] == status@[6]);
    assert(board_of(status@)[13] == status@[13]);
    status[6] - status[13]
}

/// While pit `k` is the only legal one of `p`, the choice over the first `j`
/// pits is empty before it and that move from it on.
proof fn lemma_choice_single(s: GameState, p: int, k: int, j: int)
    requires
        1 <= k <= 6,
        0 <= j <= 6,
        is_legal(s, move_code(p, k)),
        forall|i: int| 1 <= i <= 6 && i != k ==> !is_legal(s, #[trigger] move_code(p, i)),
    ensures
        j < k ==> choice(s, p, j).is_none(),
        j >= k ==> choice(s, p, j) == Some(
            (evaluate(apply(s, move_code(p, k)), p, MAX_STEP as nat), move_code(p, k)),
        ),
    decreases j,
{
    if j > 0 {
        lemma_choice_single(s, p, k, j - 1);
    }
}

/// A forced move is chosen: when exactly one pit of `p` holds a legal move,
/// the search picks that move, whatever its value.
pub proof fn law_single_legal_move(s: GameState, p: int, k: int)
    requires
        1 <= k <= 6,
        is_legal(s, move_code(p, k)),
        forall|i: int| 1 <= i <= 6 && i != k ==> !is_legal(s, #[trigger] move_code(p, i)),
    ensures
        chosen_move(s, p) == move_code(p, k),
{
    lemma_choice_single(s, p, k, 6);
}

} // verus!
