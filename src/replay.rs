//! Whole games replayed from a list of moves, reported as packed integers.
use vstd::prelude::*;
use crate::game::GameSituation;
use crate::rules::{
    apply, fresh, is_legal, lemma_initial_total, lemma_sum_bound, play, total, valid_board,
    GameState, ENDED, ILLEGAL, INITIAL_STONES, NOT_ENDED,
};

verus! {

/// The values of `v` as integers.
pub open spec fn ints(v: Seq<i32>) -> Seq<int> {
    v.map_values(|x: i32| x as int)
}

/// Code of a replay that played every move: `ENDED` plus `flag`'s lead when
/// the game is over, else `NOT_ENDED` plus `flag`'s store.
pub open spec fn final_code(s: GameState, flag: int) -> int {
    if s.ended {
        if flag == 1 {
            ENDED + s.board[6] - s.board[13]
        } else {
            ENDED + s.board[13] - s.board[6]
        }
    } else {
        if flag == 1 {
            NOT_ENDED + s.board[6]
        } else {
            NOT_ENDED + s.board[13]
        }
    }
}

/// Code of replaying `moves` from index `i` on in state `s`: `ILLEGAL` plus
/// the index of the first rejected move, else the final code.
pub open spec fn replay_code(s: GameState, flag: int, moves: Seq<int>, i: int) -> int
    decreases moves.len() - i,
{
    if i >= moves.len() {
        final_code(s, flag)
    } else if !is_legal(s, moves[i]) {
        ILLEGAL + i
    } else {
        replay_code(apply(s, moves[i]), flag, moves, i + 1)
    }
}

/// Rust's quotient of `x` by ten, rounded toward zero.
pub open spec fn tenth(x: int) -> int {
    if x >= 0 {
        x / 10
    } else {
        -((-x) / 10)
    }
}

/// The fourteen holes after replaying `moves`, with player `tenth(moves[0])`
/// first, rejected moves but the last changing nothing, followed by a status
/// value: when the last move is rejected, `200 + 2 * store - 48` for player 1
/// (`flag == 1`) or `200 - 2 * store + 48` for player 2; when it ends the
/// game, 200 plus player 1's lead; else the player to move.
pub open spec fn snapshot(flag: int, moves: Seq<int>) -> Seq<int> {
    let s = play(fresh(tenth(moves[0])), moves.drop_last());
    let m = moves.last();
    if !is_legal(s, m) {
        s.board.push(
            if flag == 1 {
                200 + 2 * s.board[6] - 48
            } else {
                200 - 2 * s.board[13] + 48
            },
        )
    } else {
        let t = apply(s, m);
        t.board.push(
            if t.ended {
                200 + t.board[6] - t.board[13]
            } else {
                t.actor
            },
        )
    }
}

/// Replays the first `size` moves of `seq` from a fresh game that `flag`
/// opens. Returns `ILLEGAL` plus the index of the first rejected move;
/// otherwise, when the game is over, `ENDED` plus `flag`'s lead, else
/// `NOT_ENDED` plus `flag`'s store.
pub fn mancala_result(flag: i32, seq: &[i32], size: i32) -> (r: i32)
    requires
        0 <= size <= seq@.len(),
        size <= i32::MAX - ILLEGAL,
    ensures
        r == replay_code(fresh(flag as int), flag as int, ints(seq@.subrange(0, size as int)), 0),
{
    let ghost moves = ints(seq@.subrange(0, size as int));
    let mut game_situation = GameSituation::new(flag);
    proof {
        lemma_initial_total();
    }
    let mut i: i32 = 0;
    while i < size
        invariant
            0 <= i <= size,
            size <= seq@.len(),
            size <= i32::MAX - ILLEGAL,
            moves == ints(seq@.subrange(0, size as int)),
            valid_board(game_situation@.board),
            total(game_situation@.board) == INITIAL_STONES,
            replay_code(game_situation@, flag as int, moves, i as int) == replay_code(
                fresh(flag as int),
                flag as int,
                moves,
                0,
            ),
        decreases size - i,
    {
        if game_situation.act(seq[i as usize]) == ILLEGAL {
            return ILLEGAL + i;
        }
        i = i + 1;
    }
    let ghost b = game_situation@.board;
    proof {
        lemma_sum_bound(b, 0, 14);
        assert(b[6] <= INITIAL_STONES && b[13] <= INITIAL_STONES);
    }
    if game_situation.ended {
        if flag == 1 {
            ENDED + game_situation.board[6] - game_situation.board[13]
        } else {
            ENDED + game_situation.board[13] - game_situation.board[6]
        }
    } else {
        if flag == 1 {
            NOT_ENDED + game_situation.board[6]
        } else {
            NOT_ENDED + game_situation.board[13]
        }
    }
}

/// Replays the first `size` moves of `seq` and returns the board with a
/// status value appended, as `snapshot` describes.
pub fn mancala_board(flag: i32, seq: &[i32], size: i32) -> (r: Vec<i32>)
    requires
        1 <= size <= seq@.len(),
    ensures
        ints(r@) == snapshot(flag as int, ints(seq@.subrange(0, size as int))),
{
    let ghost moves = ints(seq@.subrange(0, size as int));
    let head = seq[0];
    let first = head / 10;
    assert(first == tenth(moves[0]));
    let mut game_situation = GameSituation::new(first);
    proof {
        lemma_initial_total();
    }
    let mut i: i32 = 0;
    while i < size - 1
        invariant
            0 <= i <= size - 1,
            size <= seq@.len(),
            moves == ints(seq@.subrange(0, size as int)),
            valid_board(game_situation@.board),
            total(game_situation@.board) == INITIAL_STONES,
            game_situation@ == play(fresh(first as int), moves.take(i as int)),
        decreases size - i,
    {
        game_situation.act(seq[i as usize]);
        proof {
            assert(moves.take(i + 1).drop_last() =~= moves.take(i as int));
        }
        i = i + 1;
    }
    assert(moves.take(size - 1) =~= moves.drop_last());
    let outcome = game_situation.act(seq[(size - 1) as usize]);
    let ghost b = game_situation@.board;
    proof {
        lemma_sum_bound(b, 0, 14);
        assert(b[6] <= INITIAL_STONES && b[13] <= INITIAL_STONES);
    }
    let mut tmp: Vec<i32> = Vec::new();
    let mut k: usize = 0;
    while k < 14
        invariant
            k <= 14,
            b == game_situation@.board,
            tmp@.len() == k,
            ints(tmp@) == b.take(k as int),
        decreases 14 - k,
    {
        let ghost before = tmp@;
        tmp.push(game_situation.board[k]);
        assert forall|j: int| 0 <= j < k + 1 implies ints(tmp@)[j] == b.take(k + 1)[j] by {
            if j < k {
                assert(ints(before)[j] == b.take(k as int)[j]);
            } else {
                assert(tmp@[j] == game_situation.board@[j]);
                assert(b[j] == game_situation.board@[j] as int);
            }
        }
        assert(ints(tmp@) =~= b.take(k + 1));
        k = k + 1;
    }
    let tail = if outcome == ILLEGAL {
        if flag == 1 {
            200 + 2 * game_situation.board[6] - 48
        } else {
            200 - 2 * game_situation.board[13] + 48
        }
    } else if game_situation.ended {
        200 + game_situation.board[6] - game_situation.board[13]
    } else {
        game_situation.actor
    };
    let ghost before = tmp@;
    tmp.push(tail);
    assert forall|j: int| 0 <= j < 15 implies ints(tmp@)[j] == b.push(tail as int)[j] by {
        if j < 14 {
            assert(ints(before)[j] == b.take(14)[j]);
        }
    }
    assert(ints(tmp@) =~= b.push(tail as int));
    assert(b.take(14) =~= b);
    tmp
}

} // verus!
