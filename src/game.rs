//! The game state and its one transition, `act`.
use vstd::prelude::*;
use crate::rules::{
    apply, capture, captured, fresh, initial_board, is_legal, is_pit_of, last_drop, last_hole,
    lemma_apply_valid, lemma_initial_total, lemma_sum_bound, lemma_sum_split, lemma_sum_update, lemma_swept_step,
    lemma_swept_valid, lemma_two_within_total, next_of, opponent_store, opposite, own_store,
    settle, settles, side_total, sow, sown, step, sum_range, sweep, swept, total, valid_board,
    GameState, ENDED, HOLE_NUMBER, ILLEGAL, INITIAL_STONES, NOT_ENDED, PLAYER_1_SCORE_HOLE, PLAYER_2_SCORE_HOLE,
};

verus! {

/// A game in progress: the fourteen holes, the player to move and whether
/// the game is over.
pub struct GameSituation {
    pub actor: i32,
    pub board: [i32; HOLE_NUMBER],
    pub ended: bool,
}

/// The outcome code that `act` returns for move `m` in state `s`.
pub open spec fn outcome_code(s: GameState, m: int) -> i32 {
    if !is_legal(s, m) {
        ILLEGAL
    } else if apply(s, m).ended {
        ENDED
    } else {
        NOT_ENDED
    }
}

/// The board held by the first fourteen values of `status`.
pub open spec fn board_of(status: Seq<i32>) -> Seq<int> {
    Seq::new(14, |i: int| status[i] as int)
}

impl View for GameSituation {
    type V = GameState;

    open spec fn view(&self) -> GameState {
        GameState { board: board_of(self.board@), actor: self.actor as int, ended: self.ended }
    }
}

impl GameSituation {
    /// A fresh game: four stones in each pit, empty stores, `first_actor` to move.
    pub fn new(first_actor: i32) -> (r: GameSituation)
        ensures
            r@ == fresh(first_actor as int),
            valid_board(r@.board),
            total(r@.board) == INITIAL_STONES,
    {
        let mut situation = GameSituation {
            actor: first_actor,
            board: [4;HOLE_NUMBER],
            ended: false,
        };

        situation.board[PLAYER_1_SCORE_HOLE] = 0;
        situation.board[PLAYER_2_SCORE_HOLE] = 0;
        assert(situation@.board =~= initial_board());
        proof {
            lemma_initial_total();
        }
        situation
    }

    /// A game that is not over, on the board held by the first fourteen
    /// values of `status`, with `first_actor` to move. The board is taken as
    /// it is.
    pub fn from(first_actor: i32, status: &[i32]) -> (r: GameSituation)
        requires
            status@.len() >= 14,
        ensures
            r@ == (GameState { board: board_of(status@), actor: first_actor as int, ended: false }),
    {
        let mut situation = GameSituation {
            actor: first_actor,
            board: [0;HOLE_NUMBER],
            ended: false,
        };

        let mut i: usize = 0;
        while i < HOLE_NUMBER
            invariant
                i <= 14,
                status@.len() >= 14,
                situation.actor == first_actor,
                !situation.ended,
                forall|k: int| 0 <= k < i ==> situation.board@[k] == status@[k],
            decreases 14 - i,
        {
            situation.board[i] = status[i];
            i = i + 1;
        }
        assert(situation@.board =~= board_of(status@));
        situation
    }

    /// Plays `action` (`10 * player + pit`, pit 1 to 6 from the player's
    /// side) if it is legal, and tells whether it was rejected, ended the
    /// game or left it going. A rejected move changes nothing.
    pub fn act(&mut self, action: i32) -> (r: i32)
        requires
            valid_board(old(self)@.board),
        ensures
            final(self)@ == step(old(self)@, action as int),
            r == outcome_code(old(self)@, action as int),
            r == ILLEGAL <==> !is_legal(old(self)@, action as int),
            r == ILLEGAL ==> final(self)@ == old(self)@,
            valid_board(final(self)@.board),
            total(final(self)@.board) == total(old(self)@.board),
    {
        // the game should not be ended
        if self.ended {
            return ILLEGAL;
        }
        // a code that names no player or no pit is rejected too
        if action < 0 {
            return ILLEGAL;
        }
        let actor = action / 10;
        let pit = action % 10;

        // the actor should be correct
        if actor != 1 && actor != 2 {
            return ILLEGAL;
        }
        if actor != self.actor {
            return ILLEGAL;
        }
        if pit < 1 || pit > 6 {
            return ILLEGAL;
        }
        let hole_index = (pit + (actor - 1) * 7 - 1) as usize;

        // the hole should not be empty
        if self.board[hole_index] == 0 {
            return ILLEGAL;
        }
        let ghost s0 = self@;
        let ghost m = action as int;
        let ghost p = actor as int;
        assert(is_legal(s0, m));
        proof {
            lemma_apply_valid(s0, m);
        }

        // get all pieces from this hole
        let mut pieces = self.board[hole_index];
        self.board[hole_index] = 0;
        assert(self@.board =~= s0.board.update(hole_index as int, 0));
        proof {
            lemma_sum_update(s0.board, 0, 14, hole_index as int, 0);
        }

        // sow!
        let mut current = Self::next_hole(hole_index);
        let mut last = current;
        while pieces > 0
            invariant
                0 <= current < 14,
                0 <= last < 14,
                p == 1 || p == 2,
                self.actor == p,
                self.ended == s0.ended,
                !s0.ended,
                is_legal(s0, m),
                self@.board.len() == 14,
                forall|k: int| 0 <= k < 14 ==> 0 <= #[trigger] self@.board[k],
                total(self@.board) + pieces == total(s0.board),
                total(s0.board) <= i32::MAX,
                pieces >= 0,
                sow(self@.board, current as int, pieces as nat, p) == sown(s0, m),
                pieces > 0 ==> last_drop(current as int, pieces as nat, p) == last_hole(s0, m),
                pieces == 0 ==> last as int == last_hole(s0, m),
            decreases pieces,
        {
            // the opponent's store is skipped
            if self.is_opponent_score_hole(current) {
                current = Self::next_hole(current);
            }
            let ghost before = self@.board;
            proof {
                lemma_sum_bound(before, 0, 14);
            }
            self.board[current] = self.board[current] + 1;
            assert(self@.board =~= before.update(current as int, before[current as int] + 1));
            proof {
                lemma_sum_update(before, 0, 14, current as int, before[current as int] + 1);
            }
            pieces = pieces - 1;
            last = current;
            current = Self::next_hole(current);
        }
        assert(self@.board == sown(s0, m));

        self.try_critical_hit(last);
        assert(self@.board == captured(s0, m));

        // the turn passes unless the last stone reached the mover's store
        if !self.can_move_again(last) {
            self.actor = 3 - self.actor;
        }
        if self.try_end() {
            ENDED
        } else {
            NOT_ENDED
        }
    }

    /// The hole after `hole_index`, counter-clockwise.
    fn next_hole(hole_index: usize) -> (r: usize)
        requires
            hole_index < 14,
        ensures
            r == next_of(hole_index as int),
            r < 14,
    {
        (hole_index + 1usize) % HOLE_NUMBER
    }

    /// Whether `hole_index` is the store of the opponent of the player to move.
    fn is_opponent_score_hole(&self, hole_index: usize) -> (r: bool)
        requires
            self.actor == 1 || self.actor == 2,
        ensures
            r == (hole_index == opponent_store(self.actor as int)),
    {
        self.actor == 1 && hole_index == PLAYER_2_SCORE_HOLE || self.actor == 2 && hole_index
            == PLAYER_1_SCORE_HOLE
    }

    /// Whether a last stone in `hole_index` grants the player to move another turn.
    fn can_move_again(&self, hole_index: usize) -> (r: bool)
        requires
            self.actor == 1 || self.actor == 2,
        ensures
            r == (hole_index == own_store(self.actor as int)),
    {
        self.actor == 1 && hole_index == PLAYER_1_SCORE_HOLE || self.actor == 2 && hole_index
            == PLAYER_2_SCORE_HOLE
    }

    /// The capture rule for a last stone of the player to move in `hole_index`.
    fn try_critical_hit(&mut self, hole_index: usize)
        requires
            hole_index < 14,
            old(self).actor == 1 || old(self).actor == 2,
            valid_board(old(self)@.board),
        ensures
            final(self)@.board == capture(old(self)@.board, hole_index as int, old(self).actor as int),
            final(self).actor == old(self).actor,
            final(self).ended == old(self).ended,
    {
        let ghost b = self@.board;
        if self.is_my_six_hole(hole_index) && self.board[hole_index] == 1
            && self.board[self.opposite_hole(hole_index)] > 0 {
            let store = self.my_score_hole();
            let opp = self.opposite_hole(hole_index);
            proof {
                lemma_sum_update(b, 0, 14, hole_index as int, 0);
                let c = b.update(hole_index as int, 0);
                assert forall|k: int| 0 <= k < 14 implies 0 <= #[trigger] c[k] by {}
                lemma_two_within_total(c, store as int, opp as int);
            }
            self.board[store] = self.board[store] + 1 + self.board[opp];
            self.board[hole_index] = 0;
            self.board[opp] = 0;
            assert(self@.board =~= capture(b, hole_index as int, self.actor as int));
        }
    }

    /// The store of the player to move.
    fn my_score_hole(&self) -> (r: usize)
        ensures
            r == own_store(self.actor as int),
    {
        if self.actor == 1 {
            PLAYER_1_SCORE_HOLE
        } else {
            PLAYER_2_SCORE_HOLE
        }
    }

    /// Whether `hole_index` is one of the six pits of the player to move.
    fn is_my_six_hole(&self, hole_index: usize) -> (r: bool)
        requires
            self.actor == 1 || self.actor == 2,
        ensures
            r == is_pit_of(self.actor as int, hole_index as int),
    {
        let first = ((self.actor - 1) * 7) as usize;
        first <= hole_index && hole_index < first + 6
    }

    /// The pit across the board from pit `hole_index`.
    fn opposite_hole(&self, hole_index: usize) -> (r: usize)
        requires
            hole_index < 14,
            hole_index != PLAYER_1_SCORE_HOLE,
            hole_index != PLAYER_2_SCORE_HOLE,
        ensures
            r == opposite(hole_index as int),
    {
        12 - hole_index
    }

    /// The termination rule: when player 1's pits are empty, player 2's pits
    /// go to player 2's store; then, when player 2's pits are empty, player
    /// 1's pits go to player 1's store. Either sweep ends the game.
    fn try_end(&mut self) -> (r: bool)
        requires
            valid_board(old(self)@.board),
        ensures
            final(self)@.board == settle(old(self)@.board),
            final(self).ended == (old(self).ended || settles(old(self)@.board)),
            final(self).actor == old(self).actor,
            r == final(self).ended,
    {
        let ghost b = self@.board;
        let mut piece_number = self.side_pieces(0);
        if piece_number == 0 {
            self.sweep_side(7, PLAYER_2_SCORE_HOLE);
            proof {
                lemma_swept_valid(b, 7, 13, 6);
            }
        }
        piece_number = self.side_pieces(7);
        if piece_number == 0 {
            self.sweep_side(0, PLAYER_1_SCORE_HOLE);
        }
        self.ended
    }

    /// Stones in the six pits from `first`.
    fn side_pieces(&self, first: usize) -> (r: i32)
        requires
            first == 0 || first == 7,
            valid_board(self@.board),
        ensures
            r == side_total(self@.board, first as int),
    {
        let ghost b = self@.board;
        proof {
            lemma_sum_split(b, 0, first as int, 14);
            lemma_sum_bound(b, 0, 14);
        }
        let mut piece_number: i32 = 0;
        let mut i: usize = first;
        while i < first + 6
            invariant
                first <= i <= first + 6,
                first == 0 || first == 7,
                valid_board(b),
                b == self@.board,
                piece_number == sum_range(b, first as int, i as int),
            decreases first + 6 - i,
        {
            proof {
                lemma_sum_split(b, 0, first as int, 14);
                lemma_sum_split(b, first as int, i as int + 1, 14);
                lemma_sum_bound(b, 0, first as int);
                lemma_sum_bound(b, i as int + 1, 14);
            }
            piece_number = piece_number + self.board[i];
            i = i + 1;
        }
        piece_number
    }

    /// Moves the stones of the six pits from `first` into `store` and ends the game.
    fn sweep_side(&mut self, first: usize, store: usize)
        requires
            (first == 0 && store == 6) || (first == 7 && store == 13),
            valid_board(old(self)@.board),
        ensures
            final(self)@.board == sweep(old(self)@.board, first as int, store as int),
            final(self).ended,
            final(self).actor == old(self).actor,
    {
        let ghost b = self@.board;
        let mut i: usize = first;
        assert(self@.board =~= swept(b, first as int, store as int, 0));
        while i < first + 6
            invariant
                first <= i <= first + 6,
                (first == 0 && store == 6) || (first == 7 && store == 13),
                valid_board(b),
                self@.board == swept(b, first as int, store as int, i - first),
                self.actor == old(self).actor,
                i > first ==> self.ended,
            decreases first + 6 - i,
        {
            let ghost c = self@.board;
            proof {
                lemma_swept_valid(b, first as int, store as int, i - first);
                lemma_two_within_total(c, store as int, i as int);
                lemma_swept_step(b, first as int, store as int, i - first);
            }
            self.board[store] = self.board[store] + self.board[i];
            self.board[i] = 0;
            self.ended = true;
            assert(self@.board =~= c.update(store as int, c[store as int] + c[i as int]).update(
                i as int,
                0,
            ));
            i = i + 1;
        }
    }
}

} // verus!
