//! The mathematical model of the game: board, legality, sowing, capture,
//! extra turn and termination, with the laws that hold of every move.
use vstd::prelude::*;

verus! {

/// Number of holes on the board: two rows of six pits and two stores.
pub const HOLE_NUMBER: usize = 14;
/// Player 1's store.
pub const PLAYER_1_SCORE_HOLE: usize = 6;
/// Player 2's store.
pub const PLAYER_2_SCORE_HOLE: usize = 13;

/// Outcome code of a legal move after which the game is over.
pub const ENDED: i32 = 15000;
/// Outcome code of a legal move after which play goes on.
pub const NOT_ENDED: i32 = 20000;
/// Outcome code of a rejected move.
pub const ILLEGAL: i32 = 30000;

/// Stones in a fresh game: four in each of the twelve pits.
pub const INITIAL_STONES: i32 = 48;

/// Abstract game state: the fourteen holes, the player to move and whether
/// the game is over.
pub ghost struct GameState {
    pub board: Seq<int>,
    pub actor: int,
    pub ended: bool,
}

/// Sum of `b[lo..hi]`.
pub open spec fn sum_range(b: Seq<int>, lo: int, hi: int) -> int
    decreases hi - lo,
{
    if hi <= lo {
        0
    } else {
        sum_range(b, lo, hi - 1) + b[hi - 1]
    }
}

/// All stones on the board.
pub open spec fn total(b: Seq<int>) -> int {
    sum_range(b, 0, 14)
}

/// Stones in the six pits that start at `first` (0 for player 1, 7 for player 2).
pub open spec fn side_total(b: Seq<int>, first: int) -> int {
    sum_range(b, first, first + 6)
}

/// A board that the engine can play on: fourteen non-negative holes whose
/// total fits in an `i32`.
pub open spec fn valid_board(b: Seq<int>) -> bool {
    &&& b.len() == 14
    &&& forall|i: int| 0 <= i < 14 ==> 0 <= #[trigger] b[i]
    &&& total(b) <= i32::MAX
}

/// The board of a fresh game.
pub open spec fn initial_board() -> Seq<int> {
    Seq::new(14, |i: int| if i == 6 || i == 13 { 0 } else { 4 })
}

/// A fresh game in which `first` moves first.
pub open spec fn fresh(first: int) -> GameState {
    GameState { board: initial_board(), actor: first, ended: false }
}

/// The hole after `h`, counter-clockwise.
pub open spec fn next_of(h: int) -> int {
    (h + 1) % 14
}

/// Store of player `p`.
pub open spec fn own_store(p: int) -> int {
    if p == 1 {
        6
    } else {
        13
    }
}

/// Store of the opponent of player `p`, which `p`'s sowing skips.
pub open spec fn opponent_store(p: int) -> int {
    if p == 1 {
        13
    } else {
        6
    }
}

/// First pit of player `p`.
pub open spec fn first_pit(p: int) -> int {
    (p - 1) * 7
}

/// Whether `h` is one of the six pits of player `p`.
pub open spec fn is_pit_of(p: int, h: int) -> bool {
    first_pit(p) <= h < first_pit(p) + 6
}

/// The pit across the board from pit `h`.
pub open spec fn opposite(h: int) -> int {
    12 - h
}

/// The player encoded in move `m`.
pub open spec fn mover_of(m: int) -> int {
    m / 10
}

/// The 1-based pit, from the mover's side, encoded in move `m`.
pub open spec fn pit_of(m: int) -> int {
    m % 10
}

/// The hole that move `m` empties.
pub open spec fn source_of(m: int) -> int {
    pit_of(m) + first_pit(mover_of(m)) - 1
}

/// Move `m` may be played in `s`: the game is not over, `m` names the player
/// to move and one of that player's six pits, and that pit holds stones.
pub open spec fn is_legal(s: GameState, m: int) -> bool {
    &&& !s.ended
    &&& m >= 0
    &&& (mover_of(m) == 1 || mover_of(m) == 2)
    &&& mover_of(m) == s.actor
    &&& 1 <= pit_of(m) <= 6
    &&& s.board[source_of(m)] > 0
}

/// Where the stone goes when the cursor of player `p`'s sowing stands at `c`.
pub open spec fn drop_hole(c: int, p: int) -> int {
    if c == opponent_store(p) {
        next_of(c)
    } else {
        c
    }
}

/// `b` after player `p` sows `n` stones one by one from cursor `c` on.
pub open spec fn sow(b: Seq<int>, c: int, n: nat, p: int) -> Seq<int>
    decreases n,
{
    if n == 0 {
        b
    } else {
        let d = drop_hole(c, p);
        sow(b.update(d, b[d] + 1), next_of(d), (n - 1) as nat, p)
    }
}

/// The hole that receives the last of `n` stones sown by `p` from cursor `c`.
pub open spec fn last_drop(c: int, n: nat, p: int) -> int
    decreases n,
{
    if n <= 1 {
        drop_hole(c, p)
    } else {
        last_drop(next_of(drop_hole(c, p)), (n - 1) as nat, p)
    }
}

/// Whether the last stone of player `p`, in hole `h` of `b`, captures.
pub open spec fn captures(b: Seq<int>, h: int, p: int) -> bool {
    is_pit_of(p, h) && b[h] == 1 && b[opposite(h)] > 0
}

/// `b` after the capture rule for a last stone of player `p` in hole `h`.
pub open spec fn capture(b: Seq<int>, h: int, p: int) -> Seq<int> {
    if captures(b, h, p) {
        b.update(own_store(p), b[own_store(p)] + 1 + b[opposite(h)]).update(h, 0).update(
            opposite(h),
            0,
        )
    } else {
        b
    }
}

/// `b` with the first `i` of the six pits from `first` moved into `store`.
pub open spec fn swept(b: Seq<int>, first: int, store: int, i: int) -> Seq<int> {
    Seq::new(
        14,
        |k: int|
            if first <= k < first + i {
                0
            } else if k == store {
                b[store] + sum_range(b, first, first + i)
            } else {
                b[k]
            },
    )
}

/// `b` with the six pits from `first` moved into `store`.
pub open spec fn sweep(b: Seq<int>, first: int, store: int) -> Seq<int> {
    swept(b, first, store, 6)
}

/// Whether a move that left board `b` ends the game: one side is empty.
pub open spec fn settles(b: Seq<int>) -> bool {
    side_total(b, 0) == 0 || side_total(b, 7) == 0
}

/// The termination rule: when player 1's pits are empty, player 2's pits go
/// to player 2's store; then, when player 2's pits are empty, player 1's pits
/// go to player 1's store.
pub open spec fn settle(b: Seq<int>) -> Seq<int> {
    let b1 = if side_total(b, 0) == 0 {
        sweep(b, 7, 13)
    } else {
        b
    };
    if side_total(b1, 7) == 0 {
        sweep(b1, 0, 6)
    } else {
        b1
    }
}

/// The board after the stones of the source pit of `m` are sown.
pub open spec fn sown(s: GameState, m: int) -> Seq<int> {
    let src = source_of(m);
    sow(s.board.update(src, 0), next_of(src), s.board[src] as nat, s.actor)
}

/// The hole that receives the last stone of move `m`.
pub open spec fn last_hole(s: GameState, m: int) -> int {
    let src = source_of(m);
    last_drop(next_of(src), s.board[src] as nat, s.actor)
}

/// The board after sowing and capture, before the termination rule.
pub open spec fn captured(s: GameState, m: int) -> Seq<int> {
    capture(sown(s, m), last_hole(s, m), s.actor)
}

/// Whether move `m` ends in the mover's own store and so grants another turn.
pub open spec fn extra_turn(s: GameState, m: int) -> bool {
    last_hole(s, m) == own_store(s.actor)
}

/// The state after the legal move `m`.
pub open spec fn apply(s: GameState, m: int) -> GameState {
    GameState {
        board: settle(captured(s, m)),
        actor: if extra_turn(s, m) {
            s.actor
        } else {
            3 - s.actor
        },
        ended: settles(captured(s, m)),
    }
}

/// The state after move `m`: the move is played if legal, else nothing changes.
pub open spec fn step(s: GameState, m: int) -> GameState {
    if is_legal(s, m) {
        apply(s, m)
    } else {
        s
    }
}

/// The state after each move of `moves` in turn, rejected ones changing nothing.
pub open spec fn play(s: GameState, moves: Seq<int>) -> GameState
    decreases moves.len(),
{
    if moves.len() == 0 {
        s
    } else {
        step(play(s, moves.drop_last()), moves.last())
    }
}

/// Changing `b[d]` to `v` changes each range sum that covers `d` by `v - b[d]`.
pub proof fn lemma_sum_update(b: Seq<int>, lo: int, hi: int, d: int, v: int)
    requires
        0 <= lo,
        hi <= b.len(),
        0 <= d < b.len(),
    ensures
        sum_range(b.update(d, v), lo, hi) == sum_range(b, lo, hi) + (if lo <= d < hi {
            v - b[d]
        } else {
            0
        }),
    decreases hi - lo,
{
    if hi > lo {
        lemma_sum_update(b, lo, hi - 1, d, v);
    }
}

/// A range sum of non-negative values is non-negative and bounds each value.
pub proof fn lemma_sum_bound(b: Seq<int>, lo: int, hi: int)
    requires
        0 <= lo,
        hi <= b.len(),
        forall|i: int| lo <= i < hi ==> 0 <= #[trigger] b[i],
    ensures
        0 <= sum_range(b, lo, hi),
        forall|k: int| lo <= k < hi ==> #[trigger] b[k] <= sum_range(b, lo, hi),
    decreases hi - lo,
{
    if hi > lo {
        lemma_sum_bound(b, lo, hi - 1);
    }
}

/// A range sum of non-negative values is zero exactly when every value is.
pub proof fn lemma_sum_zero(b: Seq<int>, lo: int, hi: int)
    requires
        0 <= lo,
        hi <= b.len(),
        forall|i: int| lo <= i < hi ==> 0 <= #[trigger] b[i],
    ensures
        sum_range(b, lo, hi) == 0 <==> forall|k: int| lo <= k < hi ==> #[trigger] b[k] == 0,
    decreases hi - lo,
{
    if hi > lo {
        lemma_sum_zero(b, lo, hi - 1);
        lemma_sum_bound(b, lo, hi - 1);
    }
}

/// A range sum splits at any point in between.
pub proof fn lemma_sum_split(b: Seq<int>, lo: int, mid: int, hi: int)
    requires
        lo <= mid <= hi,
    ensures
        sum_range(b, lo, hi) == sum_range(b, lo, mid) + sum_range(b, mid, hi),
    decreases hi - mid,
{
    if hi > mid {
        lemma_sum_split(b, lo, mid, hi - 1);
    }
}

/// On a board of non-negative holes, two distinct holes together hold at most
/// all stones.
pub proof fn lemma_two_within_total(b: Seq<int>, i: int, j: int)
    requires
        b.len() == 14,
        forall|k: int| 0 <= k < 14 ==> 0 <= #[trigger] b[k],
        0 <= i < 14,
        0 <= j < 14,
        i != j,
    ensures
        b[i] + b[j] <= total(b),
{
    lemma_sum_update(b, 0, 14, i, 0);
    let c = b.update(i, 0);
    assert forall|k: int| 0 <= k < 14 implies 0 <= #[trigger] c[k] by {}
    lemma_sum_bound(c, 0, 14);
    assert(c[j] == b[j]);
    assert(c[j] <= sum_range(c, 0, 14));
}

/// Sweeping one more pit is two updates of the board.
pub proof fn lemma_swept_step(b: Seq<int>, first: int, store: int, i: int)
    requires
        b.len() == 14,
        (first == 0 && store == 6) || (first == 7 && store == 13),
        0 <= i < 6,
    ensures
        ({
            let c = swept(b, first, store, i);
            swept(b, first, store, i + 1) == c.update(store, c[store] + c[first + i]).update(
                first + i,
                0,
            )
        }),
{
    let c = swept(b, first, store, i);
    assert(swept(b, first, store, i + 1) =~= c.update(store, c[store] + c[first + i]).update(
        first + i,
        0,
    ));
}

/// A sweep keeps every stone and every hole non-negative.
pub proof fn lemma_swept_valid(b: Seq<int>, first: int, store: int, i: int)
    requires
        valid_board(b),
        (first == 0 && store == 6) || (first == 7 && store == 13),
        0 <= i <= 6,
    ensures
        valid_board(swept(b, first, store, i)),
        total(swept(b, first, store, i)) == total(b),
    decreases i,
{
    if i == 0 {
        assert(swept(b, first, store, 0) =~= b);
    } else {
        lemma_swept_valid(b, first, store, i - 1);
        lemma_swept_step(b, first, store, i - 1);
        let c = swept(b, first, store, i - 1);
        lemma_sum_update(c, 0, 14, store, c[store] + c[first + i - 1]);
        let c1 = c.update(store, c[store] + c[first + i - 1]);
        lemma_sum_update(c1, 0, 14, first + i - 1, 0);
    }
}

/// Sowing adds its stones to the board and keeps every hole non-negative.
pub proof fn lemma_sow_valid(b: Seq<int>, c: int, n: nat, p: int)
    requires
        b.len() == 14,
        forall|k: int| 0 <= k < 14 ==> 0 <= #[trigger] b[k],
        0 <= c < 14,
    ensures
        sow(b, c, n, p).len() == 14,
        forall|k: int| 0 <= k < 14 ==> 0 <= #[trigger] sow(b, c, n, p)[k],
        total(sow(b, c, n, p)) == total(b) + n,
        0 <= last_drop(c, n, p) < 14,
    decreases n,
{
    if n > 0 {
        let d = drop_hole(c, p);
        lemma_sum_update(b, 0, 14, d, b[d] + 1);
        lemma_sow_valid(b.update(d, b[d] + 1), next_of(d), (n - 1) as nat, p);
    }
}

/// The capture rule keeps every stone and every hole non-negative.
pub proof fn lemma_capture_valid(b: Seq<int>, h: int, p: int)
    requires
        valid_board(b),
        0 <= h < 14,
        p == 1 || p == 2,
    ensures
        valid_board(capture(b, h, p)),
        total(capture(b, h, p)) == total(b),
{
    if captures(b, h, p) {
        let s = own_store(p);
        let o = opposite(h);
        let b1 = b.update(s, b[s] + 1 + b[o]);
        let b2 = b1.update(h, 0);
        lemma_sum_update(b, 0, 14, s, b[s] + 1 + b[o]);
        lemma_sum_update(b1, 0, 14, h, 0);
        lemma_sum_update(b2, 0, 14, o, 0);
    }
}

/// The termination rule keeps every stone and every hole non-negative.
pub proof fn lemma_settle_valid(b: Seq<int>)
    requires
        valid_board(b),
    ensures
        valid_board(settle(b)),
        total(settle(b)) == total(b),
{
    lemma_swept_valid(b, 7, 13, 6);
    let b1 = if side_total(b, 0) == 0 {
        sweep(b, 7, 13)
    } else {
        b
    };
    lemma_swept_valid(b1, 0, 6, 6);
}

/// A legal move keeps every stone and every hole non-negative.
pub proof fn lemma_apply_valid(s: GameState, m: int)
    requires
        valid_board(s.board),
        is_legal(s, m),
    ensures
        valid_board(apply(s, m).board),
        total(apply(s, m).board) == total(s.board),
        0 <= last_hole(s, m) < 14,
        valid_board(sown(s, m)),
        valid_board(captured(s, m)),
        total(captured(s, m)) == total(s.board),
{
    let src = source_of(m);
    let b0 = s.board.update(src, 0);
    lemma_sum_update(s.board, 0, 14, src, 0);
    lemma_sow_valid(b0, next_of(src), s.board[src] as nat, s.actor);
    lemma_capture_valid(sown(s, m), last_hole(s, m), s.actor);
    lemma_settle_valid(captured(s, m));
}

/// Any sequence of moves keeps every stone and every hole non-negative.
pub proof fn lemma_play_valid(s: GameState, moves: Seq<int>)
    requires
        valid_board(s.board),
    ensures
        valid_board(play(s, moves).board),
        total(play(s, moves).board) == total(s.board),
    decreases moves.len(),
{
    if moves.len() > 0 {
        let prev = play(s, moves.drop_last());
        lemma_play_valid(s, moves.drop_last());
        if is_legal(prev, moves.last()) {
            lemma_apply_valid(prev, moves.last());
        }
    }
}

/// A fresh board holds 48 stones.
pub proof fn lemma_initial_total()
    ensures
        valid_board(initial_board()),
        total(initial_board()) == INITIAL_STONES,
{
    reveal_with_fuel(sum_range, 15);
}

/// Conservation: in every state reached from a fresh game, by any sequence
/// of moves, the board holds exactly 48 stones and no hole is negative.
pub proof fn law_stones_conserved(first: int, moves: Seq<int>)
    ensures
        total(play(fresh(first), moves).board) == INITIAL_STONES,
        forall|i: int| 0 <= i < 14 ==> 0 <= #[trigger] play(fresh(first), moves).board[i],
        play(fresh(first), moves).board.len() == 14,
{
    lemma_initial_total();
    lemma_play_valid(fresh(first), moves);
}

/// Turn order: a legal move hands the turn to the other player unless its
/// last stone lands in the mover's own store, in which case the mover plays
/// again.
pub proof fn law_turn(s: GameState, m: int)
    requires
        is_legal(s, m),
    ensures
        last_hole(s, m) != own_store(s.actor) ==> apply(s, m).actor == 3 - s.actor
            && apply(s, m).actor != s.actor,
        last_hole(s, m) == own_store(s.actor) ==> apply(s, m).actor == s.actor,
{
}

/// Capture: when the last stone lands in an empty pit of the mover and the
/// pit across holds stones, both pits end up empty and the mover's store
/// gains that stone and the ones across; unless the move also ends the game,
/// this is the store's final count.
pub proof fn law_capture(s: GameState, m: int)
    requires
        valid_board(s.board),
        is_legal(s, m),
        is_pit_of(s.actor, last_hole(s, m)),
        sown(s, m)[last_hole(s, m)] == 1,
        sown(s, m)[opposite(last_hole(s, m))] > 0,
    ensures
        ({
            let h = last_hole(s, m);
            let b = sown(s, m);
            let store = own_store(s.actor);
            &&& captured(s, m)[h] == 0
            &&& captured(s, m)[opposite(h)] == 0
            &&& captured(s, m)[store] == b[store] + 1 + b[opposite(h)]
            &&& apply(s, m).board[h] == 0
            &&& apply(s, m).board[opposite(h)] == 0
            &&& !apply(s, m).ended ==> apply(s, m).board[store] == b[store] + 1 + b[opposite(h)]
        }),
{
    lemma_apply_valid(s, m);
}

/// Termination: when a move leaves either row of pits empty, the game ends,
/// every pit is emptied and each row's remaining stones go to its owner's
/// store. Otherwise the game goes on with the board as sowing and capture
/// left it.
pub proof fn law_termination(s: GameState, m: int)
    requires
        valid_board(s.board),
        is_legal(s, m),
    ensures
        ({
            let c = captured(s, m);
            let r = apply(s, m);
            &&& settles(c) ==> {
                &&& r.ended
                &&& forall|i: int| 0 <= i < 6 ==> #[trigger] r.board[i] == 0 && r.board[i + 7] == 0
                &&& r.board[6] == c[6] + side_total(c, 0)
                &&& r.board[13] == c[13] + side_total(c, 7)
            }
            &&& !settles(c) ==> !r.ended && r.board == c
        }),
{
    lemma_apply_valid(s, m);
    let c = captured(s, m);
    lemma_sum_zero(c, 0, 6);
    lemma_sum_zero(c, 7, 13);
    if side_total(c, 0) == 0 {
        let b1 = sweep(c, 7, 13);
        lemma_swept_valid(c, 7, 13, 6);
        lemma_sum_zero(b1, 7, 13);
        lemma_sum_zero(b1, 0, 6);
    } else if side_total(c, 7) == 0 {
        lemma_swept_valid(c, 0, 6, 6);
    }
}

} // verus!
