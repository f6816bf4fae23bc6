use vstd::prelude::*;
use crate::board::{Board, Color, Piece, Position, move_fits, make_position, unmove_of_position, lemma_unmake_inverts_make, capture_flag, behind, piece_of_kind, castle_attacked, king_attacked};
use crate::constants::{MAX_DEPTH, INFINITE, CHECKMATE};
use crate::evaluate::Evaluate;
use crate::movegen::{MoveGenerator, MoveList, has_king, pseudo_legal_moves};
use crate::bitboard::{has_bit, lemma_bits_ext};
use crate::movepick::{MovePicker, MoveEntry, ScoreStage, swapped_out, first_best, lemma_first_best_exists, lemma_swap_removed, lemma_scored_moves, scored};
use crate::mv::Move;
use crate::tables::Tables;

verus! {

/// An instant of the monotonic clock.
#[verifier::external_type_specification]
#[verifier::external_body]
pub struct ExInstant(std::time::Instant);

/// The current instant (`std::time::Instant::now`); nothing is claimed of
/// it.
#[verifier::external_body]
fn instant_now() -> (r: std::time::Instant) {
    std::time::Instant::now()
}

/// The time elapsed since an instant (`std::time::Instant::elapsed`);
/// nothing is claimed of it, as it depends on the clock.
#[verifier::external_body]
fn elapsed_since(start: &std::time::Instant) -> (r: core::time::Duration) {
    start.elapsed()
}

/// The whole nanoseconds of a duration (`Duration::as_nanos`); a duration
/// is opaque here, so nothing is claimed of the number.
#[verifier::external_body]
fn duration_nanos(d: &core::time::Duration) -> (r: u128) {
    d.as_nanos()
}

/// The whole milliseconds of a duration (`Duration::as_millis`); a
/// duration is opaque here, so nothing is claimed of the number.
#[verifier::external_body]
fn duration_millis(d: &core::time::Duration) -> (r: u128) {
    d.as_millis()
}

/// A hash builder with fresh random keys (`RandomState::new`); nothing is
/// claimed of its keys.
#[verifier::external_body]
fn fresh_random_state() -> (r: std::hash::RandomState) {
    std::hash::RandomState::new()
}

/// The hash of the unit value under a hash builder's keys
/// (`BuildHasher::hash_one`): the digest of a hasher that was written
/// nothing. It depends on the random keys, so nothing is claimed of it.
#[verifier::external_body]
fn random_bits(state: &std::hash::RandomState) -> (r: u64) {
    std::hash::BuildHasher::hash_one(state, ())
}

/// The principal variations of a search: row `k` holds the best line found
/// from ply `k`.
pub struct PvTable {
    table: [Move; 4096],
    length: [usize; 64],
}

/// The line stored in row `ply` of a table.
pub open spec fn pv_row(table: Seq<Move>, length: Seq<usize>, ply: int) -> Seq<Move> {
    table.subrange(ply * 64, ply * 64 + length[ply])
}

impl PvTable {
    pub closed spec fn wf(&self) -> bool {
        forall|k: int| 0 <= k < 64 ==> #[trigger] self.length[k] <= 64 - k
    }

    /// The line of row `ply`.
    pub closed spec fn line(&self, ply: int) -> Seq<Move> {
        pv_row(self.table@, self.length@, ply)
    }

    /// A table whose lines are all empty.
    pub fn new() -> (t: PvTable)
        ensures
            t.wf(),
            t.cells().len() == 4096,
            t.lengths().len() == 64,
            forall|k: int| 0 <= k < 64 ==> #[trigger] t.lengths()[k] == 0,
            forall|k: int| 0 <= k < 64 ==> #[trigger] t.line(k) == Seq::<Move>::empty(),
    {
        let null = Move::null();
        let t = PvTable { table: [null; 4096], length: [0; 64] };
        assert forall|k: int| 0 <= k < 64 implies #[trigger] t.line(k) == Seq::<Move>::empty() by {
            assert(t.line(k) =~= Seq::<Move>::empty());
        }
        t
    }

    /// Empties every line.
    pub fn clear(&mut self)
        ensures
            final(self).wf(),
            final(self).cells().len() == 4096,
            final(self).lengths().len() == 64,
            forall|k: int| 0 <= k < 64 ==> #[trigger] final(self).lengths()[k] == 0,
            forall|k: int| 0 <= k < 64 ==> #[trigger] final(self).line(k) == Seq::<Move>::empty(),
    {
        let null = Move::null();
        self.table = [null; 4096];
        self.length = [0; 64];
        assert forall|k: int| 0 <= k < 64 implies #[trigger] self.line(k) == Seq::<Move>::empty() by {
            assert(self.line(k) =~= Seq::<Move>::empty());
        }
    }

    /// The cells of the table, row `k` from cell `64 * k` on.
    pub closed spec fn cells(&self) -> Seq<Move> {
        self.table@
    }

    /// The length of the line of each row.
    pub closed spec fn lengths(&self) -> Seq<usize> {
        self.length@
    }

    /// Every table has 64 rows of 64 cells, and in a well-formed one the
    /// line of row `k` has at most `64 - k` moves.
    pub proof fn lemma_shape(&self)
        ensures
            self.cells().len() == 4096,
            self.lengths().len() == 64,
            self.wf() ==> forall|k: int| 0 <= k < 64 ==> #[trigger] self.lengths()[k] <= 64 - k,
            self.wf() ==> forall|k: int| 0 <= k < 64 ==> #[trigger] self.line(k).len() == self.lengths()[k],
    {
        assert forall|k: int| 0 <= k < 64 && self.wf() implies #[trigger] self.line(k).len() == self.lengths()[k] by {
            assert(self.length[k] <= 64 - k);
        }
    }

    /// Makes the line of `ply` the move followed by the line of `ply + 1`,
    /// copying that line into row `ply` after the move; does nothing from
    /// ply `MAX_DEPTH - 1` on. Every other cell and length stays.
    pub fn store(&mut self, ply: usize, mv: Move)
        requires
            ply < MAX_DEPTH - 1 ==> old(self).lengths()[ply + 1] < 64,
        ensures
            ply >= MAX_DEPTH - 1 ==> *final(self) == *old(self),
            final(self).lengths().len() == 64,
            final(self).cells().len() == 4096,
            ply < MAX_DEPTH - 1 ==> {
                let n = old(self).lengths()[ply + 1] as int;
                let at = ply * 64;
                &&& final(self).lengths() == old(self).lengths().update(ply as int, (n + 1) as usize)
                &&& final(self).cells().len() == 4096
                &&& final(self).cells()[at] == mv
                &&& forall|k: int| 0 <= k < n ==> #[trigger] final(self).cells()[at + 1 + k] == old(self).cells()[(ply + 1) * 64 + k]
                &&& forall|q: int| 0 <= q < 4096 && !(at <= q <= at + n) ==> #[trigger] final(self).cells()[q] == old(self).cells()[q]
            },
            old(self).wf() ==> final(self).wf(),
            old(self).wf() && ply < MAX_DEPTH - 1 ==> final(self).line(ply as int) == seq![mv] + old(self).line(ply + 1),
            old(self).wf() ==> forall|k: int| 0 <= k < 64 && k != ply ==> #[trigger] final(self).line(k) == old(self).line(k),
    {
        if ply >= MAX_DEPTH - 1 {
            return;
        }
        let ghost t0 = self.table@;
        let ghost l0 = self.length@;
        let index = ply * MAX_DEPTH;
        let next_index = (ply + 1) * MAX_DEPTH;
        let copy_len = self.length[ply + 1];
        self.table[index] = mv;
        let mut i: usize = 0;
        while i < copy_len
            invariant
                ply < 63,
                index == ply * 64,
                next_index == (ply + 1) * 64,
                copy_len == l0[ply + 1],
                copy_len < 64,
                i <= copy_len,
                self.table@.len() == 4096,
                self.length@ == l0,
                self.table@[index as int] == mv,
                forall|j: int| 0 <= j < i ==> #[trigger] self.table@[index + 1 + j] == t0[next_index + j],
                forall|q: int| 0 <= q < 4096 && !(index <= q < index + 1 + i) ==> #[trigger] self.table@[q] == t0[q],
            decreases copy_len - i,
        {
            let v = self.table[next_index + i];
            self.table[index + 1 + i] = v;
            i += 1;
        }
        self.length[ply + 1 - 1] = copy_len + 1;
        proof {
            assert(t0.len() == 4096);
            assert(self.length@ == l0.update(ply as int, (copy_len + 1) as usize));
            if forall|k: int| 0 <= k < 64 ==> #[trigger] l0[k] <= 64 - k {
                let row = pv_row(t0, l0, ply + 1);
                assert forall|j: int| 0 <= j < copy_len + 1 implies #[trigger] self.line(ply as int)[j] == (seq![mv] + row)[j] by {
                    if j > 0 {
                        assert(self.table@[index + 1 + (j - 1)] == t0[next_index + (j - 1)]);
                    }
                }
                assert(self.line(ply as int) =~= seq![mv] + row);
                assert forall|k: int| 0 <= k < 64 && k != ply implies #[trigger] self.line(k) == pv_row(t0, l0, k) by {
                    assert(self.line(k) =~= pv_row(t0, l0, k));
                }
            }
        }
    }

    /// The line of the root.
    pub fn get_pv(&self) -> (r: &[Move])
        requires
            self.wf(),
        ensures
            r@ == self.line(0),
    {
        let len = self.length[0];
        vstd::slice::slice_subrange(self.table.as_slice(), 0, len)
    }
}

/// The depth and the time a search may use; no limit where `None`.
pub struct SearchLimits {
    pub max_depth: Option<u8>,
    pub max_move_time: Option<u64>,
}

/// The state of a search: counters, the clock, the principal variations
/// and whether the time ran out.
pub struct Search {
    pub nodes: u64,
    pub root_depth: u8,
    pub sel_depth: usize,
    pub start_time: std::time::Instant,
    /// Time for the search, in nanoseconds.
    pub max_move_time: u128,
    pub pv_table: PvTable,
    pub is_aborted: bool,
    /// The search met a position where the engine would panic: no king for
    /// the side to move, more moves than a list holds, or a counter that
    /// would overflow.
    pub fault: bool,
}

impl Search {
    pub open spec fn is_fresh(&self) -> bool {
        &&& self.nodes == 0
        &&& self.root_depth == 0
        &&& self.sel_depth == 0
        &&& self.max_move_time == 0
        &&& !self.is_aborted
        &&& !self.fault
        &&& self.pv_table.wf()
        &&& forall|k: int| 0 <= k < 64 ==> #[trigger] self.pv_table.line(k) == Seq::<Move>::empty()
    }

    /// A search with zero counters, started now.
    pub fn new() -> (s: Search)
        ensures
            s.is_fresh(),
    {
        Search {
            nodes: 0,
            root_depth: 0,
            sel_depth: 0,
            start_time: instant_now(),
            max_move_time: 0,
            pv_table: PvTable::new(),
            is_aborted: false,
            fault: false,
        }
    }

    /// Resets the counters, the lines and the clock.
    pub fn clear(&mut self)
        ensures
            final(self).is_fresh(),
    {
        self.nodes = 0;
        self.root_depth = 0;
        self.sel_depth = 0;
        self.start_time = instant_now();
        self.max_move_time = 0;
        self.pv_table.clear();
        self.is_aborted = false;
        self.fault = false;
    }
}

// ---------------------------------------------------------------------------
// Searching.
// ---------------------------------------------------------------------------

/// The node count after one more node: counting wraps around at the top.
pub open spec fn next_count(n: u64) -> u64 {
    if n == u64::MAX {
        0
    } else {
        (n + 1) as u64
    }
}

/// Evaluations stay within this bound, and so do the mate and infinity
/// scores; a search may also give an end of its window.
pub const SCORE_BOUND: i32 = 160000;

/// A score that a search with the window `(alpha, beta)` may give: within
/// the bound, or one of the window's ends.
pub open spec fn window_score(r: int, alpha: int, beta: int) -> bool {
    -SCORE_BOUND <= r <= SCORE_BOUND || r == alpha || r == beta
}

/// Number of occupied squares among the first `n`.
pub open spec fn occupied(mb: Seq<Option<Piece>>, n: int) -> nat
    decreases n,
{
    if n <= 0 {
        0
    } else {
        occupied(mb, n - 1) + if mb[n - 1] is Some { 1nat } else { 0nat }
    }
}

proof fn lemma_occupied_update(mb: Seq<Option<Piece>>, i: int, v: Option<Piece>, n: int)
    requires
        0 <= i < 64,
        0 <= n <= 64,
        mb.len() == 64,
    ensures
        occupied(mb.update(i, v), n) as int == occupied(mb, n) as int + if i < n {
            (if v is Some { 1int } else { 0int }) - (if mb[i] is Some { 1int } else { 0int })
        } else {
            0int
        },
    decreases n,
{
    if n > 0 {
        lemma_occupied_update(mb, i, v, n - 1);
    }
}

proof fn lemma_occupied_bound(mb: Seq<Option<Piece>>, n: int)
    requires
        0 <= n,
    ensures
        occupied(mb, n) <= n,
    decreases n,
{
    if n > 0 {
        lemma_occupied_bound(mb, n - 1);
    }
}

/// A capture takes a piece off the board: the board holds one piece less
/// after it.
pub proof fn lemma_capture_shrinks(p: Position, mv: Move)
    requires
        move_fits(p, mv),
        capture_flag(mv.flag_bits()),
        mv.flag_bits() == 5 || p.mailbox[mv.to_sq() as int] is Some,
    ensures
        occupied(make_position(p, mv).mailbox, 64) < occupied(p.mailbox, 64),
{
    mv.lemma_squares();
    let f = mv.from_sq() as int;
    let t = mv.to_sq() as int;
    let code = mv.flag_bits();
    let c = p.active_color;
    let mb = p.mailbox;
    let q = make_position(p, mv);
    assert(code & 4 != 0 ==> code != 2 && code != 3) by (bit_vector);
    if code == 5 {
        let b = behind(c, t);
        let m1 = mb.update(b, None);
        lemma_occupied_update(mb, b, None, 64);
        let m2 = m1.update(f, None);
        lemma_occupied_update(m1, f, None, 64);
        lemma_occupied_update(m2, t, Some(crate::board::placed_piece(p, mv)), 64);
        assert(q.mailbox == m2.update(t, Some(crate::board::placed_piece(p, mv))));
    } else {
        let m2 = mb.update(f, None);
        lemma_occupied_update(mb, f, None, 64);
        lemma_occupied_update(m2, t, Some(crate::board::placed_piece(p, mv)), 64);
        assert(q.mailbox == m2.update(t, Some(crate::board::placed_piece(p, mv))));
    }
}

/// Whether the side to move has a king.
pub fn side_has_king(board: &Board) -> (r: bool)
    requires
        board.wf(),
    ensures
        r == has_king(*board),
        r == (board.pieces[crate::board::bb_index(5, board.active_color)] != 0),
{
    let k = if board.active_color == Color::White { board.pieces[5] } else { board.pieces[11] };
    let ghost mb = board.mailbox@;
    let ghost c = board.active_color;
    let ghost pk = |s: int| crate::movegen::own(mb, s, 5, c);
    proof {
        assert forall|s: int| 0 <= s < 64 implies #[trigger] crate::bitboard::has_bit(k, s) == (0 <= s && pk(s)) by {
            if c == Color::White {
                assert(crate::bitboard::has_bit(board.pieces[5], s) == (mb[s] == Some(crate::board::piece_of(5))));
            } else {
                assert(crate::bitboard::has_bit(board.pieces[11], s) == (mb[s] == Some(crate::board::piece_of(11))));
            }
        }
        crate::movegen::lemma_bit_squares(k, pk, 0);
        if k != 0 {
            crate::movegen::lemma_bit_squares_step(k);
        }
    }
    k != 0
}

/// A well-formed board of a position, where there is one.
pub open spec fn board_of(p: Position) -> Board {
    choose|b: Board| b.wf() && b@ == p
}

/// The evaluation of a position from the side to move.
pub open spec fn stand_pat(p: Position) -> int {
    let b = board_of(p);
    if b.active_color == Color::White {
        crate::evaluate::eval_of(b)
    } else {
        -crate::evaluate::eval_of(b)
    }
}

/// The moves that quiescence search tries in a position: legal captures
/// that take a piece, or take en passant.
pub open spec fn searched_capture(p: Position, m: Move) -> bool {
    &&& move_fits(p, m)
    &&& capture_flag(m.flag_bits())
    &&& (m.flag_bits() == 5 || p.mailbox[m.to_sq() as int] is Some)
    &&& legal_on(&board_of(p), m)
}

pub open spec fn max_int(a: int, b: int) -> int {
    if a >= b {
        a
    } else {
        b
    }
}

/// The quiescence value of a position: the better of standing on its
/// evaluation and the best capture, each capture scored by the negated
/// quiescence value of the position it leads to.
pub open spec fn quiescence_value(p: Position) -> int
    decreases occupied(p.mailbox, 64), 1int, 0int,
{
    quiescence_best(p, pseudo_legal_moves(board_of(p)), pseudo_legal_moves(board_of(p)).len() as int)
}

/// The better of standing on the evaluation and the best capture among the
/// first `k` moves of `moves`.
pub open spec fn quiescence_best(p: Position, moves: Seq<Move>, k: int) -> int
    decreases occupied(p.mailbox, 64), 0int, k,
{
    if k <= 0 {
        stand_pat(p)
    } else {
        let prev = quiescence_best(p, moves, k - 1);
        let m = moves[k - 1];
        if searched_capture(p, m) {
            proof {
                lemma_capture_shrinks(p, m);
            }
            max_int(prev, -quiescence_value(make_position(p, m)))
        } else {
            prev
        }
    }
}

/// A move that making tests: it can be made, the mover has a king and the
/// move does not take it.
pub open spec fn tried_move(p: Position, m: Move) -> bool {
    &&& move_fits(p, m)
    &&& has_king(board_of(p))
    &&& p.mailbox[m.to_sq() as int] != Some(piece_of_kind(5, p.active_color))
}

/// A capture that quiescence search tests by making it: a capture onto a
/// piece, or en passant, that making tests.
pub open spec fn tried_capture(p: Position, m: Move) -> bool {
    &&& capture_flag(m.flag_bits())
    &&& (m.flag_bits() == 5 || p.mailbox[m.to_sq() as int] is Some)
    &&& tried_move(p, m)
}

/// Quiescence search from a position, `ply` moves into the history, meets
/// nothing on which the engine would panic: at every position it reaches
/// the side to move has a king and at most `MAX_MOVES` pseudo-legal moves,
/// and every capture it tests can be made without a counter overflowing.
pub open spec fn quiescence_safe(p: Position, ply: nat) -> bool
    decreases occupied(p.mailbox, 64), 1int, 0int,
{
    let moves = pseudo_legal_moves(board_of(p));
    &&& has_king(board_of(p))
    &&& moves.len() <= crate::movegen::MAX_MOVES
    &&& quiescence_safe_from(p, ply, moves, moves.len() as int)
}

/// The first `k` moves of `moves` meet nothing on which quiescence search
/// would panic.
pub open spec fn quiescence_safe_from(p: Position, ply: nat, moves: Seq<Move>, k: int) -> bool
    decreases occupied(p.mailbox, 64), 0int, k,
{
    if k <= 0 {
        true
    } else {
        let m = moves[k - 1];
        &&& quiescence_safe_from(p, ply, moves, k - 1)
        &&& (tried_capture(p, m) ==> crate::uci::make_ok(p, ply, m))
        &&& if searched_capture(p, m) {
            proof {
                lemma_capture_shrinks(p, m);
            }
            quiescence_safe(make_position(p, m), ply + 1)
        } else {
            true
        }
    }
}

/// Alpha-beta search `depth` plies deep from a position, `ply` moves into
/// the history, meets nothing on which the engine would panic: at every
/// position it reaches the side to move has a king and at most `MAX_MOVES`
/// pseudo-legal moves, every move it tests can be made without a counter
/// overflowing, and so for the quiescence search at its leaves.
pub open spec fn search_safe(p: Position, ply: nat, depth: nat) -> bool
    decreases depth, 1int, 0int,
{
    if depth == 0 {
        quiescence_safe(p, ply)
    } else {
        let moves = pseudo_legal_moves(board_of(p));
        &&& has_king(board_of(p))
        &&& moves.len() <= crate::movegen::MAX_MOVES
        &&& search_safe_from(p, ply, depth, moves, moves.len() as int)
    }
}

/// The first `k` moves of `moves` meet nothing on which alpha-beta search
/// would panic.
pub open spec fn search_safe_from(p: Position, ply: nat, depth: nat, moves: Seq<Move>, k: int) -> bool
    decreases depth, 0int, k,
{
    if k <= 0 || depth == 0 {
        true
    } else {
        let m = moves[k - 1];
        &&& search_safe_from(p, ply, depth, moves, k - 1)
        &&& (tried_move(p, m) ==> crate::uci::make_ok(p, ply, m))
        &&& (searched_move(p, m) ==> search_safe(make_position(p, m), ply + 1, (depth - 1) as nat))
    }
}

proof fn lemma_quiescence_safe_at(p: Position, ply: nat, moves: Seq<Move>, k: int, i: int)
    requires
        0 <= i < k,
        quiescence_safe_from(p, ply, moves, k),
    ensures
        tried_capture(p, moves[i]) ==> crate::uci::make_ok(p, ply, moves[i]),
        searched_capture(p, moves[i]) ==> quiescence_safe(make_position(p, moves[i]), ply + 1),
    decreases k,
{
    if i < k - 1 {
        lemma_quiescence_safe_at(p, ply, moves, k - 1, i);
    }
}

proof fn lemma_search_safe_at(p: Position, ply: nat, depth: nat, moves: Seq<Move>, k: int, i: int)
    requires
        depth > 0,
        0 <= i < k,
        search_safe_from(p, ply, depth, moves, k),
    ensures
        tried_move(p, moves[i]) ==> crate::uci::make_ok(p, ply, moves[i]),
        searched_move(p, moves[i]) ==> search_safe(make_position(p, moves[i]), ply + 1, (depth - 1) as nat),
    decreases k,
{
    if i < k - 1 {
        lemma_search_safe_at(p, ply, depth, moves, k - 1, i);
    }
}

/// A search result `r` for the window `(alpha, beta)` bounds the true value
/// `v` the fail-soft way: from above when it fails low, from below when it
/// fails high, and exactly in between.
pub open spec fn fail_soft(r: int, alpha: int, beta: int, v: int) -> bool {
    &&& r <= alpha ==> v <= r
    &&& r >= beta ==> v >= r
    &&& alpha < r < beta ==> v == r
}

/// The best capture so far never falls as more moves are looked at, and a
/// searched capture's score is one of the candidates.
proof fn lemma_quiescence_best_grows(p: Position, moves: Seq<Move>, j: int, k: int)
    requires
        0 <= j <= k,
    ensures
        quiescence_best(p, moves, j) <= quiescence_best(p, moves, k),
        0 < j && searched_capture(p, moves[j - 1]) ==> -quiescence_value(make_position(p, moves[j - 1])) <= quiescence_best(p, moves, k),
    decreases k - j,
{
    if j < k {
        lemma_quiescence_best_grows(p, moves, j, k - 1);
    }
}

/// The moves that alpha-beta search tries in a position: legal moves other
/// than the null move.
pub open spec fn searched_move(p: Position, m: Move) -> bool {
    m.bits() != 0 && legal_on(&board_of(p), m)
}

/// The negamax value of a position searched `depth` plies deep, ending in
/// quiescence search: the best negated value after a searched move, and
/// `-CHECKMATE` when no move beats `-INFINITE`.
pub open spec fn search_value(p: Position, depth: nat) -> int
    decreases depth, 1int, 0int,
{
    if depth == 0 {
        quiescence_value(p)
    } else {
        let moves = pseudo_legal_moves(board_of(p));
        let best = search_best(p, depth, moves, moves.len() as int, Set::full());
        if best == -INFINITE {
            -CHECKMATE
        } else {
            best
        }
    }
}

/// The best negated value, from `-INFINITE` up, after the searched moves
/// among the first `k` of `moves` that lie in `done`.
pub open spec fn search_best(p: Position, depth: nat, moves: Seq<Move>, k: int, done: Set<Move>) -> int
    decreases depth, 0int, k,
{
    if k <= 0 || depth == 0 {
        -INFINITE
    } else {
        let prev = search_best(p, depth, moves, k - 1, done);
        let m = moves[k - 1];
        if searched_move(p, m) && done.contains(m) {
            max_int(prev, -search_value(make_position(p, m), (depth - 1) as nat))
        } else {
            prev
        }
    }
}

/// Below a position searched `depth` plies deep, every position that a
/// searched move of a generated list leads to has a value strictly between
/// `-INFINITE` and `INFINITE`.
pub open spec fn in_range(p: Position, depth: nat) -> bool
    decreases depth,
{
    depth > 0 ==> forall|m: Move|
        #![trigger make_position(p, m)]
        pseudo_legal_moves(board_of(p)).contains(m) && searched_move(p, m) ==> {
            &&& -INFINITE < search_value(make_position(p, m), (depth - 1) as nat) < INFINITE
            &&& in_range(make_position(p, m), (depth - 1) as nat)
        }
}

/// Adding a move to the done set adds its negated value to the best when
/// it is a searched move of the list.
proof fn lemma_search_best_insert(p: Position, depth: nat, moves: Seq<Move>, k: int, done: Set<Move>, x: Move)
    requires
        depth > 0,
        0 <= k <= moves.len(),
    ensures
        search_best(p, depth, moves, k, done.insert(x)) == if moves.take(k).contains(x) && searched_move(p, x) && !done.contains(x) {
            max_int(search_best(p, depth, moves, k, done), -search_value(make_position(p, x), (depth - 1) as nat))
        } else {
            search_best(p, depth, moves, k, done)
        },
    decreases k,
{
    if k > 0 {
        lemma_search_best_insert(p, depth, moves, k - 1, done, x);
        assert(moves.take(k) == moves.take(k - 1).push(moves[k - 1]));
        assert(moves.take(k).contains(x) == (moves.take(k - 1).contains(x) || moves[k - 1] == x)) by {
            if moves.take(k).contains(x) {
                let i = choose|i: int| 0 <= i < moves.take(k).len() && #[trigger] moves.take(k)[i] == x;
                if i < k - 1 {
                    assert(moves.take(k - 1)[i] == x);
                }
            }
            if moves.take(k - 1).contains(x) {
                let i = choose|i: int| 0 <= i < moves.take(k - 1).len() && #[trigger] moves.take(k - 1)[i] == x;
                assert(moves.take(k)[i] == x);
            }
            if moves[k - 1] == x {
                assert(moves.take(k)[k - 1] == x);
            }
        }
    } else {
        assert(moves.take(0).len() == 0);
    }
}

/// The value of a position searched at least one ply deep.
proof fn lemma_search_value_unfold(p: Position, depth: nat)
    requires
        depth > 0,
    ensures
        ({
            let moves = pseudo_legal_moves(board_of(p));
            let best = search_best(p, depth, moves, moves.len() as int, Set::full());
            search_value(p, depth) == if best == -INFINITE { -CHECKMATE } else { best }
        }),
{
}

/// One searched move keeps the running best and alpha in step with the
/// best value of the moves done, given the fail-soft score of the move.
proof fn lemma_score_step(m: int, t: int, best: int, score: int, a: int, alpha0: int, beta: int)
    requires
        m <= best,
        best > alpha0 ==> m == best,
        (best == -INFINITE) == (m == -INFINITE),
        best < beta,
        a == max_int(alpha0, best),
        -INFINITE <= alpha0,
        best >= -INFINITE,
        fail_soft(score, a, beta, t),
        -INFINITE < t,
    ensures
        ({
            let best2 = if score > best { score } else { best };
            let a2 = if score > best && score > a { score } else { a };
            let m2 = max_int(m, t);
            &&& m2 <= best2 || score >= beta
            &&& (best2 > alpha0 && score < beta ==> m2 == best2)
            &&& ((best2 == -INFINITE) == (m2 == -INFINITE))
            &&& a2 == max_int(alpha0, best2)
            &&& best2 >= -INFINITE
            &&& (score >= beta ==> t >= score)
        }),
{
}

/// With nothing done, the best is `-INFINITE`.
proof fn lemma_search_best_empty(p: Position, depth: nat, moves: Seq<Move>, k: int)
    requires
        0 <= k <= moves.len(),
    ensures
        search_best(p, depth, moves, k, Set::empty()) == -INFINITE,
    decreases k,
{
    if k > 0 {
        lemma_search_best_empty(p, depth, moves, k - 1);
    }
}

/// Marking a move of the list done takes its negated value into the best
/// when it is a searched move.
proof fn lemma_search_best_add(p: Position, depth: nat, moves: Seq<Move>, done: Set<Move>, x: Move)
    requires
        depth > 0,
        moves.contains(x),
    ensures
        search_best(p, depth, moves, moves.len() as int, done.insert(x)) == if searched_move(p, x) {
            max_int(search_best(p, depth, moves, moves.len() as int, done), -search_value(make_position(p, x), (depth - 1) as nat))
        } else {
            search_best(p, depth, moves, moves.len() as int, done)
        },
{
    let n = moves.len() as int;
    lemma_search_best_insert(p, depth, moves, n, done, x);
    assert(moves.take(n) =~= moves);
    if searched_move(p, x) && done.contains(x) {
        let i = choose|i: int| 0 <= i < moves.len() && moves[i] == x;
        lemma_search_best_bound(p, depth, moves, n, done, i);
        assert(done.insert(x) =~= done);
    }
}

/// A searched move of the list in the done set scores at most the best.
proof fn lemma_search_best_bound(p: Position, depth: nat, moves: Seq<Move>, k: int, done: Set<Move>, i: int)
    requires
        depth > 0,
        0 <= i < k <= moves.len(),
        searched_move(p, moves[i]),
        done.contains(moves[i]),
    ensures
        -search_value(make_position(p, moves[i]), (depth - 1) as nat) <= search_best(p, depth, moves, k, done),
    decreases k,
{
    if i < k - 1 {
        lemma_search_best_bound(p, depth, moves, k - 1, done, i);
    }
}

/// The best depends only on which searched moves of the list are done.
proof fn lemma_search_best_same(p: Position, depth: nat, moves: Seq<Move>, k: int, d1: Set<Move>, d2: Set<Move>)
    requires
        0 <= k <= moves.len(),
        forall|i: int| 0 <= i < k && searched_move(p, #[trigger] moves[i]) ==> (d1.contains(moves[i]) == d2.contains(moves[i])),
    ensures
        search_best(p, depth, moves, k, d1) == search_best(p, depth, moves, k, d2),
    decreases k,
{
    if k > 0 {
        lemma_search_best_same(p, depth, moves, k - 1, d1, d2);
    }
}

/// The best is `-INFINITE` or above.
proof fn lemma_search_best_floor(p: Position, depth: nat, moves: Seq<Move>, k: int, done: Set<Move>)
    requires
        0 <= k <= moves.len(),
    ensures
        search_best(p, depth, moves, k, done) >= -INFINITE,
    decreases k,
{
    if k > 0 {
        lemma_search_best_floor(p, depth, moves, k - 1, done);
    }
}

/// Every non-null move of the list is done or still among the entries.
spec fn covers(moves: Seq<Move>, es: Seq<MoveEntry>, done: Set<Move>) -> bool {
    forall|i: int|
        0 <= i < moves.len() && #[trigger] moves[i].bits() != 0 ==> done.contains(moves[i]) || exists|j: int|
            0 <= j < es.len() && #[trigger] es[j].mv == moves[i]
}

/// Every entry is a non-null move of the list.
spec fn inside(moves: Seq<Move>, es: Seq<MoveEntry>) -> bool {
    forall|j: int| 0 <= j < es.len() ==> moves.contains(#[trigger] es[j].mv)
}

/// The scored moves of a generated list, the null move left out, are
/// inside it and cover it.
proof fn lemma_generated(b: Board, tt: Move, moves: Seq<Move>, done: Set<Move>)
    requires
        tt.bits() == 0 || done.contains(tt),
    ensures
        covers(moves, scored(b, tt, moves), done),
        inside(moves, scored(b, tt, moves)),
{
    let es = scored(b, tt, moves);
    lemma_scored_moves(b, tt, moves);
    assert forall|i: int| 0 <= i < moves.len() && #[trigger] moves[i].bits() != 0 implies done.contains(moves[i]) || exists|j: int|
        0 <= j < es.len() && #[trigger] es[j].mv == moves[i] by {
        Move::lemma_bits_eq(moves[i], tt);
    }
}

/// Yielding the first best entry keeps every move of the list done or
/// waiting.
proof fn lemma_pick_step(moves: Seq<Move>, es: Seq<MoveEntry>, done: Set<Move>)
    requires
        es.len() > 0,
        covers(moves, es, done),
        inside(moves, es),
    ensures
        covers(moves, swapped_out(es), done.insert(es[first_best(es)].mv)),
        inside(moves, swapped_out(es)),
        moves.contains(es[first_best(es)].mv),
{
    lemma_first_best_exists(es);
    let b = first_best(es);
    let x = es[b].mv;
    let es2 = swapped_out(es);
    let n = es.len() - 1;
    lemma_swap_removed(es, b);
    assert forall|i: int| 0 <= i < moves.len() && #[trigger] moves[i].bits() != 0 implies done.insert(x).contains(moves[i]) || exists|j: int|
        0 <= j < es2.len() && #[trigger] es2[j].mv == moves[i] by {
        if !done.contains(moves[i]) {
            let j = choose|j: int| 0 <= j < es.len() && #[trigger] es[j].mv == moves[i];
            if j != b {
                let j2 = if j == n { b } else { j };
                assert(es2[j2] == es[j]);
            }
        }
    }
    assert forall|j: int| 0 <= j < es2.len() implies moves.contains(#[trigger] es2[j].mv) by {
        let j0 = if j == b { n } else { j };
        assert(es2[j] == es[j0]);
    }
}

/// Two well-formed boards of one position have the same bitboards.
proof fn lemma_same_bits(b1: &Board, b2: &Board)
    requires
        b1.wf(),
        b2.wf(),
        b1@ == b2@,
    ensures
        b1.pieces@ == b2.pieces@,
        b1.all_pieces == b2.all_pieces,
{
    assert forall|i: int| 0 <= i < 12 implies b1.pieces@[i] == b2.pieces@[i] by {
        assert forall|s: int| 0 <= s < 64 implies has_bit(b1.pieces[i], s) == has_bit(b2.pieces[i], s) by {
            assert(has_bit(b1.pieces[i], s) == (b1.mailbox@[s] == Some(crate::board::piece_of(i))));
            assert(has_bit(b2.pieces[i], s) == (b2.mailbox@[s] == Some(crate::board::piece_of(i))));
        }
        lemma_bits_ext(b1.pieces[i], b2.pieces[i]);
    }
    assert(b1.pieces@ =~= b2.pieces@);
    assert forall|s: int| 0 <= s < 64 implies has_bit(b1.all_pieces, s) == has_bit(b2.all_pieces, s) by {
        assert(has_bit(b1.all_pieces, s) == (b1.mailbox@[s] is Some));
        assert(has_bit(b2.all_pieces, s) == (b2.mailbox@[s] is Some));
    }
    lemma_bits_ext(b1.all_pieces, b2.all_pieces);
}

/// Two well-formed boards of one position generate the same moves, have the
/// same evaluation and the same legal moves.
proof fn lemma_view_determines(b1: Board, b2: Board)
    requires
        b1.wf(),
        b2.wf(),
        b1@ == b2@,
    ensures
        pseudo_legal_moves(b1) == pseudo_legal_moves(b2),
        crate::evaluate::eval_of(b1) == crate::evaluate::eval_of(b2),
        has_king(b1) == has_king(b2),
        forall|m: Move| #[trigger] legal_on(&b1, m) == legal_on(&b2, m),
{
    lemma_same_bits(&b1, &b2);
    assert(b1.pieces =~= b2.pieces);
    assert(b1.mailbox@ == b2.mailbox@);
    assert forall|kind: int| 1 <= kind <= 4 implies #[trigger] crate::movegen::piece_moves(b1, kind) == crate::movegen::piece_moves(b2, kind) by {
        let f1 = |from: int| crate::movegen::moves_from(b1, kind, from);
        let f2 = |from: int| crate::movegen::moves_from(b2, kind, from);
        assert(f1 =~= f2);
    }
    assert(crate::movegen::piece_moves(b1, 1) == crate::movegen::piece_moves(b2, 1));
    assert(crate::movegen::piece_moves(b1, 2) == crate::movegen::piece_moves(b2, 2));
    assert(crate::movegen::piece_moves(b1, 3) == crate::movegen::piece_moves(b2, 3));
    assert(crate::movegen::piece_moves(b1, 4) == crate::movegen::piece_moves(b2, 4));
    assert(crate::movegen::king_moves(b1) == crate::movegen::king_moves(b2));
    assert(crate::movegen::pawn_moves(b1) == crate::movegen::pawn_moves(b2));
}

/// The depth limit of a search: twenty unless given.
pub open spec fn depth_limit(limits: SearchLimits) -> int {
    match limits.max_depth {
        Some(d) => d as int,
        None => 20,
    }
}

/// Two well-formed boards of one position have the same legal moves.
proof fn lemma_legal_moves_view(b1: Board, b2: Board)
    requires
        b1.wf(),
        b2.wf(),
        b1@ == b2@,
    ensures
        legal_moves(&b1) == legal_moves(&b2),
{
    lemma_view_determines(b1, b2);
    let f1 = |m: Move| legal_on(&b1, m);
    let f2 = |m: Move| legal_on(&b2, m);
    assert(f1 =~= f2);
}

/// A board with a legal generated move has a legal move.
proof fn lemma_legal_nonempty(b: Board, pb: Board, moves: Seq<Move>, i: int)
    requires
        b.wf(),
        pb.wf(),
        b@ == pb@,
        moves == pseudo_legal_moves(pb),
        0 <= i < moves.len(),
        legal_on(&pb, moves[i]),
    ensures
        legal_moves(&b).len() > 0,
{
    lemma_view_determines(b, pb);
    let pred = |m: Move| legal_on(&b, m);
    pseudo_legal_moves(b).lemma_filter_contains(pred, i);
}

/// A move that can be made is not the null move: its squares differ.
pub(crate) proof fn lemma_fits_nonnull(p: Position, m: Move)
    requires
        move_fits(p, m),
    ensures
        m.bits() != 0,
{
    let b = m.bits();
    assert(b == 0 ==> (b & 0x3F) == ((b & 0xFC0) >> 6)) by (bit_vector);
}

/// Two well-formed boards of one position agree on the legality of a move.
proof fn lemma_legal_view(b1: &Board, b2: &Board, mv: Move)
    requires
        b1.wf(),
        b2.wf(),
        b1@ == b2@,
    ensures
        legal_on(b1, mv) == legal_on(b2, mv),
{
    lemma_same_bits(b1, b2);
}

/// A move is legal on a board: it can be made there, the side to move has a
/// king and the move does not take it, castling crosses no attacked square,
/// and after the move the mover's king is not attacked.
pub open spec fn legal_on(b: &Board, mv: Move) -> bool {
    let c = b.active_color;
    &&& move_fits(b@, mv)
    &&& has_king(*b)
    &&& b.mailbox@[mv.to_sq() as int] != Some(piece_of_kind(5, c))
    &&& !castle_attacked(b, mv)
    &&& forall|a: Board| #![trigger king_attacked(&a, c)] a.wf() && a@ == make_position(b@, mv) ==> !king_attacked(&a, c)
}

/// The pseudo-legal moves of a board that are legal on it, in their order.
pub open spec fn legal_moves(b: &Board) -> Seq<Move> {
    pseudo_legal_moves(*b).filter(|m: Move| legal_on(b, m))
}

/// What trying a move did.
pub enum Tried {
    /// The move was made; this takes it back.
    Made(crate::board::UnMove),
    /// The move is not legal on the board; the board is as it was.
    Skipped,
    /// Making the move would overflow a counter; the board is as it was.
    Fault,
}

/// Makes a move when it is legal on the board.
pub fn try_move(tables: &Tables, board: &mut Board, mv: Move) -> (r: Tried)
    requires
        tables.wf(),
        old(board).wf(),
    ensures
        final(board).wf(),
        match r {
            Tried::Made(u) => {
                &&& legal_on(old(board), mv)
                &&& final(board)@ == make_position(old(board)@, mv)
                &&& u == unmove_of_position(old(board)@, mv)
                &&& final(board).history_ply == old(board).history_ply + 1
                &&& final(board).phase_value == old(board).phase_value - crate::board::opt_weight(crate::board::captured_piece_of(old(board)@, mv)) + crate::board::promotion_weight(mv, old(board).active_color)
            },
            Tried::Skipped => {
                &&& !legal_on(old(board), mv)
                &&& final(board)@ == old(board)@
                &&& final(board).history_ply == old(board).history_ply
            },
            Tried::Fault => {
                &&& move_fits(old(board)@, mv)
                &&& has_king(*old(board))
                &&& old(board).mailbox@[mv.to_sq() as int] != Some(piece_of_kind(5, old(board).active_color))
                &&& !crate::uci::make_ok(old(board)@, old(board).history_ply as nat, mv)
                &&& final(board)@ == old(board)@
                &&& final(board).history_ply == old(board).history_ply
            },
        },
{
    proof {
        mv.lemma_squares();
        crate::board::lemma_phase_matches(board.pieces, board.mailbox@);
    }
    if !board.move_fits_board(mv) {
        return Tried::Skipped;
    }
    let own_king = if board.active_color == Color::White { Piece::WhiteKing } else { Piece::BlackKing };
    if !side_has_king(board) || board.mailbox[mv.get_to() as usize] == Some(own_king) {
        return Tried::Skipped;
    }
    if board.make_would_overflow(mv) {
        return Tried::Fault;
    }
    let ghost b0 = *board;
    let (legal, unmove) = board.make_move(tables, mv, true);
    proof {
        lemma_unmake_inverts_make(b0@, mv);
        crate::board::lemma_phase_matches(board.pieces, board.mailbox@);
        if legal {
            let c = b0.active_color;
            assert forall|a: Board| #![trigger king_attacked(&a, c)] a.wf() && a@ == make_position(b0@, mv) implies !king_attacked(&a, c) by {
                lemma_same_bits(&a, board);
            }
        } else {
            assert(!king_attacked(&*board, b0.active_color) ==> castle_attacked(&b0, mv));
        }
    }
    if !legal {
        board.unmake_move(tables, mv, unmove);
        return Tried::Skipped;
    }
    Tried::Made(unmove)
}

/// Takes back a move that `try_move` made.
fn take_back(tables: &Tables, board: &mut Board, mv: Move, unmove: crate::board::UnMove, Ghost(p): Ghost<Position>, Ghost(phase0): Ghost<u8>)
    requires
        tables.wf(),
        old(board).wf(),
        move_fits(p, mv),
        p.castling < 16,
        p.en_passant matches Some(e) ==> e < 64,
        old(board)@ == make_position(p, mv),
        unmove == unmove_of_position(p, mv),
        old(board).history_ply > 0,
        old(board).phase_value == phase0 - crate::board::opt_weight(crate::board::captured_piece_of(p, mv)) + crate::board::promotion_weight(mv, p.active_color),
    ensures
        final(board).wf(),
        final(board)@ == p,
        final(board).history_ply == old(board).history_ply - 1,
{
    proof {
        lemma_unmake_inverts_make(p, mv);
    }
    board.unmake_move(tables, mv, unmove);
}

/// The next move of a picker with a null hash move, keeping track of the
/// moves of the list that are done or still waiting.
fn next_move(picker: &mut MovePicker, search: &Search, tables: &Tables, board: &Board, Ghost(moves): Ghost<Seq<Move>>, Ghost(done): Ghost<Set<Move>>) -> (r: Option<Move>)
    requires
        tables.wf(),
        board.wf(),
        has_king(*board),
        moves == pseudo_legal_moves(*board),
        old(picker).wf(),
        old(picker).hash_move().bits() != 0 ==> moves.contains(old(picker).hash_move()),
        old(picker).stage() == ScoreStage::HashMove ==> old(picker).hash_move().bits() != 0 && old(picker).entries().len() == 0,
        old(picker).stage() == ScoreStage::GenerateAll ==> old(picker).hash_move().bits() == 0 || done.contains(old(picker).hash_move()),
        old(picker).stage() == ScoreStage::GenerateAll ==> old(picker).entries().len() == 0,
        old(picker).stage() != ScoreStage::GenerateAll && old(picker).stage() != ScoreStage::HashMove && !old(picker).overflow()
            ==> covers(moves, old(picker).entries(), done) && inside(moves, old(picker).entries()),
        old(picker).stage() != ScoreStage::Done ==> !old(picker).overflow(),
        old(picker).stage() == ScoreStage::Done && !old(picker).overflow() ==> old(picker).entries().len() == 0,
    ensures
        final(picker).wf(),
        final(picker).hash_move() == old(picker).hash_move(),
        final(picker).stage() != ScoreStage::HashMove,
        final(picker).stage() == ScoreStage::GenerateAll ==> final(picker).entries().len() == 0,
        final(picker).stage() == ScoreStage::Done && !final(picker).overflow() ==> final(picker).entries().len() == 0,
        final(picker).stage() != ScoreStage::Done ==> !final(picker).overflow(),
        match r {
            Some(x) => {
                &&& final(picker).remaining() < old(picker).remaining()
                &&& moves.contains(x)
                &&& !final(picker).overflow()
                &&& (final(picker).stage() == ScoreStage::GenerateAll ==> old(picker).stage() == ScoreStage::HashMove && x == old(picker).hash_move())
                &&& (final(picker).stage() != ScoreStage::GenerateAll ==> covers(moves, final(picker).entries(), done.insert(x))
                    && inside(moves, final(picker).entries()))
            },
            None => final(picker).overflow() || (covers(moves, final(picker).entries(), done) && final(picker).entries().len() == 0),
        },
        final(picker).overflow() ==> old(picker).overflow() || moves.len() > crate::movegen::MAX_MOVES,
{
    let ghost stage0 = picker.stage();
    let ghost entries0 = picker.entries();
    let ghost tt = picker.hash_move();
    let next = picker.next(search, tables, board);
    proof {
        if stage0 == ScoreStage::GenerateAll && moves.len() <= crate::movegen::MAX_MOVES {
            let es = scored(*board, tt, moves);
            lemma_generated(*board, tt, moves, done);
            if es.len() > 0 {
                lemma_pick_step(moves, es, done);
            }
        } else if stage0 == ScoreStage::Yielding && entries0.len() > 0 {
            lemma_pick_step(moves, entries0, done);
        }
    }
    next
}

impl Search {
    /// Sets the clock and the time limit of a search (ten seconds unless
    /// given) and gives its depth limit (twenty unless given).
    pub fn start(&mut self, limits: &SearchLimits) -> (max_depth: u8)
        ensures
            max_depth == match limits.max_depth { Some(d) => d, None => 20 },
            final(self).max_move_time == match limits.max_move_time { Some(t) => t as u128, None => 10000u128 } * 1000000,
            final(self).nodes == old(self).nodes,
            final(self).pv_table == old(self).pv_table,
            final(self).is_aborted == old(self).is_aborted,
            final(self).fault == old(self).fault,
    {
        self.start_time = instant_now();
        let ms: u64 = match limits.max_move_time {
            Some(t) => t,
            None => 10000,
        };
        self.max_move_time = ms as u128 * 1000000;
        match limits.max_depth {
            Some(d) => d,
            None => 20,
        }
    }

    /// Counts a node, the count wrapping around as `+=` does in a release
    /// build; reading the clock every 2048 nodes, stops the search when its
    /// time is up.
    fn count_node(&mut self)
        ensures
            final(self).nodes == next_count(old(self).nodes),
            final(self).is_aborted ==> old(self).is_aborted || final(self).nodes % 2048 == 0,
            final(self).pv_table == old(self).pv_table,
            final(self).fault == old(self).fault,
            final(self).sel_depth == old(self).sel_depth,
            final(self).max_move_time == old(self).max_move_time,
            old(self).is_aborted ==> final(self).is_aborted,
    {
        self.nodes = self.nodes.wrapping_add(1);
        if self.nodes % 2048 == 0 {
            let elapsed = duration_nanos(&elapsed_since(&self.start_time));
            if time_is_up(self.nodes, elapsed, self.max_move_time) {
                self.is_aborted = true;
            }
        }
    }
}

/// Whether a search must stop after counting node number `nodes`: the clock
/// is read every 2048 nodes, and the time is up once the elapsed
/// nanoseconds pass the limit.
pub fn time_is_up(nodes: u64, elapsed_ns: u128, max_ns: u128) -> (r: bool)
    ensures
        r == (nodes % 2048 == 0 && elapsed_ns > max_ns),
{
    nodes % 2048 == 0 && elapsed_ns > max_ns
}

/// The move that a random draw picks from a non-empty list: the draw,
/// taken as a `usize`, modulo the number of moves.
pub fn pick_move(moves: &MoveList, bits: u64) -> (m: Move)
    requires
        moves.wf(),
        moves@.len() > 0,
    ensures
        m == moves@[((bits as usize) as int) % (moves@.len() as int)],
{
    let index = (bits as usize) % moves.count;
    proof {
        assert(moves@[index as int] == moves.moves@[index as int]);
    }
    moves.moves[index]
}

impl Search {
    /// The fail-soft alpha-beta score of the board at `depth`, searching
    /// the captures further at depth 0; `-CHECKMATE` when no move beats
    /// `-INFINITE`. The board comes back as it was. Returns 0 once the time
    /// is up, or where the engine would panic, which `fault` then records;
    /// a fault comes only where the searched tree holds such a place
    /// (`search_safe`). Otherwise, for a window inside
    /// `[-INFINITE, INFINITE]` and a position whose values below stay inside
    /// `(-INFINITE, INFINITE)`, the score is a fail-soft bound on the
    /// negamax value.
    #[verifier::spinoff_prover]
    #[verifier::rlimit(50)]
    pub fn alpha_beta_search(&mut self, tables: &Tables, board: &mut Board, alpha: i32, beta: i32, depth: u8, ply: usize) -> (r: i32)
        requires
            tables.wf(),
            old(board).wf(),
            old(self).pv_table.wf(),
            alpha > i32::MIN,
            beta > i32::MIN,
            ply + depth + 64 < usize::MAX,
        ensures
            final(board).wf(),
            final(board)@ == old(board)@,
            final(board).history_ply == old(board).history_ply,
            final(self).pv_table.wf(),
            window_score(r as int, alpha as int, beta as int),
            old(self).fault ==> final(self).fault,
            old(self).is_aborted ==> final(self).is_aborted,
            final(self).max_move_time == old(self).max_move_time,
            ply > 0 ==> final(self).pv_table.line(0) == old(self).pv_table.line(0),
            !final(self).fault && !final(self).is_aborted && -INFINITE <= alpha < beta <= INFINITE && in_range(old(board)@, depth as nat)
                ==> fail_soft(r as int, alpha as int, beta as int, search_value(old(board)@, depth as nat)),
            !old(self).fault && search_safe(old(board)@, old(board).history_ply as nat, depth as nat) ==> !final(self).fault,
            depth > 0 && legal_moves(old(board)).len() == 0 ==> final(self).is_aborted == old(self).is_aborted,
            depth > 0 && !final(self).fault && !old(self).is_aborted && legal_moves(old(board)).len() == 0 ==> r == -CHECKMATE,
            depth == 0 ==> final(self).is_aborted == old(self).is_aborted,
        decreases depth, 1int,
    {
        if depth == 0 {
            proof {
                lemma_occupied_bound(board.mailbox@, 64);
            }
            return self.quiescence_search(tables, board, alpha, beta, ply);
        }
        if self.is_aborted {
            return 0;
        }
        if ply > self.sel_depth {
            self.sel_depth = ply;
        }
        let mut a = alpha;
        let mut best_score: i32 = -INFINITE;
        if !side_has_king(board) {
            self.fault = true;
            return 0;
        }
        let ghost p = board@;
        let ghost ply0 = board.history_ply;
        let ghost pb = board_of(p);
        let ghost d = depth as nat;
        let ghost alpha0 = alpha as int;
        proof {
            assert(pb.wf() && pb@ == p) by {
                assert(board.wf() && board@ == p);
            }
            lemma_view_determines(*board, pb);
        }
        let ghost moves = pseudo_legal_moves(pb);
        let ghost ok = -INFINITE <= alpha0 && alpha0 < beta && beta <= INFINITE && in_range(p, d);
        let ghost mut done: Set<Move> = Set::empty();
        let null = Move::null();
        let mut move_picker = MovePicker::new(null);
        let ghost v = search_value(p, d);
        proof {
            lemma_search_best_empty(p, d, moves, moves.len() as int);
            lemma_search_value_unfold(p, d);
        }
        loop
            invariant
                tables.wf(),
                board.wf(),
                board@ == p,
                board.history_ply == ply0,
                p == old(board)@,
                ply0 == old(board).history_ply,
                pb.wf(),
                pb@ == p,
                pb == board_of(p),
                moves == pseudo_legal_moves(pb),
                has_king(*board),
                self.pv_table.wf(),
                old(self).fault ==> self.fault,
                old(self).is_aborted ==> self.is_aborted,
                self.max_move_time == old(self).max_move_time,
                ply > 0 ==> self.pv_table.line(0) == old(self).pv_table.line(0),
                move_picker.wf(),
                move_picker.hash_move().bits() == 0,
                move_picker.stage() != ScoreStage::HashMove,
                move_picker.stage() == ScoreStage::GenerateAll ==> move_picker.entries().len() == 0,
                move_picker.stage() != ScoreStage::GenerateAll && !move_picker.overflow() ==> covers(moves, move_picker.entries(), done) && inside(moves, move_picker.entries()),
                move_picker.stage() != ScoreStage::Done ==> !move_picker.overflow(),
                move_picker.overflow() ==> moves.len() > crate::movegen::MAX_MOVES,
                !old(self).fault && search_safe(p, ply0 as nat, d) ==> !self.fault,
                legal_moves(old(board)).len() == 0 ==> best_score == -INFINITE,
                legal_moves(old(board)).len() == 0 ==> self.is_aborted == old(self).is_aborted,
                old(board).wf(),
                move_picker.stage() == ScoreStage::Done && !move_picker.overflow() ==> move_picker.entries().len() == 0,
                window_score(a as int, alpha as int, beta as int),
                alpha > i32::MIN,
                beta > i32::MIN,
                best_score == -INFINITE || window_score(best_score as int, alpha as int, beta as int),
                depth > 0,
                d == depth as nat,
                alpha0 == alpha,
                ok == (-INFINITE <= alpha0 && alpha0 < beta && beta <= INFINITE && in_range(p, d)),
                ply + depth + 64 < usize::MAX,
                ({
                    let full = search_best(p, d, moves, moves.len() as int, Set::full());
                    v == if full == -INFINITE { -CHECKMATE } else { full }
                }),
                v == search_value(p, d),
                ok ==> best_score < beta && a == max_int(alpha0, best_score as int) && best_score >= -INFINITE,
                ok && !self.fault && !self.is_aborted ==> {
                    let m = search_best(p, d, moves, moves.len() as int, done);
                    &&& m <= best_score
                    &&& (best_score > alpha0 ==> m == best_score)
                    &&& ((best_score == -INFINITE) == (m == -INFINITE))
                },
            ensures
                move_picker.overflow() || (covers(moves, move_picker.entries(), done) && move_picker.entries().len() == 0),
            decreases move_picker.remaining(),
        {
            proof {
                lemma_view_determines(*board, pb);
            }
            let next = next_move(&mut move_picker, self, tables, board, Ghost(moves), Ghost(done));
            let mv = match next {
                Some(mv) => mv,
                None => break,
            };
            proof {
                lemma_search_best_add(p, d, moves, done, mv);
                let i = choose|i: int| 0 <= i < moves.len() && moves[i] == mv;
                if !old(self).fault && search_safe(p, ply0 as nat, d) {
                    lemma_search_safe_at(p, ply0 as nat, d, moves, moves.len() as int, i);
                }
            }
            let ghost best0 = best_score;
            let ghost a0 = a;
            match self.search_move(tables, board, mv, a, beta, depth, ply) {
                MoveOutcome::NotSearched => {},
                MoveOutcome::Fault => {
                    proof {
                        if legal_on(&pb, mv) {
                            let i = choose|i: int| 0 <= i < moves.len() && moves[i] == mv;
                            lemma_legal_nonempty(*old(board), pb, moves, i);
                        }
                    }
                    return 0;
                },
                MoveOutcome::Score(score) => {
                    proof {
                        let i = choose|i: int| 0 <= i < moves.len() && moves[i] == mv;
                        lemma_fits_nonnull(p, mv);
                        lemma_legal_nonempty(*old(board), pb, moves, i);
                        lemma_search_best_bound(p, d, moves, moves.len() as int, Set::full(), i);
                        if ok && !self.fault && !self.is_aborted {
                            lemma_score_step(search_best(p, d, moves, moves.len() as int, done), -search_value(make_position(p, mv), (d - 1) as nat),
                                best_score as int, score as int, a as int, alpha0, beta as int);
                        }
                    }
                    if score > best_score {
                        best_score = score;
                        if score > a {
                            a = score;
                            self.pv_table.store(ply, mv);
                        }
                    }
                    if score >= beta {
                        return best_score;
                    }
                },
            }
            proof {
                done = done.insert(mv);
            }
        }
        if move_picker.overflowed() {
            self.fault = true;
            return 0;
        }
        proof {
            lemma_search_best_same(p, d, moves, moves.len() as int, done, Set::full());
        }
        if best_score == -INFINITE {
            return -CHECKMATE;
        }
        best_score
    }

    /// Searches one move of alpha-beta search at `depth` with the window
    /// `(alpha, beta)`: `NotSearched` when it is not legal, else its score,
    /// a fail-soft bound on the negated value after it unless the time ran
    /// out or the search met a fault.
    #[verifier::spinoff_prover]
    fn search_move(&mut self, tables: &Tables, board: &mut Board, mv: Move, alpha: i32, beta: i32, depth: u8, ply: usize) -> (r: MoveOutcome)
        requires
            tables.wf(),
            old(board).wf(),
            old(self).pv_table.wf(),
            alpha > i32::MIN,
            beta > i32::MIN,
            depth > 0,
            ply + depth + 64 < usize::MAX,
        ensures
            final(board).wf(),
            final(board)@ == old(board)@,
            final(board).history_ply == old(board).history_ply,
            final(self).pv_table.wf(),
            old(self).fault ==> final(self).fault,
            old(self).is_aborted ==> final(self).is_aborted,
            final(self).max_move_time == old(self).max_move_time,
            ply > 0 ==> final(self).pv_table.line(0) == old(self).pv_table.line(0),
            match r {
                MoveOutcome::NotSearched => !legal_on(&board_of(old(board)@), mv) && final(self).fault == old(self).fault
                    && final(self).is_aborted == old(self).is_aborted,
                MoveOutcome::Fault => final(self).fault
                    && (final(self).is_aborted == old(self).is_aborted || legal_on(&board_of(old(board)@), mv)),
                MoveOutcome::Score(s) => {
                    &&& legal_on(&board_of(old(board)@), mv)
                    &&& window_score(s as int, alpha as int, beta as int)
                    &&& (!final(self).fault && !final(self).is_aborted && -INFINITE <= alpha < beta <= INFINITE
                        && in_range(make_position(old(board)@, mv), (depth - 1) as nat)
                        ==> fail_soft(s as int, alpha as int, beta as int, -search_value(make_position(old(board)@, mv), (depth - 1) as nat)))
                },
            },
            !old(self).fault && (tried_move(old(board)@, mv) ==> crate::uci::make_ok(old(board)@, old(board).history_ply as nat, mv))
                && (searched_move(old(board)@, mv) ==> search_safe(make_position(old(board)@, mv), (old(board).history_ply + 1) as nat, (depth - 1) as nat))
                ==> !final(self).fault,
        decreases depth, 0int,
    {
        let ghost p = board@;
        let ghost pb = board_of(p);
        proof {
            assert(pb.wf() && pb@ == p) by {
                assert(board.wf() && board@ == p);
            }
            lemma_legal_view(&*board, &pb, mv);
            lemma_view_determines(*board, pb);
            if move_fits(p, mv) {
                lemma_fits_nonnull(p, mv);
            }
        }
        let phase0 = board.phase_value;
        let tried = try_move(tables, board, mv);
        match tried {
            Tried::Skipped => MoveOutcome::NotSearched,
            Tried::Fault => {
                self.fault = true;
                MoveOutcome::Fault
            },
            Tried::Made(unmove) => {
                proof {
                    crate::board::lemma_phase_matches(board.pieces, board.mailbox@);
                }
                let ghost phase_mid = board.phase_value;
                let child_score = self.alpha_beta_search(tables, board, -beta, -alpha, depth - 1, ply + 1);
                proof {
                    crate::board::lemma_phase_matches(board.pieces, board.mailbox@);
                    assert(board.phase_value == phase_mid);
                }
                take_back(tables, board, mv, unmove, Ghost(p), Ghost(phase0));
                if self.fault {
                    return MoveOutcome::Fault;
                }
                self.count_node();
                MoveOutcome::Score(-child_score)
            },
        }
    }

    /// The score of the board when only captures are searched, the side to
    /// move standing on its evaluation (fail-soft, but a capture reaching
    /// `beta` gives `beta`): unless the search met a fault, a fail-soft
    /// bound on the quiescence value for a window with `alpha < beta`. The
    /// board comes back as it was; where the engine would panic, `fault`
    /// records it and the score is 0, and a fault comes only where the
    /// searched captures reach such a place (`quiescence_safe`).
    #[verifier::spinoff_prover]
    pub fn quiescence_search(&mut self, tables: &Tables, board: &mut Board, alpha: i32, beta: i32, ply: usize) -> (r: i32)
        requires
            tables.wf(),
            old(board).wf(),
            old(self).pv_table.wf(),
            alpha > i32::MIN,
            beta > i32::MIN,
            ply + occupied(old(board).mailbox@, 64) < usize::MAX,
        ensures
            final(board).wf(),
            final(board)@ == old(board)@,
            final(board).history_ply == old(board).history_ply,
            final(self).pv_table.wf(),
            window_score(r as int, alpha as int, beta as int),
            old(self).fault ==> final(self).fault,
            final(self).max_move_time == old(self).max_move_time,
            final(self).pv_table == old(self).pv_table,
            final(self).is_aborted == old(self).is_aborted,
            !final(self).fault && alpha < beta ==> fail_soft(r as int, alpha as int, beta as int, quiescence_value(old(board)@)),
            !old(self).fault && quiescence_safe(old(board)@, old(board).history_ply as nat) ==> !final(self).fault,
            ({
                let se = if old(board).active_color == Color::White { crate::evaluate::eval_of(*old(board)) } else { -crate::evaluate::eval_of(*old(board)) };
                &&& se >= beta ==> r == se
                &&& !final(self).fault ==> r >= se
            }),
        decreases occupied(old(board).mailbox@, 64), 1int,
    {
        let ghost p = board@;
        let ghost alpha0 = alpha as int;
        let ghost pb = board_of(p);
        proof {
            assert(pb.wf() && pb@ == p) by {
                assert(board.wf() && board@ == p);
            }
            lemma_view_determines(*board, pb);
        }
        let ghost moves = pseudo_legal_moves(pb);
        let ghost v = quiescence_value(p);
        proof {
            assert(v == quiescence_best(p, moves, moves.len() as int));
            lemma_quiescence_best_grows(p, moves, 0, moves.len() as int);
        }
        let static_eval = Evaluate::sided_eval(board);
        let mut best_score = static_eval;
        assert(best_score == stand_pat(p));
        if best_score >= beta {
            return best_score;
        }
        let mut a = alpha;
        if best_score > a {
            a = best_score;
        }
        if ply > self.sel_depth {
            self.sel_depth = ply;
        }
        if !side_has_king(board) {
            self.fault = true;
            return 0;
        }
        let move_list = match MoveGenerator::try_generate_pseudo_legal_moves(tables, board) {
            Some(l) => l,
            None => {
                self.fault = true;
                return 0;
            },
        };
        let ghost ply0 = board.history_ply;
        let mut i: usize = 0;
        while i < move_list.count
            invariant
                tables.wf(),
                board.wf(),
                board@ == p,
                board.history_ply == ply0,
                p == old(board)@,
                ply0 == old(board).history_ply,
                self.pv_table.wf(),
                old(self).fault ==> self.fault,
                self.max_move_time == old(self).max_move_time,
                self.pv_table == old(self).pv_table,
                self.is_aborted == old(self).is_aborted,
                move_list.wf(),
                move_list@ == moves,
                moves == pseudo_legal_moves(pb),
                pb.wf(),
                pb@ == p,
                v == quiescence_best(p, moves, moves.len() as int),
                alpha0 == alpha,
                i <= move_list.count,
                window_score(a as int, alpha as int, beta as int),
                alpha > i32::MIN,
                beta > i32::MIN,
                window_score(best_score as int, alpha as int, beta as int),
                ply + occupied(p.mailbox, 64) < usize::MAX,
                best_score < beta,
                best_score >= static_eval,
                static_eval == if old(board).active_color == Color::White { crate::evaluate::eval_of(*old(board)) } else { -crate::evaluate::eval_of(*old(board)) },
                pb == board_of(p),
                !old(self).fault && quiescence_safe(p, ply0 as nat) ==> !self.fault,
                a == max_int(alpha0, best_score as int),
                v == quiescence_value(p),
                !self.fault && alpha0 < beta ==> quiescence_best(p, moves, i as int) <= best_score,
                !self.fault && alpha0 < beta && best_score > alpha0 ==> quiescence_best(p, moves, i as int) == best_score,
            decreases move_list.count - i,
        {
            let mv = move_list.moves[i];
            proof {
                if !old(self).fault && quiescence_safe(p, ply0 as nat) {
                    lemma_quiescence_safe_at(p, ply0 as nat, moves, moves.len() as int, i as int);
                }
                assert(mv == moves[i as int]);
                assert(quiescence_best(p, moves, i + 1) == if searched_capture(p, mv) {
                    max_int(quiescence_best(p, moves, i as int), -quiescence_value(make_position(p, mv)))
                } else {
                    quiescence_best(p, moves, i as int)
                });
                lemma_quiescence_best_grows(p, moves, i + 1, moves.len() as int);
            }
            i += 1;
            match self.capture_score(tables, board, mv, a, beta, ply) {
                MoveOutcome::NotSearched => {},
                MoveOutcome::Fault => {
                    return 0;
                },
                MoveOutcome::Score(score) => {
                    if score >= beta {
                        return beta;
                    }
                    if score > best_score {
                        best_score = score;
                    }
                    if score > a {
                        a = score;
                    }
                },
            }
        }
        proof {
            assert(move_list.count == moves.len());
        }
        best_score
    }

    /// Searches one move of quiescence search with the window `(alpha,
    /// beta)`: `NotSearched` when it is not a legal capture of a piece or en
    /// passant, else its score, a fail-soft bound on the negated quiescence
    /// value after it unless the search met a fault.
    #[verifier::spinoff_prover]
    fn capture_score(&mut self, tables: &Tables, board: &mut Board, mv: Move, alpha: i32, beta: i32, ply: usize) -> (r: MoveOutcome)
        requires
            tables.wf(),
            old(board).wf(),
            old(self).pv_table.wf(),
            alpha > i32::MIN,
            beta > i32::MIN,
            ply + occupied(old(board).mailbox@, 64) < usize::MAX,
        ensures
            final(board).wf(),
            final(board)@ == old(board)@,
            final(board).history_ply == old(board).history_ply,
            final(self).pv_table.wf(),
            old(self).fault ==> final(self).fault,
            final(self).max_move_time == old(self).max_move_time,
            final(self).pv_table == old(self).pv_table,
            final(self).is_aborted == old(self).is_aborted,
            match r {
                MoveOutcome::NotSearched => !searched_capture(old(board)@, mv) && final(self).fault == old(self).fault,
                MoveOutcome::Fault => final(self).fault,
                MoveOutcome::Score(s) => {
                    &&& searched_capture(old(board)@, mv)
                    &&& window_score(s as int, alpha as int, beta as int)
                    &&& (!final(self).fault && alpha < beta ==> fail_soft(s as int, alpha as int, beta as int, -quiescence_value(make_position(old(board)@, mv))))
                },
            },
            !old(self).fault && (tried_capture(old(board)@, mv) ==> crate::uci::make_ok(old(board)@, old(board).history_ply as nat, mv))
                && (searched_capture(old(board)@, mv) ==> quiescence_safe(make_position(old(board)@, mv), (old(board).history_ply + 1) as nat))
                ==> !final(self).fault,
        decreases occupied(old(board).mailbox@, 64), 0int,
    {
        let ghost p = board@;
        let ghost pb = board_of(p);
        proof {
            assert(pb.wf() && pb@ == p) by {
                assert(board.wf() && board@ == p);
            }
            lemma_legal_view(&*board, &pb, mv);
            lemma_view_determines(*board, pb);
            mv.lemma_squares();
            let b = mv.bits();
            assert((b & 0x4000 != 0) == ((b >> 12) & 4 != 0)) by (bit_vector);
        }
        if !mv.is_capture() {
            return MoveOutcome::NotSearched;
        }
        if !(mv.is_en_passant() || board.mailbox[mv.get_to() as usize].is_some()) {
            return MoveOutcome::NotSearched;
        }
        let phase0 = board.phase_value;
        let tried = try_move(tables, board, mv);
        match tried {
            Tried::Skipped => MoveOutcome::NotSearched,
            Tried::Fault => {
                self.fault = true;
                MoveOutcome::Fault
            },
            Tried::Made(unmove) => {
                proof {
                    lemma_capture_shrinks(p, mv);
                    crate::board::lemma_phase_matches(board.pieces, board.mailbox@);
                }
                let ghost phase_mid = board.phase_value;
                let child_score = self.quiescence_search(tables, board, -beta, -alpha, ply + 1);
                proof {
                    crate::board::lemma_phase_matches(board.pieces, board.mailbox@);
                    assert(board.phase_value == phase_mid);
                }
                take_back(tables, board, mv, unmove, Ghost(p), Ghost(phase0));
                if self.fault {
                    return MoveOutcome::Fault;
                }
                self.nodes = self.nodes.wrapping_add(1);
                MoveOutcome::Score(-child_score)
            },
        }
    }
}


/// Every pseudo-legal move of the board that passes the checks before the
/// legality test can be made without a counter overflowing.
pub open spec fn moves_makeable(b: &Board) -> bool {
    let moves = pseudo_legal_moves(*b);
    forall|i: int|
        0 <= i < moves.len() && move_fits(b@, #[trigger] moves[i]) && b.mailbox@[moves[i].to_sq() as int] != Some(piece_of_kind(5, b.active_color))
            ==> crate::uci::make_ok(b@, b.history_ply as nat, moves[i])
}

/// What searching one move gave.
enum MoveOutcome {
    /// The move is not one that the search tries.
    NotSearched,
    /// The engine would panic during its search.
    Fault,
    /// Its score for the side to move.
    Score(i32),
}

/// What one iteration of the root search gave.
pub enum DepthResult {
    /// The iteration ended with this score.
    Done(i32),
    /// The time ran out during the iteration.
    Aborted,
    /// The engine would panic during the iteration.
    Fault,
}

/// What the root search printed for a finished depth.
pub struct DepthReport {
    pub depth: u8,
    pub sel_depth: usize,
    pub score: i32,
    pub nodes: u64,
    /// Milliseconds since the search started.
    pub time_ms: u128,
    pub pv: Vec<Move>,
}

/// The outcome of a root search: the report of each finished depth, and
/// the move to play, `None` where the engine would panic.
pub struct RootReport {
    pub lines: Vec<DepthReport>,
    pub best_move: Option<Move>,
}

/// Nodes per second from a node count and the milliseconds spent (at least
/// one counts); `None` where the count times 1000 overflows, or the time
/// does not fit 64 bits.
pub fn nodes_per_second(nodes: u64, elapsed_ms: u128) -> (r: Option<u64>)
    ensures
        r == if nodes * 1000 > u64::MAX || elapsed_ms > u64::MAX {
            None
        } else {
            Some(((nodes * 1000) / (if elapsed_ms == 0 { 1 } else { elapsed_ms as int })) as u64)
        },
{
    if nodes > u64::MAX / 1000 || elapsed_ms > u64::MAX as u128 {
        return None;
    }
    let ms: u64 = if elapsed_ms == 0 { 1 } else { elapsed_ms as u64 };
    Some(nodes * 1000 / ms)
}

/// Filtering one more element of a sequence.
proof fn lemma_filter_step(s: Seq<Move>, i: int, pred: spec_fn(Move) -> bool)
    requires
        0 <= i < s.len(),
    ensures
        s.take(i + 1).filter(pred) == if pred(s[i]) {
            s.take(i).filter(pred).push(s[i])
        } else {
            s.take(i).filter(pred)
        },
        s.take(i).filter(pred).len() <= i,
{
    assert(s.take(i + 1).drop_last() =~= s.take(i));
    reveal(Seq::filter);
    s.take(i).lemma_filter_len(pred);
}

/// Legality depends only on the position and the bitboards.
proof fn lemma_legal_on_same(b1: &Board, b2: &Board, mv: Move)
    requires
        b1@ == b2@,
        b1.pieces@ == b2.pieces@,
        b1.all_pieces == b2.all_pieces,
        b1.history_ply == b2.history_ply,
    ensures
        legal_on(b1, mv) == legal_on(b2, mv),
        crate::uci::make_ok(b1@, b1.history_ply as nat, mv) == crate::uci::make_ok(b2@, b2.history_ply as nat, mv),
{
}

/// Tests whether a move is legal by making it and taking it back: `None`
/// where making it would overflow a counter.
fn test_move(tables: &Tables, board: &mut Board, mv: Move) -> (r: Option<bool>)
    requires
        tables.wf(),
        old(board).wf(),
    ensures
        final(board).wf(),
        final(board)@ == old(board)@,
        final(board).history_ply == old(board).history_ply,
        final(board).pieces@ == old(board).pieces@,
        final(board).all_pieces == old(board).all_pieces,
        r matches Some(l) ==> l == legal_on(old(board), mv),
        r is None ==> move_fits(old(board)@, mv) && !crate::uci::make_ok(old(board)@, old(board).history_ply as nat, mv)
            && has_king(*old(board)) && old(board).mailbox@[mv.to_sq() as int] != Some(piece_of_kind(5, old(board).active_color)),
{
    let ghost b0 = *board;
    let phase0 = board.phase_value;
    let r = match try_move(tables, board, mv) {
        Tried::Made(unmove) => {
            take_back(tables, board, mv, unmove, Ghost(b0@), Ghost(phase0));
            Some(true)
        },
        Tried::Skipped => Some(false),
        Tried::Fault => None,
    };
    proof {
        lemma_same_bits(&*board, &b0);
    }
    r
}

impl Search {
    /// A random legal move of the board; `None` when it has none, or where
    /// the engine would panic: more pseudo-legal moves than a list holds,
    /// or a counter that would overflow while testing a move.
    pub fn random(tables: &Tables, board: Board) -> (r: Option<Move>)
        requires
            tables.wf(),
            board.wf(),
        ensures
            r matches Some(m) ==> legal_moves(&board).contains(m),
            r matches Some(m) ==> exists|bits: u64|
                m == #[trigger] legal_moves(&board)[((bits as usize) as int) % (legal_moves(&board).len() as int)],
            legal_moves(&board).len() == 0 ==> r is None,
            has_king(board) && pseudo_legal_moves(board).len() <= crate::movegen::MAX_MOVES && moves_makeable(&board)
                && legal_moves(&board).len() > 0 ==> r is Some,
    {
        let ghost b0 = board;
        let ghost pred = |m: Move| legal_on(&b0, m);
        let mut work = board;
        if !side_has_king(&work) {
            proof {
                assert(legal_moves(&b0).len() == 0) by {
                    let l = legal_moves(&b0);
                    if l.len() > 0 {
                        pseudo_legal_moves(b0).lemma_filter_pred(pred, 0);
                        assert(pred(l[0]));
                    }
                }
            }
            return None;
        }
        let move_list = match MoveGenerator::try_generate_pseudo_legal_moves(tables, &work) {
            Some(l) => l,
            None => return None,
        };
        let ghost moves = pseudo_legal_moves(b0);
        let mut legal = MoveList::new();
        let mut i: usize = 0;
        while i < move_list.count
            invariant
                tables.wf(),
                work.wf(),
                work@ == b0@,
                work.history_ply == b0.history_ply,
                work.pieces@ == b0.pieces@,
                work.all_pieces == b0.all_pieces,
                b0.wf(),
                b0 == board,
                move_list.wf(),
                move_list@ == moves,
                i <= move_list.count,
                legal.wf(),
                legal@ == moves.take(i as int).filter(pred),
                legal.count <= i,
                pred == (|m: Move| legal_on(&b0, m)),
                moves == pseudo_legal_moves(b0),
            decreases move_list.count - i,
        {
            let mv = move_list.moves[i];
            proof {
                assert(mv == moves[i as int]);
                lemma_filter_step(moves, i as int, pred);
                lemma_legal_on_same(&work, &b0, mv);
            }
            let ghost before = work;
            match test_move(tables, &mut work, mv) {
                Some(true) => {
                    legal.push(mv);
                },
                Some(false) => {},
                None => {
                    proof {
                        assert(!moves_makeable(&b0)) by {
                            assert(before@ == b0@);
                            assert(move_fits(b0@, moves[i as int]));
                            assert(b0.mailbox@[moves[i as int].to_sq() as int] != Some(piece_of_kind(5, b0.active_color)));
                            assert(!crate::uci::make_ok(b0@, b0.history_ply as nat, moves[i as int]));
                        }
                    }
                    return None;
                },
            }
            i += 1;
        }
        proof {
            assert(moves.take(i as int) =~= moves);
        }
        if legal.count == 0 {
            return None;
        }
        let state = fresh_random_state();
        let bits = random_bits(&state);
        let m = pick_move(&legal, bits);
        proof {
            assert(legal@ == legal_moves(&b0));
            assert(m == legal_moves(&board)[((bits as usize) as int) % (legal_moves(&board).len() as int)]);
        }
        Some(m)
    }
}


impl Search {
    /// One iteration of the root search: the root's legal moves, `best_move`
    /// first when it is not null, are each searched `depth - 1` plies deep
    /// with the root's own window, and the principal variation starts anew.
    /// Gives the best score (`-CHECKMATE` when no move beats `-INFINITE`),
    /// or tells that the time ran out or that the engine would panic.
    fn search_depth(&mut self, tables: &Tables, board: &mut Board, depth: u8, best_move: Move) -> (r: DepthResult)
        requires
            tables.wf(),
            old(board).wf(),
            !old(self).fault,
            depth >= 1,
            best_move.bits() != 0 ==> pseudo_legal_moves(board_of(old(board)@)).contains(best_move),
        ensures
            final(board).wf(),
            final(board)@ == old(board)@,
            final(board).history_ply == old(board).history_ply,
            final(self).pv_table.wf(),
            final(self).max_move_time == old(self).max_move_time,
            final(self).pv_table.line(0).len() > 0 ==> legal_on(&board_of(old(board)@), final(self).pv_table.line(0)[0])
                && pseudo_legal_moves(board_of(old(board)@)).contains(final(self).pv_table.line(0)[0]),
            match r {
                DepthResult::Done(score) => -SCORE_BOUND <= score <= SCORE_BOUND && !final(self).fault && !final(self).is_aborted,
                DepthResult::Aborted => final(self).is_aborted && !final(self).fault,
                DepthResult::Fault => final(self).fault,
            },
            old(self).is_aborted ==> final(self).is_aborted,
            depth == 1 ==> final(self).is_aborted == old(self).is_aborted,
            search_safe(old(board)@, old(board).history_ply as nat, depth as nat) ==> !final(self).fault,
            r is Done && legal_moves(old(board)).len() > 0 && in_range(old(board)@, depth as nat) ==> final(self).pv_table.line(0).len() > 0,
    {
        self.root_depth = depth;
        self.pv_table.clear();
        let mut alpha: i32 = -INFINITE;
        let beta: i32 = INFINITE;
        let mut best_score: i32 = -INFINITE;
        let ghost p = board@;
        let ghost ply0 = board.history_ply;
        let ghost pb = board_of(p);
        let ghost d = depth as nat;
        proof {
            assert(pb.wf() && pb@ == p) by {
                assert(board.wf() && board@ == p);
            }
            lemma_view_determines(*board, pb);
        }
        if !side_has_king(board) {
            self.fault = true;
            return DepthResult::Fault;
        }
        let ghost moves = pseudo_legal_moves(pb);
        let ghost ok = in_range(p, d);
        let ghost mut done: Set<Move> = Set::empty();
        let ghost mut made_any = false;
        let mut move_picker = MovePicker::new(best_move);
        loop
            invariant
                tables.wf(),
                board.wf(),
                old(board).wf(),
                board@ == p,
                board.history_ply == ply0,
                p == old(board)@,
                ply0 == old(board).history_ply,
                d == depth as nat,
                has_king(*board),
                self.pv_table.wf(),
                pb == board_of(p),
                pb.wf(),
                pb@ == p,
                moves == pseudo_legal_moves(pb),
                ok == in_range(p, d),
                self.pv_table.line(0).len() > 0 ==> legal_on(&board_of(p), self.pv_table.line(0)[0]) && moves.contains(self.pv_table.line(0)[0]),
                !self.fault,
                self.max_move_time == old(self).max_move_time,
                old(self).is_aborted ==> self.is_aborted,
                depth == 1 ==> self.is_aborted == old(self).is_aborted,
                search_safe(p, ply0 as nat, d) ==> !self.fault,
                move_picker.wf(),
                move_picker.hash_move() == best_move,
                best_move.bits() != 0 ==> moves.contains(best_move),
                move_picker.stage() == ScoreStage::HashMove ==> best_move.bits() != 0 && move_picker.entries().len() == 0,
                move_picker.stage() == ScoreStage::GenerateAll ==> best_move.bits() == 0 || done.contains(best_move),
                move_picker.stage() == ScoreStage::GenerateAll ==> move_picker.entries().len() == 0,
                move_picker.stage() != ScoreStage::GenerateAll && move_picker.stage() != ScoreStage::HashMove && !move_picker.overflow()
                    ==> covers(moves, move_picker.entries(), done) && inside(moves, move_picker.entries()),
                move_picker.stage() != ScoreStage::Done ==> !move_picker.overflow(),
                move_picker.stage() == ScoreStage::Done && !move_picker.overflow() ==> move_picker.entries().len() == 0,
                move_picker.overflow() ==> moves.len() > crate::movegen::MAX_MOVES,
                forall|x: Move| #[trigger] done.contains(x) && legal_on(&pb, x) ==> made_any,
                !made_any ==> alpha == -INFINITE && best_score == -INFINITE,
                ok && !self.is_aborted && made_any ==> self.pv_table.line(0).len() > 0,
                -SCORE_BOUND <= alpha <= SCORE_BOUND,
                beta == INFINITE,
                -SCORE_BOUND <= best_score <= SCORE_BOUND,
                depth >= 1,
            ensures
                move_picker.overflow() || self.is_aborted || (covers(moves, move_picker.entries(), done) && move_picker.entries().len() == 0),
            decreases move_picker.remaining(),
        {
            proof {
                lemma_view_determines(*board, pb);
            }
            let next = next_move(&mut move_picker, self, tables, board, Ghost(moves), Ghost(done));
            let mv = match next {
                Some(mv) => mv,
                None => break,
            };
            proof {
                done = done.insert(mv);
                let i = choose|i: int| 0 <= i < moves.len() && moves[i] == mv;
                if search_safe(p, ply0 as nat, d) {
                    lemma_search_safe_at(p, ply0 as nat, d, moves, moves.len() as int, i);
                }
                lemma_legal_view(&*board, &pb, mv);
                if move_fits(p, mv) {
                    lemma_fits_nonnull(p, mv);
                }
            }
            let phase0 = board.phase_value;
            let tried = try_move(tables, board, mv);
            match tried {
                Tried::Skipped => {},
                Tried::Fault => {
                    self.fault = true;
                    return DepthResult::Fault;
                },
                Tried::Made(unmove) => {
                    proof {
                        made_any = true;
                        crate::board::lemma_phase_matches(board.pieces, board.mailbox@);
                    }
                    let ghost phase_mid = board.phase_value;
                    let ghost first = best_score == -INFINITE && alpha == -INFINITE;
                    let child_score = self.alpha_beta_search(tables, board, alpha, beta, depth - 1, 1);
                    let score = -child_score;
                    proof {
                        crate::board::lemma_phase_matches(board.pieces, board.mailbox@);
                        assert(board.phase_value == phase_mid);
                    }
                    take_back(tables, board, mv, unmove, Ghost(p), Ghost(phase0));
                    if self.fault {
                        return DepthResult::Fault;
                    }
                    self.nodes = self.nodes.wrapping_add(1);
                    if self.is_aborted {
                        break;
                    }
                    proof {
                        if ok && first {
                            let child = make_position(p, mv);
                            assert(searched_move(p, mv));
                            assert(-INFINITE < search_value(child, (d - 1) as nat) < INFINITE);
                            assert(in_range(child, (d - 1) as nat));
                            assert(fail_soft(child_score as int, -INFINITE as int, INFINITE as int, search_value(child, (d - 1) as nat)));
                            assert(score > -INFINITE);
                        }
                    }
                    if score > best_score {
                        best_score = score;
                        if score > alpha {
                            alpha = score;
                            self.pv_table.store(0, mv);
                        }
                    }
                },
            }
        }
        if move_picker.overflowed() {
            self.fault = true;
            return DepthResult::Fault;
        }
        if self.is_aborted {
            return DepthResult::Aborted;
        }
        proof {
            if legal_moves(old(board)).len() > 0 && ok {
                let lm = legal_moves(old(board));
                let pred = |m: Move| legal_on(old(board), m);
                lemma_view_determines(*old(board), pb);
                pseudo_legal_moves(*old(board)).lemma_filter_pred(pred, 0);
                assert(legal_on(old(board), lm[0]));
                pseudo_legal_moves(*old(board)).lemma_filter_contains_rev(pred, lm[0]);
                assert(moves.contains(lm[0]));
                let i = choose|i: int| 0 <= i < moves.len() && moves[i] == lm[0];
                lemma_legal_view(old(board), &pb, lm[0]);
                lemma_fits_nonnull(p, lm[0]);
                assert(moves[i].bits() != 0);
                assert(done.contains(lm[0]));
            }
        }
        if best_score == -INFINITE {
            best_score = -CHECKMATE;
        }
        DepthResult::Done(best_score)
    }

    /// Iterative deepening from depth 1 to the depth limit (twenty unless
    /// given), each depth searched by `search_depth` with the best move of
    /// the last one first, until the time runs out. Reports each finished
    /// depth and gives the first move of the last principal variation as
    /// the move to play (the null move when no depth finished). The best
    /// move is `None` where the engine would panic: a finished depth with no
    /// principal variation, or a panic in the search, which `fault` then
    /// records; `fault` is cleared when the search starts. The board comes
    /// back as it was.
    pub fn root_search(&mut self, tables: &Tables, board: &mut Board, limits: SearchLimits) -> (r: RootReport)
        requires
            tables.wf(),
            old(board).wf(),
        ensures
            final(board).wf(),
            final(board)@ == old(board)@,
            final(board).history_ply == old(board).history_ply,
            r.lines@.len() <= match limits.max_depth { Some(d) => d as int, None => 20 },
            forall|k: int| #![trigger r.lines@[k]] 0 <= k < r.lines@.len() ==> {
                &&& r.lines@[k].depth == k + 1
                &&& r.lines@[k].pv@.len() > 0
                &&& -SCORE_BOUND <= r.lines@[k].score <= SCORE_BOUND
            },
            r.best_move matches Some(m) ==> !final(self).fault && if r.lines@.len() == 0 {
                m.bits() == 0
            } else {
                m == r.lines@.last().pv@[0]
            },
            r.best_move is Some && !final(self).is_aborted ==> r.lines@.len() == match limits.max_depth { Some(d) => d as int, None => 20 },
            r.best_move is None ==> final(self).fault || final(self).pv_table.line(0).len() == 0,
            r.lines@.len() > 0 ==> (r.best_move matches Some(m) ==> legal_on(old(board), m)),
            final(self).max_move_time == match limits.max_move_time { Some(t) => t as u128, None => 10000u128 } * 1000000,
            !old(self).is_aborted && depth_limit(limits) <= 1 ==> !final(self).is_aborted,
            (forall|d: nat| 1 <= d <= depth_limit(limits) ==> #[trigger] search_safe(old(board)@, old(board).history_ply as nat, d))
                ==> !final(self).fault,
            !final(self).fault && !final(self).is_aborted && legal_moves(old(board)).len() > 0
                && (forall|d: nat| 1 <= d <= depth_limit(limits) ==> #[trigger] in_range(old(board)@, d))
                ==> r.best_move is Some && r.lines@.len() == depth_limit(limits),
    {
        let max_root_depth = self.start(&limits);
        self.fault = false;
        let mut best_move = Move::null();
        let mut lines: Vec<DepthReport> = Vec::new();
        let ghost p = board@;
        let ghost ply0 = board.history_ply;
        let ghost b_in = *board;
        let ghost move_time = self.max_move_time;
        let mut current_depth: u16 = 1;
        while current_depth <= max_root_depth as u16
            invariant
                tables.wf(),
                board.wf(),
                board@ == p,
                board.history_ply == ply0,
                p == old(board)@,
                ply0 == old(board).history_ply,
                !self.fault,
                self.max_move_time == move_time,
                max_root_depth == match limits.max_depth { Some(d) => d, None => 20 },
                move_time == match limits.max_move_time { Some(t) => t as u128, None => 10000u128 } * 1000000,
                1 <= current_depth <= max_root_depth as u16 + 1,
                lines@.len() == current_depth - 1,
                forall|k: int| #![trigger lines@[k]] 0 <= k < lines@.len() ==> {
                    &&& lines@[k].depth == k + 1
                    &&& lines@[k].pv@.len() > 0
                    &&& -SCORE_BOUND <= lines@[k].score <= SCORE_BOUND
                },
                if lines@.len() == 0 { best_move.bits() == 0 } else { best_move == lines@.last().pv@[0] },
                lines@.len() > 0 ==> legal_on(&board_of(p), best_move) && pseudo_legal_moves(board_of(p)).contains(best_move),
                max_root_depth <= 1 ==> self.is_aborted == old(self).is_aborted,
                old(board).wf(),
            ensures
                self.is_aborted || lines@.len() == max_root_depth,
            decreases max_root_depth as u16 + 1 - current_depth,
        {
            let depth = current_depth as u8;
            proof {
                lemma_legal_moves_view(*board, *old(board));
            }
            let res = self.search_depth(tables, board, depth, best_move);
            match res {
                DepthResult::Aborted => {
                    break;
                },
                DepthResult::Fault => {
                    return RootReport { lines, best_move: None };
                },
                DepthResult::Done(score) => {
                    let pv = self.pv_table.get_pv();
                    if pv.len() == 0 {
                        return RootReport { lines, best_move: None };
                    }
                    best_move = pv[0];
                    let report = DepthReport {
                        depth,
                        sel_depth: self.sel_depth,
                        score,
                        nodes: self.nodes,
                        time_ms: duration_millis(&elapsed_since(&self.start_time)),
                        pv: vstd::slice::slice_to_vec(pv),
                    };
                    proof {
                        assert(report.depth == lines@.len() + 1);
                        assert(report.pv@.len() > 0);
                    }
                    lines.push(report);
                    proof {
                        assert(lines@.last() == report);
                    }
                },
            }
            current_depth += 1;
        }
        proof {
            if lines@.len() > 0 {
                assert(board_of(p).wf() && board_of(p)@ == p) by {
                    assert(b_in.wf() && b_in@ == p);
                }
                lemma_legal_view(&b_in, &board_of(p), best_move);
            }
        }
        RootReport { lines, best_move: Some(best_move) }
    }
}


} // verus!
