use vstd::prelude::*;
use crate::bitboard::{has_bit, lowest_square, without_lowest, lemma_lowest_square, lemma_lowest_is, lemma_has_bit_zero, file_of};
use crate::board::{Board, Color, Piece, piece_of_kind, color_of};
use crate::mv::{Move, MoveFlag};
use crate::tables::Tables;
use crate::attacks::{knight_attack, king_attack, white_pawn_attack, black_pawn_attack};
use crate::magic_bitboard::{bishop_attack, rook_attack, BISHOP_MASKS, ROOK_MASKS, get_bishop_attacks_mask, get_rook_attacks_mask, get_queen_attacks_mask};

verus! {

/// Capacity of a move list.
pub const MAX_MOVES: usize = 256;

// ---------------------------------------------------------------------------
// Lists of squares.
// ---------------------------------------------------------------------------

/// The squares of a bitboard, lowest first.
pub open spec fn bit_squares(x: u64) -> Seq<int>
    decreases x,
{
    if x == 0 {
        seq![]
    } else {
        proof {
            lemma_lowest_square(x);
        }
        seq![lowest_square(x)] + bit_squares(without_lowest(x))
    }
}

/// The squares from `n` up to 63 that satisfy `p`, in increasing order.
pub open spec fn squares_from(p: spec_fn(int) -> bool, n: int) -> Seq<int>
    decreases 64 - n,
{
    if n >= 64 {
        seq![]
    } else if p(n) {
        seq![n] + squares_from(p, n + 1)
    } else {
        squares_from(p, n + 1)
    }
}

/// The squares that satisfy `p`, in increasing order.
pub open spec fn squares_where(p: spec_fn(int) -> bool) -> Seq<int> {
    squares_from(p, 0)
}

/// A bitboard's squares, lowest first, are the squares it has in
/// increasing order.
pub proof fn lemma_bit_squares(x: u64, p: spec_fn(int) -> bool, n: int)
    requires
        0 <= n <= 64,
        forall|s: int| 0 <= s < 64 ==> #[trigger] has_bit(x, s) == (n <= s && p(s)),
    ensures
        bit_squares(x) == squares_from(p, n),
    decreases 64 - n,
{
    if n == 64 {
        assert forall|s: int| 0 <= s < 64 implies has_bit(x, s) == has_bit(0u64, s) by {
            lemma_has_bit_zero(s);
        }
        crate::bitboard::lemma_bits_ext(x, 0u64);
    } else if p(n) {
        assert forall|s: int| 0 <= s < n implies !has_bit(x, s) by {}
        assert(has_bit(x, n));
        lemma_lowest_is(x, n);
        lemma_lowest_square(x);
        let r = without_lowest(x);
        assert forall|s: int| 0 <= s < 64 implies #[trigger] has_bit(r, s) == (n + 1 <= s && p(s)) by {
            assert(has_bit(x & ((x - 1) as u64), s) == (has_bit(x, s) && s != lowest_square(x)));
        }
        lemma_bit_squares(r, p, n + 1);
    } else {
        assert forall|s: int| 0 <= s < 64 implies #[trigger] has_bit(x, s) == (n + 1 <= s && p(s)) by {}
        lemma_bit_squares(x, p, n + 1);
    }
}

/// The squares of a non-empty bitboard start with its lowest one.
pub proof fn lemma_bit_squares_step(x: u64)
    requires
        x != 0,
    ensures
        bit_squares(x).len() > 0,
        bit_squares(x)[0] == lowest_square(x),
        bit_squares(x).drop_first() == bit_squares(without_lowest(x)),
        0 <= lowest_square(x) < 64,
{
    lemma_lowest_square(x);
    assert((seq![lowest_square(x)] + bit_squares(without_lowest(x))).drop_first() =~= bit_squares(without_lowest(x)));
}

/// Every square of a bitboard's list is on the board.
pub proof fn lemma_bit_squares_on_board(x: u64)
    ensures
        forall|i: int| 0 <= i < bit_squares(x).len() ==> 0 <= #[trigger] bit_squares(x)[i] < 64,
    decreases x,
{
    if x != 0 {
        lemma_bit_squares_step(x);
        lemma_lowest_square(x);
        lemma_bit_squares_on_board(without_lowest(x));
        assert forall|i: int| 0 <= i < bit_squares(x).len() implies 0 <= #[trigger] bit_squares(x)[i] < 64 by {
            if i > 0 {
                assert(bit_squares(x)[i] == bit_squares(without_lowest(x))[i - 1]);
            }
        }
    }
}

// ---------------------------------------------------------------------------
// Lists of moves.
// ---------------------------------------------------------------------------

/// The moves listed for each square of `froms`, one square after another.
pub open spec fn flat(froms: Seq<int>, f: spec_fn(int) -> Seq<Move>) -> Seq<Move>
    decreases froms.len(),
{
    if froms.len() == 0 {
        seq![]
    } else {
        f(froms[0]) + flat(froms.drop_first(), f)
    }
}

/// Moves from `from` to each square of `tos`, all with one flag.
pub open spec fn moves_to(from: int, tos: Seq<int>, flag: MoveFlag) -> Seq<Move> {
    tos.map_values(|t: int| Move::made(from as u8, t as u8, flag))
}

/// A fixed-capacity list of moves.
pub struct MoveList {
    pub moves: [Move; MAX_MOVES],
    pub count: usize,
}

impl View for MoveList {
    type V = Seq<Move>;

    open spec fn view(&self) -> Seq<Move> {
        self.moves@.take(self.count as int)
    }
}

impl MoveList {
    /// At most `MAX_MOVES` moves, and the null move in every cell after them.
    pub open spec fn wf(&self) -> bool {
        &&& self.count <= MAX_MOVES
        &&& forall|i: int| self.count <= i < MAX_MOVES ==> #[trigger] self.moves[i].bits() == 0
    }

    /// An empty list.
    pub fn new() -> (l: MoveList)
        ensures
            l.wf(),
            l@ == Seq::<Move>::empty(),
    {
        let null = Move::null();
        let l = MoveList { moves: [null; 256], count: 0 };
        assert(l@ =~= Seq::<Move>::empty());
        l
    }

    /// Appends a move; the list must not be full.
    pub fn push(&mut self, mv: Move)
        requires
            old(self).wf(),
            old(self)@.len() < MAX_MOVES,
        ensures
            final(self).wf(),
            final(self)@ == old(self)@.push(mv),
            final(self).count == old(self).count + 1,
            final(self).moves@ == old(self).moves@.update(old(self).count as int, mv),
    {
        let ghost before = self@;
        self.moves[self.count] = mv;
        self.count += 1;
        assert(self@ =~= before.push(mv));
    }
}

/// Appends a move from `from` to each square of `mask`, lowest first.
/// Reports `false`, with the list full, when the moves do not fit.
fn append_targets(move_list: &mut MoveList, from: u8, mask: u64, flag: MoveFlag) -> (ok: bool)
    requires
        old(move_list).wf(),
        from < 64,
    ensures
        final(move_list).wf(),
        ok ==> final(move_list)@ == old(move_list)@ + moves_to(from as int, bit_squares(mask), flag),
        !ok ==> old(move_list)@.len() + bit_squares(mask).len() > MAX_MOVES,
{
    let mut m = mask;
    while m != 0
        invariant
            move_list.wf(),
            from < 64,
            old(move_list)@ + moves_to(from as int, bit_squares(mask), flag) == move_list@ + moves_to(from as int, bit_squares(m), flag),
        decreases m,
    {
        proof {
            lemma_bit_squares_step(m);
            lemma_lowest_square(m);
        }
        if move_list.count >= MAX_MOVES {
            proof {
                assert((old(move_list)@ + moves_to(from as int, bit_squares(mask), flag)).len() == (move_list@ + moves_to(from as int, bit_squares(m), flag)).len());
            }
            return false;
        }
        let to = m.trailing_zeros() as u8;
        let ghost before = move_list@;
        let ghost m0 = m;
        m &= m - 1;
        move_list.push(Move::new(from, to, flag));
        proof {
            let rest = moves_to(from as int, bit_squares(m), flag);
            assert(moves_to(from as int, bit_squares(m0), flag) =~= seq![Move::made(from, to, flag)] + rest);
            assert(move_list@ + rest =~= before + moves_to(from as int, bit_squares(m0), flag));
        }
    }
    assert(move_list@ + moves_to(from as int, bit_squares(m), flag) =~= move_list@);
    true
}

// ---------------------------------------------------------------------------
// The moves of the pieces other than pawns.
// ---------------------------------------------------------------------------

pub const KNIGHT: usize = 1;
pub const BISHOP: usize = 2;
pub const ROOK: usize = 3;
pub const QUEEN: usize = 4;
pub const KING: usize = 5;

/// Square `s` holds a piece of kind `kind` (0 pawn to 5 king) of colour `c`.
pub open spec fn own(mb: Seq<Option<Piece>>, s: int, kind: int, c: Color) -> bool {
    mb[s] == Some(piece_of_kind(kind, c))
}

/// Square `t` holds a piece of the colour other than `c`.
pub open spec fn enemy(mb: Seq<Option<Piece>>, t: int, c: Color) -> bool {
    mb[t] matches Some(p) && color_of(p) != c
}

/// Square `t` is empty.
pub open spec fn vacant(mb: Seq<Option<Piece>>, t: int) -> bool {
    mb[t] is None
}

/// A piece of kind `kind` on `from` attacks `t` with the board occupied by
/// `occ`; sliders see the occupancy through their magic masks.
pub open spec fn piece_attack(kind: int, from: int, occ: u64, t: int) -> bool {
    if kind == 1 {
        knight_attack(from, t)
    } else if kind == 2 {
        bishop_attack(from, BISHOP_MASKS[from] & occ, t)
    } else if kind == 3 {
        rook_attack(from, ROOK_MASKS[from] & occ, t)
    } else if kind == 4 {
        bishop_attack(from, BISHOP_MASKS[from] & occ, t) || rook_attack(from, ROOK_MASKS[from] & occ, t)
    } else {
        king_attack(from, t)
    }
}

/// The moves of the piece of kind `kind` on `from`: captures first, then
/// moves to empty squares, each by increasing destination.
pub open spec fn moves_from(b: Board, kind: int, from: int) -> Seq<Move> {
    let mb = b.mailbox@;
    let c = b.active_color;
    moves_to(from, squares_where(|t: int| piece_attack(kind, from, b.all_pieces, t) && enemy(mb, t, c)), MoveFlag::Capture)
        + moves_to(from, squares_where(|t: int| piece_attack(kind, from, b.all_pieces, t) && vacant(mb, t)), MoveFlag::QuietMove)
}

/// The moves of all pieces of kind `kind` of the side to move, by
/// increasing origin square.
pub open spec fn piece_moves(b: Board, kind: int) -> Seq<Move> {
    flat(squares_where(|s: int| own(b.mailbox@, s, kind, b.active_color)), |from: int| moves_from(b, kind, from))
}


// ---------------------------------------------------------------------------
// Pawn moves.
// ---------------------------------------------------------------------------

/// One step forward for a pawn of colour `c`.
pub open spec fn fwd(c: Color) -> int {
    if c == Color::White {
        8
    } else {
        -8
    }
}

/// Square `t` is on the rank where pawns of colour `c` promote.
pub open spec fn last_rank(c: Color, t: int) -> bool {
    if c == Color::White {
        t >= 56
    } else {
        t < 8
    }
}

/// Offset from origin to destination of a capture towards the a-file, and
/// towards the h-file.
pub open spec fn left_delta(c: Color) -> int {
    if c == Color::White {
        7
    } else {
        -9
    }
}

pub open spec fn right_delta(c: Color) -> int {
    if c == Color::White {
        9
    } else {
        -7
    }
}

/// A pawn of colour `c` can step onto empty square `t`.
pub open spec fn push_target(mb: Seq<Option<Piece>>, c: Color, t: int) -> bool {
    0 <= t - fwd(c) < 64 && own(mb, t - fwd(c), 0, c) && vacant(mb, t)
}

/// A pawn of colour `c` can advance two squares onto `t`, from its second
/// rank over an empty square.
pub open spec fn double_target(mb: Seq<Option<Piece>>, c: Color, t: int) -> bool {
    &&& if c == Color::White { 24 <= t < 32 } else { 32 <= t < 40 }
    &&& own(mb, t - 2 * fwd(c), 0, c)
    &&& vacant(mb, t - fwd(c))
    &&& vacant(mb, t)
}

/// A pawn of colour `c` on `t - delta`, not on file `file`, can capture on
/// `t`.
pub open spec fn capture_target(mb: Seq<Option<Piece>>, c: Color, t: int, delta: int, file: int) -> bool {
    0 <= t - delta < 64 && file_of(t - delta) != file && own(mb, t - delta, 0, c) && enemy(mb, t, c)
}

/// The four promotions of a pawn moving from `from` to `to`, knight first.
pub open spec fn promotions(from: int, to: int, capture: bool) -> Seq<Move> {
    if capture {
        seq![
            Move::made(from as u8, to as u8, MoveFlag::PromoteCaptureN),
            Move::made(from as u8, to as u8, MoveFlag::PromoteCaptureB),
            Move::made(from as u8, to as u8, MoveFlag::PromoteCaptureR),
            Move::made(from as u8, to as u8, MoveFlag::PromoteCaptureQ),
        ]
    } else {
        seq![
            Move::made(from as u8, to as u8, MoveFlag::PromoteN),
            Move::made(from as u8, to as u8, MoveFlag::PromoteB),
            Move::made(from as u8, to as u8, MoveFlag::PromoteR),
            Move::made(from as u8, to as u8, MoveFlag::PromoteQ),
        ]
    }
}

/// The moves of a pawn of colour `c` reaching `t` from `t - delta`: a double
/// push, the promotions on the last rank, or a single capture or step.
pub open spec fn pawn_target_moves(c: Color, t: int, delta: int, capture: bool, double: bool) -> Seq<Move> {
    if double {
        seq![Move::made((t - delta) as u8, t as u8, MoveFlag::DoublePawnPush)]
    } else if last_rank(c, t) {
        promotions(t - delta, t, capture)
    } else {
        seq![Move::made((t - delta) as u8, t as u8, if capture { MoveFlag::Capture } else { MoveFlag::QuietMove })]
    }
}

/// A pawn of colour `c` on `s` attacks the en passant square `e`.
pub open spec fn en_passant_source(c: Color, e: int, s: int) -> bool {
    if c == Color::White {
        black_pawn_attack(e, s)
    } else {
        white_pawn_attack(e, s)
    }
}

/// Moves from each square of `froms` to `to`, all with one flag.
pub open spec fn moves_onto(froms: Seq<int>, to: int, flag: MoveFlag) -> Seq<Move> {
    froms.map_values(|s: int| Move::made(s as u8, to as u8, flag))
}

/// The en passant captures of the side to move.
pub open spec fn en_passant_moves(b: Board) -> Seq<Move> {
    match b.en_passant_square {
        None => seq![],
        Some(e) => moves_onto(
            squares_where(|s: int| en_passant_source(b.active_color, e as int, s) && own(b.mailbox@, s, 0, b.active_color)),
            e as int,
            MoveFlag::EnPassant,
        ),
    }
}

/// The pawn moves of the side to move: single steps, double steps, captures
/// towards the a-file, captures towards the h-file, each by increasing
/// destination, then en passant captures by increasing origin.
pub open spec fn pawn_moves(b: Board) -> Seq<Move> {
    let mb = b.mailbox@;
    let c = b.active_color;
    flat(squares_where(|t: int| push_target(mb, c, t)), |t: int| pawn_target_moves(c, t, fwd(c), false, false))
        + flat(squares_where(|t: int| double_target(mb, c, t)), |t: int| pawn_target_moves(c, t, 2 * fwd(c), false, true))
        + flat(squares_where(|t: int| capture_target(mb, c, t, left_delta(c), 0)), |t: int| pawn_target_moves(c, t, left_delta(c), true, false))
        + flat(squares_where(|t: int| capture_target(mb, c, t, right_delta(c), 7)), |t: int| pawn_target_moves(c, t, right_delta(c), true, false))
        + en_passant_moves(b)
}

// ---------------------------------------------------------------------------
// King moves.
// ---------------------------------------------------------------------------

/// The side to move has a king.
pub open spec fn has_king(b: Board) -> bool {
    squares_where(|s: int| own(b.mailbox@, s, 5, b.active_color)).len() > 0
}

/// The lowest square with a king of the side to move.
pub open spec fn king_square(b: Board) -> int {
    squares_where(|s: int| own(b.mailbox@, s, 5, b.active_color))[0]
}

/// The castling moves of a king on `from`: only from its home square, with
/// the right and the squares between king and rook empty.
pub open spec fn castle_moves(b: Board, from: int) -> Seq<Move> {
    let mb = b.mailbox@;
    let cr = b.castling_rights.0;
    if b.active_color == Color::White {
        if from != 4 {
            seq![]
        } else {
            (if cr & 1 != 0 && vacant(mb, 5) && vacant(mb, 6) {
                seq![Move::made(4, 6, MoveFlag::KingCastle)]
            } else {
                seq![]
            }) + (if cr & 2 != 0 && vacant(mb, 1) && vacant(mb, 2) && vacant(mb, 3) {
                seq![Move::made(4, 2, MoveFlag::QueenCastle)]
            } else {
                seq![]
            })
        }
    } else {
        if from != 60 {
            seq![]
        } else {
            (if cr & 4 != 0 && vacant(mb, 61) && vacant(mb, 62) {
                seq![Move::made(60, 62, MoveFlag::KingCastle)]
            } else {
                seq![]
            }) + (if cr & 8 != 0 && vacant(mb, 57) && vacant(mb, 58) && vacant(mb, 59) {
                seq![Move::made(60, 58, MoveFlag::QueenCastle)]
            } else {
                seq![]
            })
        }
    }
}

/// The king moves of the side to move: captures, steps to empty squares,
/// then castling.
pub open spec fn king_moves(b: Board) -> Seq<Move> {
    moves_from(b, 5, king_square(b)) + castle_moves(b, king_square(b))
}

/// The pseudo-legal moves of the side to move, in the order they are
/// generated: pawns, knights, bishops, rooks, queens, king.
pub open spec fn pseudo_legal_moves(b: Board) -> Seq<Move> {
    pawn_moves(b) + piece_moves(b, 1) + piece_moves(b, 2) + piece_moves(b, 3) + piece_moves(b, 4)
        + king_moves(b)
}

/// The attacks of a piece of kind `kind` (knight to queen) on `from`.
fn attacks_for(tables: &Tables, board: &Board, kind: usize, from: u8) -> (r: u64)
    requires
        tables.wf(),
        1 <= kind <= 4,
        from < 64,
    ensures
        forall|t: int| #[trigger] has_bit(r, t) == piece_attack(kind as int, from as int, board.all_pieces, t),
{
    if kind == KNIGHT {
        let r = tables.attacks.knight[from as usize];
        assert forall|t: int| #[trigger] has_bit(r, t) == piece_attack(kind as int, from as int, board.all_pieces, t) by {
            assert(crate::attacks::bits_are(tables.attacks.knight[from as int], |t: int| knight_attack(from as int, t)));
        }
        r
    } else if kind == BISHOP {
        get_bishop_attacks_mask(&tables.magic, board.all_pieces, from)
    } else if kind == ROOK {
        get_rook_attacks_mask(&tables.magic, board.all_pieces, from)
    } else {
        get_queen_attacks_mask(&tables.magic, board.all_pieces, from)
    }
}

/// The bitboards of the side to move and of the other side.
fn sides(board: &Board) -> (r: (u64, u64))
    requires
        board.wf(),
    ensures
        forall|t: int| 0 <= t < 64 ==> #[trigger] has_bit(r.0, t) == (board.mailbox@[t] matches Some(p) && color_of(p) == board.active_color),
        forall|t: int| 0 <= t < 64 ==> #[trigger] has_bit(r.1, t) == enemy(board.mailbox@, t, board.active_color),
{
    if board.active_color == Color::White {
        (board.white_pieces, board.black_pieces)
    } else {
        (board.black_pieces, board.white_pieces)
    }
}

/// Appends the moves of the piece on `from` whose attacks are `attacks`.
fn append_moves_from(move_list: &mut MoveList, board: &Board, kind: usize, from: u8, attacks: u64) -> (ok: bool)
    requires
        board.wf(),
        old(move_list).wf(),
        from < 64,
        forall|t: int| #[trigger] has_bit(attacks, t) == piece_attack(kind as int, from as int, board.all_pieces, t),
    ensures
        final(move_list).wf(),
        ok ==> final(move_list)@ == old(move_list)@ + moves_from(*board, kind as int, from as int),
        !ok ==> old(move_list)@.len() + moves_from(*board, kind as int, from as int).len() > MAX_MOVES,
{
    broadcast use crate::bitboard::group_bits;
    let (us_mask, them_mask) = sides(board);
    let attacks_mask = attacks & !us_mask;
    let captures_mask = attacks_mask & them_mask;
    let quiets_mask = attacks_mask & !them_mask;
    let ghost mb = board.mailbox@;
    let ghost c = board.active_color;
    let ghost pc = |t: int| piece_attack(kind as int, from as int, board.all_pieces, t) && enemy(mb, t, c);
    let ghost pq = |t: int| piece_attack(kind as int, from as int, board.all_pieces, t) && vacant(mb, t);
    proof {
        assert forall|s: int| 0 <= s < 64 implies #[trigger] has_bit(captures_mask, s) == (0 <= s && pc(s)) by {
            assert(has_bit(us_mask, s) == (mb[s] matches Some(p) && color_of(p) == c));
            assert(has_bit(them_mask, s) == enemy(mb, s, c));
        }
        assert forall|s: int| 0 <= s < 64 implies #[trigger] has_bit(quiets_mask, s) == (0 <= s && pq(s)) by {
            assert(has_bit(us_mask, s) == (mb[s] matches Some(p) && color_of(p) == c));
            assert(has_bit(them_mask, s) == enemy(mb, s, c));
        }
        lemma_bit_squares(captures_mask, pc, 0);
        lemma_bit_squares(quiets_mask, pq, 0);
    }
    let ghost before = move_list@;
    if !append_targets(move_list, from, captures_mask, MoveFlag::Capture) {
        return false;
    }
    if !append_targets(move_list, from, quiets_mask, MoveFlag::QuietMove) {
        return false;
    }
    assert(move_list@ =~= before + moves_from(*board, kind as int, from as int));
    true
}

/// Appends the moves of all pieces of kind `kind` (knight to queen) of the
/// side to move.
fn append_piece_moves(tables: &Tables, board: &Board, kind: usize, move_list: &mut MoveList) -> (ok: bool)
    requires
        tables.wf(),
        board.wf(),
        1 <= kind <= 4,
        old(move_list).wf(),
    ensures
        final(move_list).wf(),
        ok ==> final(move_list)@ == old(move_list)@ + piece_moves(*board, kind as int),
        !ok ==> old(move_list)@.len() + piece_moves(*board, kind as int).len() > MAX_MOVES,
{
    broadcast use crate::bitboard::group_bits;
    let ghost mb = board.mailbox@;
    let ghost c = board.active_color;
    let index = if board.active_color == Color::White { kind } else { kind + 6 };
    let mut pieces_mask = board.pieces[index];
    let ghost own_p = |s: int| own(mb, s, kind as int, c);
    let ghost f = |from: int| moves_from(*board, kind as int, from);
    proof {
        assert forall|s: int| 0 <= s < 64 implies #[trigger] has_bit(pieces_mask, s) == (0 <= s && own_p(s)) by {
            assert(has_bit(board.pieces[index as int], s) == (mb[s] == Some(crate::board::piece_of(index as int))));
        }
        lemma_bit_squares(pieces_mask, own_p, 0);
    }
    let ghost m0 = pieces_mask;
    assert(piece_moves(*board, kind as int) == flat(bit_squares(m0), f));
    while pieces_mask != 0
        invariant
            tables.wf(),
            board.wf(),
            1 <= kind <= 4,
            move_list.wf(),
            piece_moves(*board, kind as int) == flat(bit_squares(m0), f),
            old(move_list)@ + flat(bit_squares(m0), f) == move_list@ + flat(bit_squares(pieces_mask), f),
            f == (|from: int| moves_from(*board, kind as int, from)),
        decreases pieces_mask,
    {
        proof {
            lemma_bit_squares_step(pieces_mask);
            lemma_lowest_square(pieces_mask);
        }
        let from = pieces_mask.trailing_zeros() as u8;
        let ghost m = pieces_mask;
        pieces_mask &= pieces_mask - 1;
        let attacks = attacks_for(tables, board, kind, from);
        let ghost before = move_list@;
        proof {
            assert(flat(bit_squares(m), f) == f(from as int) + flat(bit_squares(pieces_mask), f));
        }
        if !append_moves_from(move_list, board, kind, from, attacks) {
            proof {
                assert((old(move_list)@ + flat(bit_squares(m0), f)).len() == (before + flat(bit_squares(m), f)).len());
            }
            return false;
        }
        proof {
            assert(move_list@ + flat(bit_squares(pieces_mask), f) =~= before + flat(bit_squares(m), f));
        }
    }
    assert(move_list@ + flat(bit_squares(pieces_mask), f) =~= move_list@);
    true
}


/// The rank and file bitboards that the pawn generators test, square by
/// square.
proof fn lemma_line_bits(t: int)
    requires
        0 <= t < 64,
    ensures
        has_bit(crate::bitboard::RANK_1, t) == (t < 8),
        has_bit(crate::bitboard::RANK_4, t) == (24 <= t < 32),
        has_bit(crate::bitboard::RANK_5, t) == (32 <= t < 40),
        has_bit(crate::bitboard::RANK_8, t) == (56 <= t),
        has_bit(crate::bitboard::FILE_A, t) == (file_of(t) == 0),
        has_bit(crate::bitboard::FILE_H, t) == (file_of(t) == 7),
{
    let k = t as u64;
    assert(k < 64 ==> ((((0xFFu64 >> k) & 1 == 1) <==> k < 8)
        && (((0xFF000000u64 >> k) & 1 == 1) <==> (24 <= k && k < 32))
        && (((0xFF00000000u64 >> k) & 1 == 1) <==> (32 <= k && k < 40))
        && (((0xFF00000000000000u64 >> k) & 1 == 1) <==> 56 <= k)
        && (((0x0101010101010101u64 >> k) & 1 == 1) <==> k % 8 == 0)
        && (((0x8080808080808080u64 >> k) & 1 == 1) <==> k % 8 == 7))) by (bit_vector);
}

/// Appends a pawn's four promotions, knight first.
fn append_promotions(from: u8, to: u8, move_list: &mut MoveList) -> (ok: bool)
    requires
        old(move_list).wf(),
        from < 64,
        to < 64,
    ensures
        final(move_list).wf(),
        ok ==> final(move_list)@ == old(move_list)@ + promotions(from as int, to as int, false),
        !ok ==> old(move_list)@.len() + 4 > MAX_MOVES && final(move_list)@ == old(move_list)@,
{
    if move_list.count > MAX_MOVES - 4 {
        return false;
    }
    let ghost before = move_list@;
    move_list.push(Move::new(from, to, MoveFlag::PromoteN));
    move_list.push(Move::new(from, to, MoveFlag::PromoteB));
    move_list.push(Move::new(from, to, MoveFlag::PromoteR));
    move_list.push(Move::new(from, to, MoveFlag::PromoteQ));
    assert(move_list@ =~= before + promotions(from as int, to as int, false));
    true
}

/// Appends a pawn's four capturing promotions, knight first.
fn append_capture_promotions(from: u8, to: u8, move_list: &mut MoveList) -> (ok: bool)
    requires
        old(move_list).wf(),
        from < 64,
        to < 64,
    ensures
        final(move_list).wf(),
        ok ==> final(move_list)@ == old(move_list)@ + promotions(from as int, to as int, true),
        !ok ==> old(move_list)@.len() + 4 > MAX_MOVES && final(move_list)@ == old(move_list)@,
{
    if move_list.count > MAX_MOVES - 4 {
        return false;
    }
    let ghost before = move_list@;
    move_list.push(Move::new(from, to, MoveFlag::PromoteCaptureN));
    move_list.push(Move::new(from, to, MoveFlag::PromoteCaptureB));
    move_list.push(Move::new(from, to, MoveFlag::PromoteCaptureR));
    move_list.push(Move::new(from, to, MoveFlag::PromoteCaptureQ));
    assert(move_list@ =~= before + promotions(from as int, to as int, true));
    true
}

/// Appends the moves of pawns of colour `c` reaching each square of `mask`
/// from `delta` squares back, lowest destination first.
fn append_pawn_targets(move_list: &mut MoveList, mask: u64, c: Color, delta: i8, capture: bool, double: bool) -> (ok: bool)
    requires
        old(move_list).wf(),
        forall|t: int| #[trigger] has_bit(mask, t) ==> 0 <= t - delta < 64,
    ensures
        final(move_list).wf(),
        ok ==> final(move_list)@ == old(move_list)@ + flat(bit_squares(mask), |t: int| pawn_target_moves(c, t, delta as int, capture, double)),
        !ok ==> old(move_list)@.len() + flat(bit_squares(mask), |t: int| pawn_target_moves(c, t, delta as int, capture, double)).len() > MAX_MOVES,
{
    let ghost f = |t: int| pawn_target_moves(c, t, delta as int, capture, double);
    let mut m = mask;
    while m != 0
        invariant
            move_list.wf(),
            forall|t: int| #[trigger] has_bit(m, t) ==> 0 <= t - delta < 64,
            old(move_list)@ + flat(bit_squares(mask), f) == move_list@ + flat(bit_squares(m), f),
            f == (|t: int| pawn_target_moves(c, t, delta as int, capture, double)),
        decreases m,
    {
        proof {
            lemma_bit_squares_step(m);
            lemma_lowest_square(m);
        }
        let to = m.trailing_zeros() as u8;
        let ghost m0 = m;
        let ghost before = move_list@;
        m &= m - 1;
        proof {
            assert(flat(bit_squares(m0), f) == f(to as int) + flat(bit_squares(m), f));
            assert forall|t: int| #[trigger] has_bit(m, t) implies 0 <= t - delta < 64 by {
                assert(has_bit(m0 & ((m0 - 1) as u64), t) == (has_bit(m0, t) && t != lowest_square(m0)));
            }
            lemma_line_bits(to as int);
            crate::bitboard::lemma_bit_test(to as u64, crate::bitboard::RANK_8);
            crate::bitboard::lemma_bit_test(to as u64, crate::bitboard::RANK_1);
        }
        proof {
            assert((old(move_list)@ + flat(bit_squares(mask), f)).len() == (before + flat(bit_squares(m0), f)).len());
        }
        let from = ((to as i16) - (delta as i16)) as u8;
        if double {
            if move_list.count >= MAX_MOVES {
                return false;
            }
            move_list.push(Move::new(from, to, MoveFlag::DoublePawnPush));
        } else {
            let promote = if c == Color::White {
                (1u64 << to) & crate::bitboard::RANK_8 != 0
            } else {
                (1u64 << to) & crate::bitboard::RANK_1 != 0
            };
            if promote {
                if capture {
                    if !append_capture_promotions(from, to, move_list) {
                        return false;
                    }
                } else {
                    if !append_promotions(from, to, move_list) {
                        return false;
                    }
                }
            } else {
                if move_list.count >= MAX_MOVES {
                    return false;
                }
                if capture {
                    move_list.push(Move::new(from, to, MoveFlag::Capture));
                } else {
                    move_list.push(Move::new(from, to, MoveFlag::QuietMove));
                }
            }
        }
        proof {
            assert(move_list@ =~= before + f(to as int));
            assert(move_list@ + flat(bit_squares(m), f) =~= before + flat(bit_squares(m0), f));
        }
    }
    assert(move_list@ + flat(bit_squares(m), f) =~= move_list@);
    true
}

/// Appends an en passant capture onto `e` from each square of `mask`.
fn append_en_passant(move_list: &mut MoveList, mask: u64, e: u8) -> (ok: bool)
    requires
        old(move_list).wf(),
        e < 64,
    ensures
        final(move_list).wf(),
        ok ==> final(move_list)@ == old(move_list)@ + moves_onto(bit_squares(mask), e as int, MoveFlag::EnPassant),
        !ok ==> old(move_list)@.len() + bit_squares(mask).len() > MAX_MOVES,
{
    let mut m = mask;
    while m != 0
        invariant
            move_list.wf(),
            e < 64,
            old(move_list)@ + moves_onto(bit_squares(mask), e as int, MoveFlag::EnPassant) == move_list@ + moves_onto(bit_squares(m), e as int, MoveFlag::EnPassant),
        decreases m,
    {
        proof {
            lemma_bit_squares_step(m);
            lemma_lowest_square(m);
        }
        if move_list.count >= MAX_MOVES {
            proof {
                assert((old(move_list)@ + moves_onto(bit_squares(mask), e as int, MoveFlag::EnPassant)).len() == (move_list@ + moves_onto(bit_squares(m), e as int, MoveFlag::EnPassant)).len());
            }
            return false;
        }
        let from = m.trailing_zeros() as u8;
        let ghost m0 = m;
        let ghost before = move_list@;
        m &= m - 1;
        move_list.push(Move::new(from, e, MoveFlag::EnPassant));
        proof {
            let rest = moves_onto(bit_squares(m), e as int, MoveFlag::EnPassant);
            assert(moves_onto(bit_squares(m0), e as int, MoveFlag::EnPassant) =~= seq![Move::made(from, e, MoveFlag::EnPassant)] + rest);
            assert(move_list@ + rest =~= before + moves_onto(bit_squares(m0), e as int, MoveFlag::EnPassant));
        }
    }
    assert(move_list@ + moves_onto(bit_squares(m), e as int, MoveFlag::EnPassant) =~= move_list@);
    true
}

pub struct MoveGenerator;

impl MoveGenerator {
    fn generate_pawn_moves(tables: &Tables, board: &Board, move_list: &mut MoveList) -> (ok: bool)
        requires
            tables.wf(),
            board.wf(),
            old(move_list).wf(),
        ensures
            final(move_list).wf(),
            ok ==> final(move_list)@ == old(move_list)@ + pawn_moves(*board),
            !ok ==> old(move_list)@.len() + pawn_moves(*board).len() > MAX_MOVES,
    {
        if board.active_color == Color::White {
            Self::generate_white_pawn_moves(tables, board, move_list)
        } else {
            Self::generate_black_pawn_moves(tables, board, move_list)
        }
    }

    #[verifier::spinoff_prover]
    fn generate_white_pawn_moves(tables: &Tables, board: &Board, move_list: &mut MoveList) -> (ok: bool)
        requires
            tables.wf(),
            board.wf(),
            board.active_color == Color::White,
            old(move_list).wf(),
        ensures
            final(move_list).wf(),
            ok ==> final(move_list)@ == old(move_list)@ + pawn_moves(*board),
            !ok ==> old(move_list)@.len() + pawn_moves(*board).len() > MAX_MOVES,
    {
        broadcast use crate::bitboard::group_bits;
        let ghost mb = board.mailbox@;
        let ghost c = Color::White;
        let pawns_mask = board.pieces[0];
        let them_mask = board.black_pieces;
        let empty_mask = !board.all_pieces;
        let push_mask = pawns_mask << 8 & empty_mask;
        let double_push_mask = push_mask << 8 & empty_mask & crate::bitboard::RANK_4;
        let capture_left_mask = ((pawns_mask & !crate::bitboard::FILE_A) << 7) & them_mask;
        let capture_right_mask = ((pawns_mask & !crate::bitboard::FILE_H) << 9) & them_mask;
        let ghost pp = |t: int| push_target(mb, c, t);
        let ghost pd = |t: int| double_target(mb, c, t);
        let ghost pl = |t: int| capture_target(mb, c, t, left_delta(c), 0);
        let ghost pr = |t: int| capture_target(mb, c, t, right_delta(c), 7);
        proof {
            assert forall|t: int| 0 <= t < 64 implies #[trigger] has_bit(push_mask, t) == (0 <= t && pp(t)) by {
                if 0 <= t - 8 < 64 {
                    assert(has_bit(board.pieces[0], t - 8) == (mb[t - 8] == Some(crate::board::piece_of(0))));
                }
                lemma_line_bits(t);
            }
            assert forall|t: int| 0 <= t < 64 implies #[trigger] has_bit(double_push_mask, t) == (0 <= t && pd(t)) by {
                if 0 <= t - 16 < 64 {
                    assert(has_bit(board.pieces[0], t - 16) == (mb[t - 16] == Some(crate::board::piece_of(0))));
                }
                assert(has_bit(push_mask, t - 8) == (t >= 8 && has_bit(pawns_mask, t - 16) && !has_bit(board.all_pieces, t - 8)));
                lemma_line_bits(t);
            }
            assert forall|t: int| 0 <= t < 64 implies #[trigger] has_bit(capture_left_mask, t) == (0 <= t && pl(t)) by {
                if 0 <= t - 7 < 64 {
                    assert(has_bit(board.pieces[0], t - 7) == (mb[t - 7] == Some(crate::board::piece_of(0))));
                }
                if t >= 7 {
                    lemma_line_bits(t - 7);
                }
            }
            assert forall|t: int| 0 <= t < 64 implies #[trigger] has_bit(capture_right_mask, t) == (0 <= t && pr(t)) by {
                if 0 <= t - 9 < 64 {
                    assert(has_bit(board.pieces[0], t - 9) == (mb[t - 9] == Some(crate::board::piece_of(0))));
                }
                if t >= 9 {
                    lemma_line_bits(t - 9);
                }
            }
            lemma_bit_squares(push_mask, pp, 0);
            lemma_bit_squares(double_push_mask, pd, 0);
            lemma_bit_squares(capture_left_mask, pl, 0);
            lemma_bit_squares(capture_right_mask, pr, 0);
        }
        let ghost start = move_list@;
        if !append_pawn_targets(move_list, push_mask, Color::White, 8, false, false) {
            return false;
        }
        if !append_pawn_targets(move_list, double_push_mask, Color::White, 16, false, true) {
            return false;
        }
        if !append_pawn_targets(move_list, capture_left_mask, Color::White, 7, true, false) {
            return false;
        }
        if !append_pawn_targets(move_list, capture_right_mask, Color::White, 9, true, false) {
            return false;
        }
        if let Some(en_passant_square) = board.en_passant_square {
            let can_en_passant_mask = tables.attacks.black_pawn[en_passant_square as usize] & pawns_mask;
            proof {
                let e = en_passant_square as int;
                let pe = |s: int| en_passant_source(c, e, s) && own(mb, s, 0, c);
                assert(crate::attacks::bits_are(tables.attacks.black_pawn[e], |t: int| black_pawn_attack(e, t)));
                assert forall|t: int| 0 <= t < 64 implies #[trigger] has_bit(can_en_passant_mask, t) == (0 <= t && pe(t)) by {
                    assert(has_bit(board.pieces[0], t) == (mb[t] == Some(crate::board::piece_of(0))));
                }
                lemma_bit_squares(can_en_passant_mask, pe, 0);
            }
            if !append_en_passant(move_list, can_en_passant_mask, en_passant_square) {
                return false;
            }
        }
        assert(move_list@ =~= start + pawn_moves(*board));
        true
    }

    #[verifier::spinoff_prover]
    fn generate_black_pawn_moves(tables: &Tables, board: &Board, move_list: &mut MoveList) -> (ok: bool)
        requires
            tables.wf(),
            board.wf(),
            board.active_color == Color::Black,
            old(move_list).wf(),
        ensures
            final(move_list).wf(),
            ok ==> final(move_list)@ == old(move_list)@ + pawn_moves(*board),
            !ok ==> old(move_list)@.len() + pawn_moves(*board).len() > MAX_MOVES,
    {
        broadcast use crate::bitboard::group_bits;
        let ghost mb = board.mailbox@;
        let ghost c = Color::Black;
        let pawns_mask = board.pieces[6];
        let them_mask = board.white_pieces;
        let empty_mask = !board.all_pieces;
        let push_mask = pawns_mask >> 8 & empty_mask;
        let double_push_mask = push_mask >> 8 & empty_mask & crate::bitboard::RANK_5;
        let capture_left_mask = ((pawns_mask & !crate::bitboard::FILE_A) >> 9) & them_mask;
        let capture_right_mask = ((pawns_mask & !crate::bitboard::FILE_H) >> 7) & them_mask;
        let ghost pp = |t: int| push_target(mb, c, t);
        let ghost pd = |t: int| double_target(mb, c, t);
        let ghost pl = |t: int| capture_target(mb, c, t, left_delta(c), 0);
        let ghost pr = |t: int| capture_target(mb, c, t, right_delta(c), 7);
        proof {
            assert forall|t: int| 0 <= t < 64 implies #[trigger] has_bit(push_mask, t) == (0 <= t && pp(t)) by {
                if 0 <= t + 8 < 64 {
                    assert(has_bit(board.pieces[6], t + 8) == (mb[t + 8] == Some(crate::board::piece_of(6))));
                }
                lemma_line_bits(t);
            }
            assert forall|t: int| 0 <= t < 64 implies #[trigger] has_bit(double_push_mask, t) == (0 <= t && pd(t)) by {
                if 0 <= t + 16 < 64 {
                    assert(has_bit(board.pieces[6], t + 16) == (mb[t + 16] == Some(crate::board::piece_of(6))));
                }
                assert(has_bit(push_mask, t + 8) == (t + 8 < 56 && has_bit(pawns_mask, t + 16) && !has_bit(board.all_pieces, t + 8)));
                lemma_line_bits(t);
            }
            assert forall|t: int| 0 <= t < 64 implies #[trigger] has_bit(capture_left_mask, t) == (0 <= t && pl(t)) by {
                if 0 <= t + 9 < 64 {
                    assert(has_bit(board.pieces[6], t + 9) == (mb[t + 9] == Some(crate::board::piece_of(6))));
                }
                if t + 9 < 64 {
                    lemma_line_bits(t + 9);
                }
            }
            assert forall|t: int| 0 <= t < 64 implies #[trigger] has_bit(capture_right_mask, t) == (0 <= t && pr(t)) by {
                if 0 <= t + 7 < 64 {
                    assert(has_bit(board.pieces[6], t + 7) == (mb[t + 7] == Some(crate::board::piece_of(6))));
                }
                if t + 7 < 64 {
                    lemma_line_bits(t + 7);
                }
            }
            lemma_bit_squares(push_mask, pp, 0);
            lemma_bit_squares(double_push_mask, pd, 0);
            lemma_bit_squares(capture_left_mask, pl, 0);
            lemma_bit_squares(capture_right_mask, pr, 0);
        }
        let ghost start = move_list@;
        if !append_pawn_targets(move_list, push_mask, Color::Black, -8, false, false) {
            return false;
        }
        if !append_pawn_targets(move_list, double_push_mask, Color::Black, -16, false, true) {
            return false;
        }
        if !append_pawn_targets(move_list, capture_left_mask, Color::Black, -9, true, false) {
            return false;
        }
        if !append_pawn_targets(move_list, capture_right_mask, Color::Black, -7, true, false) {
            return false;
        }
        if let Some(en_passant_square) = board.en_passant_square {
            let can_en_passant_mask = tables.attacks.white_pawn[en_passant_square as usize] & pawns_mask;
            proof {
                let e = en_passant_square as int;
                let pe = |s: int| en_passant_source(c, e, s) && own(mb, s, 0, c);
                assert(crate::attacks::bits_are(tables.attacks.white_pawn[e], |t: int| white_pawn_attack(e, t)));
                assert forall|t: int| 0 <= t < 64 implies #[trigger] has_bit(can_en_passant_mask, t) == (0 <= t && pe(t)) by {
                    assert(has_bit(board.pieces[6], t) == (mb[t] == Some(crate::board::piece_of(6))));
                }
                lemma_bit_squares(can_en_passant_mask, pe, 0);
            }
            if !append_en_passant(move_list, can_en_passant_mask, en_passant_square) {
                return false;
            }
        }
        assert(move_list@ =~= start + pawn_moves(*board));
        true
    }

    fn generate_knight_moves(tables: &Tables, board: &Board, move_list: &mut MoveList) -> (ok: bool)
        requires
            tables.wf(),
            board.wf(),
            old(move_list).wf(),
        ensures
            final(move_list).wf(),
            ok ==> final(move_list)@ == old(move_list)@ + piece_moves(*board, 1),
            !ok ==> old(move_list)@.len() + piece_moves(*board, 1).len() > MAX_MOVES,
    {
        append_piece_moves(tables, board, KNIGHT, move_list)
    }

    fn generate_bishop_moves(tables: &Tables, board: &Board, move_list: &mut MoveList) -> (ok: bool)
        requires
            tables.wf(),
            board.wf(),
            old(move_list).wf(),
        ensures
            final(move_list).wf(),
            ok ==> final(move_list)@ == old(move_list)@ + piece_moves(*board, 2),
            !ok ==> old(move_list)@.len() + piece_moves(*board, 2).len() > MAX_MOVES,
    {
        append_piece_moves(tables, board, BISHOP, move_list)
    }

    fn generate_rook_moves(tables: &Tables, board: &Board, move_list: &mut MoveList) -> (ok: bool)
        requires
            tables.wf(),
            board.wf(),
            old(move_list).wf(),
        ensures
            final(move_list).wf(),
            ok ==> final(move_list)@ == old(move_list)@ + piece_moves(*board, 3),
            !ok ==> old(move_list)@.len() + piece_moves(*board, 3).len() > MAX_MOVES,
    {
        append_piece_moves(tables, board, ROOK, move_list)
    }

    fn generate_queen_moves(tables: &Tables, board: &Board, move_list: &mut MoveList) -> (ok: bool)
        requires
            tables.wf(),
            board.wf(),
            old(move_list).wf(),
        ensures
            final(move_list).wf(),
            ok ==> final(move_list)@ == old(move_list)@ + piece_moves(*board, 4),
            !ok ==> old(move_list)@.len() + piece_moves(*board, 4).len() > MAX_MOVES,
    {
        append_piece_moves(tables, board, QUEEN, move_list)
    }

    #[verifier::spinoff_prover]
    fn generate_king_moves(tables: &Tables, board: &Board, move_list: &mut MoveList) -> (ok: bool)
        requires
            tables.wf(),
            board.wf(),
            has_king(*board),
            old(move_list).wf(),
        ensures
            final(move_list).wf(),
            ok ==> final(move_list)@ == old(move_list)@ + king_moves(*board),
            !ok ==> old(move_list)@.len() + king_moves(*board).len() > MAX_MOVES,
    {
        broadcast use crate::bitboard::group_bits;
        let ghost mb = board.mailbox@;
        let ghost c = board.active_color;
        let king_mask = if board.active_color == Color::White {
            board.pieces[5]
        } else {
            board.pieces[11]
        };
        let ghost pk = |s: int| own(mb, s, 5, c);
        proof {
            assert forall|s: int| 0 <= s < 64 implies #[trigger] has_bit(king_mask, s) == (0 <= s && pk(s)) by {
                if c == Color::White {
                    assert(has_bit(board.pieces[5], s) == (mb[s] == Some(crate::board::piece_of(5))));
                } else {
                    assert(has_bit(board.pieces[11], s) == (mb[s] == Some(crate::board::piece_of(11))));
                }
            }
            lemma_bit_squares(king_mask, pk, 0);
            if king_mask == 0 {
                assert(bit_squares(king_mask).len() == 0);
            }
            lemma_bit_squares_step(king_mask);
        }
        let from = king_mask.trailing_zeros() as u8;
        let attacks = tables.attacks.king[from as usize];
        proof {
            assert(from as int == king_square(*board));
            assert(crate::attacks::bits_are(tables.attacks.king[from as int], |t: int| king_attack(from as int, t)));
            assert forall|t: int| #[trigger] has_bit(attacks, t) == piece_attack(5, from as int, board.all_pieces, t) by {}
        }
        let ghost start = move_list@;
        if !append_moves_from(move_list, board, KING, from, attacks) {
            return false;
        }
        let ghost mid = move_list@;
        let all = board.all_pieces;
        proof {
            assert((all & 0x60u64 == 0) == ((all >> 5u64) & 1 != 1 && (all >> 6u64) & 1 != 1)
                && (all & 0xEu64 == 0) == ((all >> 1u64) & 1 != 1 && (all >> 2u64) & 1 != 1 && (all >> 3u64) & 1 != 1)
                && (all & 0x6000000000000000u64 == 0) == ((all >> 61u64) & 1 != 1 && (all >> 62u64) & 1 != 1)
                && (all & 0xE00000000000000u64 == 0) == ((all >> 57u64) & 1 != 1 && (all >> 58u64) & 1 != 1 && (all >> 59u64) & 1 != 1)) by (bit_vector);
            assert(has_bit(all, 1) == mb[1] is Some);
            assert(has_bit(all, 2) == mb[2] is Some);
            assert(has_bit(all, 3) == mb[3] is Some);
            assert(has_bit(all, 5) == mb[5] is Some);
            assert(has_bit(all, 6) == mb[6] is Some);
            assert(has_bit(all, 57) == mb[57] is Some);
            assert(has_bit(all, 58) == mb[58] is Some);
            assert(has_bit(all, 59) == mb[59] is Some);
            assert(has_bit(all, 61) == mb[61] is Some);
            assert(has_bit(all, 62) == mb[62] is Some);
        }
        if board.active_color == Color::White {
            if from != crate::board::Square::E1.index() {
                assert(move_list@ =~= start + king_moves(*board));
                return true;
            }
            if board.castling_rights.has(crate::board::CastlingRights::WHITE_KINGSIDE) && board.all_pieces & crate::bitboard::WHITE_KINGSIDE_CASTLING == 0 {
                if move_list.count >= MAX_MOVES {
                    proof {
                        assert(king_moves(*board).len() == moves_from(*board, 5, from as int).len() + castle_moves(*board, from as int).len());
                        assert(move_list@.len() + 1 <= mid.len() - start.len() + start.len() + castle_moves(*board, from as int).len());
                    }
                    return false;
                }
                move_list.push(Move::new(from, crate::board::Square::G1.index(), MoveFlag::KingCastle));
            }
            let ghost mid2 = move_list@;
            if board.castling_rights.has(crate::board::CastlingRights::WHITE_QUEENSIDE) && board.all_pieces & crate::bitboard::WHITE_QUEENSIDE_CASTLING == 0 {
                if move_list.count >= MAX_MOVES {
                    proof {
                        assert(king_moves(*board).len() == moves_from(*board, 5, from as int).len() + castle_moves(*board, from as int).len());
                        assert(move_list@.len() + 1 <= mid.len() - start.len() + start.len() + castle_moves(*board, from as int).len());
                    }
                    return false;
                }
                move_list.push(Move::new(from, crate::board::Square::C1.index(), MoveFlag::QueenCastle));
            }
            assert(move_list@ =~= start + king_moves(*board));
        } else {
            if from != crate::board::Square::E8.index() {
                assert(move_list@ =~= start + king_moves(*board));
                return true;
            }
            if board.castling_rights.has(crate::board::CastlingRights::BLACK_KINGSIDE) && board.all_pieces & crate::bitboard::BLACK_KINGSIDE_CASTLING == 0 {
                if move_list.count >= MAX_MOVES {
                    proof {
                        assert(king_moves(*board).len() == moves_from(*board, 5, from as int).len() + castle_moves(*board, from as int).len());
                        assert(move_list@.len() + 1 <= mid.len() - start.len() + start.len() + castle_moves(*board, from as int).len());
                    }
                    return false;
                }
                move_list.push(Move::new(from, crate::board::Square::G8.index(), MoveFlag::KingCastle));
            }
            if board.castling_rights.has(crate::board::CastlingRights::BLACK_QUEENSIDE) && board.all_pieces & crate::bitboard::BLACK_QUEENSIDE_CASTLING == 0 {
                if move_list.count >= MAX_MOVES {
                    proof {
                        assert(king_moves(*board).len() == moves_from(*board, 5, from as int).len() + castle_moves(*board, from as int).len());
                        assert(move_list@.len() + 1 <= mid.len() - start.len() + start.len() + castle_moves(*board, from as int).len());
                    }
                    return false;
                }
                move_list.push(Move::new(from, crate::board::Square::C8.index(), MoveFlag::QueenCastle));
            }
            assert(move_list@ =~= start + king_moves(*board));
        }
        true
    }

    /// Appends the pseudo-legal moves of the side to move; `false`, with
    /// the list full, when they do not fit.
    fn fill_pseudo_legal_moves(tables: &Tables, board: &Board, move_list: &mut MoveList) -> (ok: bool)
        requires
            tables.wf(),
            board.wf(),
            has_king(*board),
            old(move_list).wf(),
            old(move_list)@.len() == 0,
        ensures
            final(move_list).wf(),
            ok ==> final(move_list)@ == pseudo_legal_moves(*board),
            !ok ==> pseudo_legal_moves(*board).len() > MAX_MOVES,
    {
        let ghost b = *board;
        if !Self::generate_pawn_moves(tables, board, move_list) {
            return false;
        }
        assert(move_list@ =~= pawn_moves(b));
        if !Self::generate_knight_moves(tables, board, move_list) {
            return false;
        }
        assert(move_list@ =~= pawn_moves(b) + piece_moves(b, 1));
        if !Self::generate_bishop_moves(tables, board, move_list) {
            return false;
        }
        assert(move_list@ =~= pawn_moves(b) + piece_moves(b, 1) + piece_moves(b, 2));
        if !Self::generate_rook_moves(tables, board, move_list) {
            return false;
        }
        assert(move_list@ =~= pawn_moves(b) + piece_moves(b, 1) + piece_moves(b, 2) + piece_moves(b, 3));
        if !Self::generate_queen_moves(tables, board, move_list) {
            return false;
        }
        assert(move_list@ =~= pawn_moves(b) + piece_moves(b, 1) + piece_moves(b, 2) + piece_moves(b, 3) + piece_moves(b, 4));
        if !Self::generate_king_moves(tables, board, move_list) {
            return false;
        }
        assert(move_list@ =~= pseudo_legal_moves(b));
        true
    }

    /// The pseudo-legal moves of the side to move (see
    /// `pseudo_legal_moves`); the side to move must have a king and the
    /// moves must fit in a list.
    pub fn generate_pseudo_legal_moves(tables: &Tables, board: &Board) -> (l: MoveList)
        requires
            tables.wf(),
            board.wf(),
            has_king(*board),
            pseudo_legal_moves(*board).len() <= MAX_MOVES,
        ensures
            l.wf(),
            l@ == pseudo_legal_moves(*board),
    {
        let mut move_list: MoveList = MoveList::new();
        let _ = Self::fill_pseudo_legal_moves(tables, board, &mut move_list);
        move_list
    }

    /// `generate_pseudo_legal_moves` for every board whose side to move has
    /// a king: `None` when the moves do not fit in a list.
    pub fn try_generate_pseudo_legal_moves(tables: &Tables, board: &Board) -> (r: Option<MoveList>)
        requires
            tables.wf(),
            board.wf(),
            has_king(*board),
        ensures
            r is Some <==> pseudo_legal_moves(*board).len() <= MAX_MOVES,
            r matches Some(l) ==> l.wf() && l@ == pseudo_legal_moves(*board),
    {
        let mut move_list: MoveList = MoveList::new();
        if Self::fill_pseudo_legal_moves(tables, board, &mut move_list) {
            Some(move_list)
        } else {
            None
        }
    }

}


impl Default for MoveList {
    /// The empty list.
    fn default() -> (l: MoveList)
        ensures
            l.wf(),
            l@ == Seq::<Move>::empty(),
    {
        MoveList::new()
    }
}


/// The squares picked from `n` on satisfy the test and lie on the board.
pub proof fn lemma_squares_from_contains(p: spec_fn(int) -> bool, n: int, x: int)
    requires
        0 <= n,
        squares_from(p, n).contains(x),
    ensures
        p(x),
        n <= x < 64,
    decreases 64 - n,
{
    if n < 64 {
        let rest = squares_from(p, n + 1);
        if p(n) {
            let i = choose|i: int| 0 <= i < squares_from(p, n).len() && #[trigger] squares_from(p, n)[i] == x;
            if i > 0 {
                assert(rest[i - 1] == x);
                lemma_squares_from_contains(p, n + 1, x);
            }
        } else {
            lemma_squares_from_contains(p, n + 1, x);
        }
    }
}

/// A move of a flattened list comes from the list of one square.
pub proof fn lemma_flat_contains(froms: Seq<int>, f: spec_fn(int) -> Seq<Move>, m: Move)
    requires
        flat(froms, f).contains(m),
    ensures
        exists|i: int| 0 <= i < froms.len() && #[trigger] f(froms[i]).contains(m),
    decreases froms.len(),
{
    if froms.len() > 0 {
        let head = f(froms[0]);
        let rest = flat(froms.drop_first(), f);
        let k = choose|k: int| 0 <= k < flat(froms, f).len() && #[trigger] flat(froms, f)[k] == m;
        if k < head.len() {
            assert(head[k] == m);
            assert(f(froms[0]).contains(m));
        } else {
            assert(rest[k - head.len()] == m);
            lemma_flat_contains(froms.drop_first(), f, m);
            let i = choose|i: int| 0 <= i < froms.drop_first().len() && #[trigger] f(froms.drop_first()[i]).contains(m);
            assert(froms[i + 1] == froms.drop_first()[i]);
        }
    }
}

/// A move of a joined list comes from one of the two parts.
pub proof fn lemma_join_contains(a: Seq<Move>, b: Seq<Move>, m: Move)
    requires
        (a + b).contains(m),
    ensures
        a.contains(m) || b.contains(m),
{
    let k = choose|k: int| 0 <= k < (a + b).len() && #[trigger] (a + b)[k] == m;
    if k < a.len() {
        assert(a[k] == m);
    } else {
        assert(b[k - a.len()] == m);
    }
}

} // verus!
