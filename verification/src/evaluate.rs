use vstd::prelude::*;
use crate::bitboard::{has_bit, popcount, lowest_square, without_lowest, lemma_lowest_square, count_squares, lemma_popcount_bound};
use crate::board::{Board, Color, Piece, color_of, kind_of, piece_index, piece_of, lemma_piece_index, lemma_piece_of, count_piece_below};
use crate::movegen::{bit_squares, squares_from, lemma_bit_squares, lemma_bit_squares_step};
use crate::params::{MAX_PHASE, MATERIAL_MG, MATERIAL_EG, psqt, psqt_entry, lemma_psqt_bound};

verus! {

/// Static evaluation of positions.
pub struct Evaluate;

/// The square seen from the other side: same file, mirrored rank.
pub open spec fn flipped(square: int) -> int {
    (7 - square / 8) * 8 + square % 8
}

/// The square seen from the other side.
pub fn flip_square(square: u8) -> (r: u8)
    requires
        square < 64,
    ensures
        r == flipped(square as int),
        r < 64,
{
    assert(square < 64 ==> (square ^ 56u8) == (7 - square / 8) * 8 + square % 8) by (bit_vector);
    square ^ 56
}

/// Flipping a square twice gives it back.
pub proof fn lemma_flip_twice(square: int)
    requires
        0 <= square < 64,
    ensures
        0 <= flipped(square) < 64,
        flipped(flipped(square)) == square,
{
}

/// Integer division rounding toward zero.
pub open spec fn trunc_div(a: int, b: int) -> int {
    if a >= 0 {
        a / b
    } else {
        -((-a) / b)
    }
}

/// Material balance, white minus black, in the middle game (`eg` false) or
/// end game values.
pub open spec fn material(pieces: [u64; 12], eg: bool) -> int {
    let v = if eg { MATERIAL_EG } else { MATERIAL_MG };
    v[0] * (popcount(pieces[0]) - popcount(pieces[6])) + v[1] * (popcount(pieces[1]) - popcount(
        pieces[7],
    )) + v[2] * (popcount(pieces[2]) - popcount(pieces[8])) + v[3] * (popcount(pieces[3])
        - popcount(pieces[9])) + v[4] * (popcount(pieces[4]) - popcount(pieces[10]))
}

/// Bonus of a square's content: white pieces count for white, black pieces,
/// looked up on the flipped square, against.
pub open spec fn square_bonus(v: Option<Piece>, s: int, eg: bool) -> int {
    match v {
        None => 0,
        Some(p) => if color_of(p) == Color::White {
            psqt(kind_of(p), s, eg)
        } else {
            -psqt(kind_of(p), flipped(s), eg)
        },
    }
}

/// Sum of the square bonuses of squares `n` to 63.
pub open spec fn bonus_from(mb: Seq<Option<Piece>>, n: int, eg: bool) -> int
    decreases 64 - n,
{
    if n >= 64 {
        0
    } else {
        square_bonus(mb[n], n, eg) + bonus_from(mb, n + 1, eg)
    }
}

/// Middle game and end game score of a board from white's side.
pub open spec fn raw_score(b: Board, eg: bool) -> int {
    material(b.pieces, eg) + psqt_sum(b, eg)
}

/// Sum of the square bonuses of the occupied squares, as the occupancy
/// bitboard names them, each looked up in the mailbox.
pub open spec fn psqt_sum(b: Board, eg: bool) -> int {
    sum_over(bit_squares(b.all_pieces), |s: int| square_bonus(b.mailbox@[s], s, eg))
}

/// Blend of a middle game and an end game score by the game phase, which
/// counts at most 24.
pub open spec fn tapered(mg: int, eg: int, phase: int) -> int {
    let p = if phase > 24 { 24 } else { phase };
    trunc_div(mg * p + eg * (24 - p), 24)
}

/// Evaluation of a board from white's side.
pub open spec fn eval_of(b: Board) -> int {
    tapered(raw_score(b, false), raw_score(b, true), b.phase_value as int)
}

/// Sum of `g` over a list of squares.
pub open spec fn sum_over(l: Seq<int>, g: spec_fn(int) -> int) -> int
    decreases l.len(),
{
    if l.len() == 0 {
        0
    } else {
        g(l[0]) + sum_over(l.drop_first(), g)
    }
}

proof fn lemma_sum_squares_from(mb: Seq<Option<Piece>>, n: int, eg: bool)
    requires
        0 <= n <= 64,
    ensures
        sum_over(squares_from(|s: int| mb[s] is Some, n), |s: int| square_bonus(mb[s], s, eg)) == bonus_from(mb, n, eg),
    decreases 64 - n,
{
    let p = |s: int| mb[s] is Some;
    let g = |s: int| square_bonus(mb[s], s, eg);
    if n < 64 {
        lemma_sum_squares_from(mb, n + 1, eg);
        if p(n) {
            assert((seq![n] + squares_from(p, n + 1)).drop_first() =~= squares_from(p, n + 1));
        }
    }
}

/// On a well-formed board the occupancy names exactly the occupied squares
/// of the mailbox.
pub proof fn lemma_psqt_sum_wf(b: Board, eg: bool)
    requires
        b.wf(),
    ensures
        psqt_sum(b, eg) == bonus_from(b.mailbox@, 0, eg),
{
    let mb = b.mailbox@;
    let all = b.all_pieces;
    assert forall|s: int| 0 <= s < 64 implies #[trigger] has_bit(all, s) == (0 <= s && (|q: int| mb[q] is Some)(s)) by {}
    lemma_bit_squares(all, |q: int| mb[q] is Some, 0);
    lemma_sum_squares_from(mb, 0, eg);
}

proof fn lemma_bonus_bound(mb: Seq<Option<Piece>>, s: int, eg: bool)
    requires
        0 <= s < 64,
    ensures
        -50 <= square_bonus(mb[s], s, eg) <= 50,
{
    if let Some(p) = mb[s] {
        lemma_psqt_bound(kind_of(p), s, eg);
        lemma_psqt_bound(kind_of(p), flipped(s), eg);
    }
}

impl Evaluate {
    /// Evaluation from the side to move's point of view.
    pub fn sided_eval(board: &Board) -> (r: i32)
        ensures
            r == if board.active_color == Color::White { eval_of(*board) } else { -eval_of(*board) },
            -160000 <= r <= 160000,
    {
        let score = Self::eval(board);
        if board.active_color == Color::White {
            score
        } else {
            -score
        }
    }

    /// Evaluation from white's side: material and piece-square bonuses,
    /// blended between middle game and end game by the phase.
    pub fn eval(board: &Board) -> (r: i32)
        ensures
            r == eval_of(*board),
            -160000 <= r <= 160000,
    {
        let mut mg_score: i32 = 0;
        let mut eg_score: i32 = 0;
        let (mg_material, eg_material) = Self::get_material_scores(board);
        mg_score += mg_material;
        eg_score += eg_material;
        let (mg_psqt, eg_psqt) = Self::get_psqt_scores(board);
        mg_score += mg_psqt;
        eg_score += eg_psqt;
        Self::get_tapered_score(mg_score, eg_score, board.phase_value)
    }

    fn get_material_scores(board: &Board) -> (r: (i32, i32))
        ensures
            r.0 == material(board.pieces, false),
            r.1 == material(board.pieces, true),
            -150000 <= r.0 <= 150000,
            -150000 <= r.1 <= 150000,
    {
        proof {
            lemma_popcount_bound(board.pieces[0]);
            lemma_popcount_bound(board.pieces[1]);
            lemma_popcount_bound(board.pieces[2]);
            lemma_popcount_bound(board.pieces[3]);
            lemma_popcount_bound(board.pieces[4]);
            lemma_popcount_bound(board.pieces[6]);
            lemma_popcount_bound(board.pieces[7]);
            lemma_popcount_bound(board.pieces[8]);
            lemma_popcount_bound(board.pieces[9]);
            lemma_popcount_bound(board.pieces[10]);
        }
        let mut mg_material: i32 = 0;
        let mut eg_material: i32 = 0;
        let num_pawns = count_squares(board.pieces[0]) as i32 - count_squares(board.pieces[6]) as i32;
        let num_knights = count_squares(board.pieces[1]) as i32 - count_squares(board.pieces[7]) as i32;
        let num_bishops = count_squares(board.pieces[2]) as i32 - count_squares(board.pieces[8]) as i32;
        let num_rooks = count_squares(board.pieces[3]) as i32 - count_squares(board.pieces[9]) as i32;
        let num_queens = count_squares(board.pieces[4]) as i32 - count_squares(board.pieces[10]) as i32;
        assert(-64 <= num_pawns <= 64 && -64 <= num_knights <= 64 && -64 <= num_bishops <= 64 && -64 <= num_rooks <= 64 && -64 <= num_queens <= 64);
        mg_material += MATERIAL_MG[0] * num_pawns;
        mg_material += MATERIAL_MG[1] * num_knights;
        mg_material += MATERIAL_MG[2] * num_bishops;
        mg_material += MATERIAL_MG[3] * num_rooks;
        mg_material += MATERIAL_MG[4] * num_queens;
        eg_material += MATERIAL_EG[0] * num_pawns;
        eg_material += MATERIAL_EG[1] * num_knights;
        eg_material += MATERIAL_EG[2] * num_bishops;
        eg_material += MATERIAL_EG[3] * num_rooks;
        eg_material += MATERIAL_EG[4] * num_queens;
        (mg_material, eg_material)
    }

    fn get_psqt_scores(board: &Board) -> (r: (i32, i32))
        ensures
            r.0 == psqt_sum(*board, false),
            r.1 == psqt_sum(*board, true),
            -3200 <= r.0 <= 3200,
            -3200 <= r.1 <= 3200,
    {
        let ghost mb = board.mailbox@;
        let ghost gm = |s: int| square_bonus(mb[s], s, false);
        let ghost ge = |s: int| square_bonus(mb[s], s, true);
        let mut mg_psqt: i32 = 0;
        let mut eg_psqt: i32 = 0;
        let mut all_pieces_mask = board.all_pieces;
        let ghost all = board.all_pieces;
        proof {
            lemma_popcount_bound(all);
        }
        let ghost mut k: int = 0;
        while all_pieces_mask != 0
            invariant
                mb == board.mailbox@,
                all == board.all_pieces,
                gm == (|s: int| square_bonus(mb[s], s, false)),
                ge == (|s: int| square_bonus(mb[s], s, true)),
                mg_psqt + sum_over(bit_squares(all_pieces_mask), gm) == sum_over(bit_squares(all), gm),
                eg_psqt + sum_over(bit_squares(all_pieces_mask), ge) == sum_over(bit_squares(all), ge),
                k + popcount(all_pieces_mask) == popcount(all),
                popcount(all) <= 64,
                -50 * k <= mg_psqt <= 50 * k,
                -50 * k <= eg_psqt <= 50 * k,
            decreases all_pieces_mask,
        {
            proof {
                lemma_bit_squares_step(all_pieces_mask);
                lemma_lowest_square(all_pieces_mask);
            }
            let square = all_pieces_mask.trailing_zeros() as u8;
            let ghost m0 = all_pieces_mask;
            all_pieces_mask &= all_pieces_mask - 1;
            proof {
                assert(popcount(m0) == 1 + popcount(all_pieces_mask));
                lemma_bonus_bound(mb, square as int, false);
                lemma_bonus_bound(mb, square as int, true);
            }
            let ghost pm = mg_psqt;
            let ghost pe = eg_psqt;
            if let Some(piece) = board.mailbox[square as usize] {
                proof {
                    lemma_piece_index(piece);
                }
                let index = if piece.get_color() == Color::White {
                    square as usize
                } else {
                    flip_square(square) as usize
                };
                let kind = piece.index() % 6;
                let mg = psqt_entry(kind, index, false);
                let eg = psqt_entry(kind, index, true);
                if piece.get_color() == Color::White {
                    mg_psqt += mg;
                    eg_psqt += eg;
                } else {
                    mg_psqt -= mg;
                    eg_psqt -= eg;
                }
            }
            proof {
                assert(mg_psqt == pm + gm(square as int));
                assert(eg_psqt == pe + ge(square as int));
                k = k + 1;
            }
        }
        (mg_psqt, eg_psqt)
    }

    /// Blends the two scores by the phase, capped at `MAX_PHASE`.
    fn get_tapered_score(mg_score: i32, eg_score: i32, phase_value: u8) -> (r: i32)
        requires
            -160000 <= mg_score <= 160000,
            -160000 <= eg_score <= 160000,
        ensures
            r == tapered(mg_score as int, eg_score as int, phase_value as int),
            -160000 <= r <= 160000,
    {
        let mut phase_value = phase_value;
        if phase_value > MAX_PHASE {
            phase_value = MAX_PHASE;
        }
        let eg_phase = MAX_PHASE - phase_value;
        let p = phase_value as i32;
        let q = eg_phase as i32;
        assert(-160000 * p <= mg_score * p <= 160000 * p) by (nonlinear_arith)
            requires
                -160000 <= mg_score <= 160000,
                0 <= p <= 24,
        ;
        assert(-160000 * q <= eg_score * q <= 160000 * q) by (nonlinear_arith)
            requires
                -160000 <= eg_score <= 160000,
                0 <= q <= 24,
        ;
        (mg_score * p + eg_score * q) / MAX_PHASE as i32
    }
}


// ---------------------------------------------------------------------------
// Colour symmetry.
// ---------------------------------------------------------------------------

/// The same piece of the other colour.
pub open spec fn swap_color(v: Option<Piece>) -> Option<Piece> {
    match v {
        None => None,
        Some(p) => Some(piece_of((piece_index(p) + 6) % 12)),
    }
}

/// The mailbox seen from the other side: ranks mirrored, colours swapped.
pub open spec fn mirrored(mb: Seq<Option<Piece>>) -> Seq<Option<Piece>> {
    Seq::new(64, |s: int| swap_color(mb[flipped(s)]))
}

/// Sum of `h` over the squares from `lo` up to, not including, `hi`.
pub open spec fn square_sum(h: spec_fn(int) -> int, lo: int, hi: int) -> int
    decreases hi - lo,
{
    if lo >= hi {
        0
    } else {
        h(lo) + square_sum(h, lo + 1, hi)
    }
}

proof fn lemma_sum_split(h: spec_fn(int) -> int, lo: int, mid: int, hi: int)
    requires
        lo <= mid <= hi,
    ensures
        square_sum(h, lo, hi) == square_sum(h, lo, mid) + square_sum(h, mid, hi),
    decreases mid - lo,
{
    if lo < mid {
        lemma_sum_split(h, lo + 1, mid, hi);
    }
}

proof fn lemma_sum_shift(h1: spec_fn(int) -> int, h2: spec_fn(int) -> int, a: int, b: int, n: int)
    requires
        0 <= n,
        forall|i: int| 0 <= i < n ==> #[trigger] h1(a + i) == h2(b + i),
    ensures
        square_sum(h1, a, a + n) == square_sum(h2, b, b + n),
    decreases n,
{
    if n > 0 {
        assert(h1(a + 0) == h2(b + 0));
        assert forall|i: int| 0 <= i < n - 1 implies #[trigger] h1((a + 1) + i) == h2((b + 1) + i) by {
            assert(h1(a + (i + 1)) == h2(b + (i + 1)));
        }
        lemma_sum_shift(h1, h2, a + 1, b + 1, n - 1);
    }
}

/// The sum over the board split into its eight ranks.
proof fn lemma_sum_ranks(h: spec_fn(int) -> int)
    ensures
        square_sum(h, 0, 64) == square_sum(h, 0, 8) + square_sum(h, 8, 16) + square_sum(h, 16, 24) + square_sum(h, 24, 32)
            + square_sum(h, 32, 40) + square_sum(h, 40, 48) + square_sum(h, 48, 56) + square_sum(h, 56, 64),
{
    lemma_sum_split(h, 0, 8, 64);
    lemma_sum_split(h, 8, 16, 64);
    lemma_sum_split(h, 16, 24, 64);
    lemma_sum_split(h, 24, 32, 64);
    lemma_sum_split(h, 32, 40, 64);
    lemma_sum_split(h, 40, 48, 64);
    lemma_sum_split(h, 48, 56, 64);
}

/// Rank `r` of the flipped sum is rank `7 - r` of the sum.
proof fn lemma_row_flip(h: spec_fn(int) -> int, g: spec_fn(int) -> int, r: int)
    requires
        0 <= r < 8,
        forall|s: int| 0 <= s < 64 ==> #[trigger] g(s) == h(flipped(s)),
    ensures
        square_sum(g, 8 * r, 8 * r + 8) == square_sum(h, 56 - 8 * r, 64 - 8 * r),
{
    assert forall|i: int| 0 <= i < 8 implies #[trigger] g(8 * r + i) == h((56 - 8 * r) + i) by {
        assert(flipped(8 * r + i) == 56 - 8 * r + i);
    }
    lemma_sum_shift(g, h, 8 * r, 56 - 8 * r, 8);
}

/// Summing over the flipped squares gives the same sum.
proof fn lemma_sum_flip(h: spec_fn(int) -> int, g: spec_fn(int) -> int)
    requires
        forall|s: int| 0 <= s < 64 ==> #[trigger] g(s) == h(flipped(s)),
    ensures
        square_sum(g, 0, 64) == square_sum(h, 0, 64),
{
    lemma_sum_ranks(h);
    lemma_sum_ranks(g);
    lemma_row_flip(h, g, 0);
    lemma_row_flip(h, g, 1);
    lemma_row_flip(h, g, 2);
    lemma_row_flip(h, g, 3);
    lemma_row_flip(h, g, 4);
    lemma_row_flip(h, g, 5);
    lemma_row_flip(h, g, 6);
    lemma_row_flip(h, g, 7);
}

proof fn lemma_bonus_sum(mb: Seq<Option<Piece>>, n: int, eg: bool)
    requires
        0 <= n <= 64,
    ensures
        bonus_from(mb, n, eg) == square_sum(|s: int| square_bonus(mb[s], s, eg), n, 64),
    decreases 64 - n,
{
    if n < 64 {
        lemma_bonus_sum(mb, n + 1, eg);
    }
}

proof fn lemma_count_sum(mb: Seq<Option<Piece>>, p: Piece, n: int)
    requires
        0 <= n <= 64,
    ensures
        count_piece_below(mb, p, n) == square_sum(|s: int| if mb[s] == Some(p) { 1int } else { 0int }, 0, n),
    decreases n,
{
    let h = |s: int| if mb[s] == Some(p) { 1int } else { 0int };
    if n > 0 {
        lemma_count_sum(mb, p, n - 1);
        lemma_sum_split(h, 0, n - 1, n);
        assert(square_sum(h, n - 1, n) == h(n - 1) + square_sum(h, n, n));
    }
}

/// A mirrored mailbox holds as many of a piece as the mailbox holds of the
/// same piece of the other colour.
proof fn lemma_mirror_count(mb: Seq<Option<Piece>>, i: int)
    requires
        mb.len() == 64,
        0 <= i < 12,
    ensures
        count_piece_below(mirrored(mb), piece_of(i), 64) == count_piece_below(mb, piece_of((i + 6) % 12), 64),
{
    let m = mirrored(mb);
    let j = (i + 6) % 12;
    let h = |s: int| if mb[s] == Some(piece_of(j)) { 1int } else { 0int };
    let hm = |s: int| if m[s] == Some(piece_of(i)) { 1int } else { 0int };
    lemma_count_sum(m, piece_of(i), 64);
    lemma_count_sum(mb, piece_of(j), 64);
    assert forall|s: int| 0 <= s < 64 implies #[trigger] hm(s) == h(flipped(s)) by {
        lemma_piece_of(i);
        lemma_piece_of(j);
        if let Some(q) = mb[flipped(s)] {
            lemma_piece_index(q);
            lemma_piece_of((piece_index(q) + 6) % 12);
        }
    }
    lemma_sum_flip(h, hm);
}

/// The bonus of a mirrored mailbox is the negated bonus.
proof fn lemma_mirror_bonus(mb: Seq<Option<Piece>>, eg: bool)
    requires
        mb.len() == 64,
    ensures
        bonus_from(mirrored(mb), 0, eg) == -bonus_from(mb, 0, eg),
{
    let m = mirrored(mb);
    let h = |s: int| square_bonus(mb[s], s, eg);
    let hm = |s: int| square_bonus(m[s], s, eg);
    let neg = |s: int| -h(s);
    lemma_bonus_sum(m, 0, eg);
    lemma_bonus_sum(mb, 0, eg);
    assert forall|s: int| 0 <= s < 64 implies #[trigger] hm(s) == -h(flipped(s)) by {
        lemma_flip_twice(s);
        if let Some(q) = mb[flipped(s)] {
            lemma_piece_index(q);
            lemma_piece_of((piece_index(q) + 6) % 12);
        }
    }
    assert forall|s: int| 0 <= s < 64 implies #[trigger] hm(s) == neg(flipped(s)) by {
        assert(hm(s) == -h(flipped(s)));
    }
    lemma_sum_flip(neg, hm);
    lemma_sum_negate(h, 0, 64);
}

proof fn lemma_sum_negate(h: spec_fn(int) -> int, lo: int, hi: int)
    ensures
        square_sum(|s: int| -h(s), lo, hi) == -square_sum(h, lo, hi),
    decreases hi - lo,
{
    if lo < hi {
        lemma_sum_negate(h, lo + 1, hi);
    }
}

/// Mirroring a position, ranks and colours, negates its evaluation; with
/// the other side to move, the evaluation from the side to move stays.
pub proof fn lemma_eval_mirror(a: Board, b: Board)
    requires
        a.wf(),
        b.wf(),
        a.mailbox@.len() == 64,
        b.mailbox@ == mirrored(a.mailbox@),
    ensures
        eval_of(b) == -eval_of(a),
        b.active_color != a.active_color ==> (if b.active_color == Color::White { eval_of(b) } else { -eval_of(b) }) == (
        if a.active_color == Color::White { eval_of(a) } else { -eval_of(a) }),
{
    let ma = a.mailbox@;
    assert forall|i: int| 0 <= i < 12 implies #[trigger] popcount(b.pieces[i]) == popcount(a.pieces[(i + 6) % 12]) by {
        crate::board::lemma_piece_count(b.pieces, b.mailbox@, i);
        crate::board::lemma_piece_count(a.pieces, ma, (i + 6) % 12);
        lemma_mirror_count(ma, i);
    }
    assert(popcount(b.pieces[0]) == popcount(a.pieces[6]));
    assert(popcount(b.pieces[1]) == popcount(a.pieces[7]));
    assert(popcount(b.pieces[2]) == popcount(a.pieces[8]));
    assert(popcount(b.pieces[3]) == popcount(a.pieces[9]));
    assert(popcount(b.pieces[4]) == popcount(a.pieces[10]));
    assert(popcount(b.pieces[6]) == popcount(a.pieces[0]));
    assert(popcount(b.pieces[7]) == popcount(a.pieces[1]));
    assert(popcount(b.pieces[8]) == popcount(a.pieces[2]));
    assert(popcount(b.pieces[9]) == popcount(a.pieces[3]));
    assert(popcount(b.pieces[10]) == popcount(a.pieces[4]));
    lemma_mirror_bonus(ma, false);
    lemma_mirror_bonus(ma, true);
    lemma_psqt_sum_wf(a, false);
    lemma_psqt_sum_wf(a, true);
    lemma_psqt_sum_wf(b, false);
    lemma_psqt_sum_wf(b, true);
    let mg = raw_score(a, false);
    let eg = raw_score(a, true);
    assert(raw_score(b, false) == -mg);
    assert(raw_score(b, true) == -eg);
    assert(b.phase_value == a.phase_value);
    let p = if a.phase_value > 24 { 24int } else { a.phase_value as int };
    assert((-mg) * p + (-eg) * (24 - p) == -(mg * p + eg * (24 - p))) by (nonlinear_arith);
}

/// Material counts each piece once for its side: putting one more piece of
/// kind `k` (pawn to queen) on an empty square of its bitboard raises the
/// material by that kind's value when the piece is white and lowers it by
/// that value when it is black, so a side a knight up scores more; a king
/// changes nothing.
pub proof fn lemma_material_adds_piece(p: [u64; 12], q: [u64; 12], i: int, s: int, eg: bool)
    requires
        0 <= i < 12,
        0 <= s < 64,
        !has_bit(p[i], s),
        q[i] == p[i] | crate::bitboard::sq_bit(s),
        forall|j: int| 0 <= j < 12 && j != i ==> #[trigger] q[j] == p[j],
    ensures
        ({
            let v = if eg { MATERIAL_EG } else { MATERIAL_MG };
            let k = i % 6;
            &&& k < 5 && i < 6 ==> material(q, eg) == material(p, eg) + v[k]
            &&& k < 5 && i >= 6 ==> material(q, eg) == material(p, eg) - v[k]
            &&& k == 5 ==> material(q, eg) == material(p, eg)
            &&& v[k % 5] > 0
        }),
{
    crate::bitboard::lemma_popcount_set(p[i], s);
    assert forall|l: int| 0 <= l < 12 && l != i implies #[trigger] popcount(q[l]) == popcount(p[l]) by {
        assert(q[l] == p[l]);
    }
    assert(popcount(q[i]) == popcount(p[i]) + 1);
    assert(MATERIAL_MG[0] == 82 && MATERIAL_MG[1] == 337 && MATERIAL_MG[2] == 365 && MATERIAL_MG[3] == 477 && MATERIAL_MG[4] == 1025);
    assert(MATERIAL_EG[0] == 94 && MATERIAL_EG[1] == 281 && MATERIAL_EG[2] == 297 && MATERIAL_EG[3] == 512 && MATERIAL_EG[4] == 936);
    assert(popcount(q[0]) == popcount(p[0]) + if i == 0 { 1int } else { 0 });
    assert(popcount(q[1]) == popcount(p[1]) + if i == 1 { 1int } else { 0 });
    assert(popcount(q[2]) == popcount(p[2]) + if i == 2 { 1int } else { 0 });
    assert(popcount(q[3]) == popcount(p[3]) + if i == 3 { 1int } else { 0 });
    assert(popcount(q[4]) == popcount(p[4]) + if i == 4 { 1int } else { 0 });
    assert(popcount(q[6]) == popcount(p[6]) + if i == 6 { 1int } else { 0 });
    assert(popcount(q[7]) == popcount(p[7]) + if i == 7 { 1int } else { 0 });
    assert(popcount(q[8]) == popcount(p[8]) + if i == 8 { 1int } else { 0 });
    assert(popcount(q[9]) == popcount(p[9]) + if i == 9 { 1int } else { 0 });
    assert(popcount(q[10]) == popcount(p[10]) + if i == 10 { 1int } else { 0 });
    let v = if eg { MATERIAL_EG } else { MATERIAL_MG };
    let d = |k: int| (popcount(q[k]) - popcount(q[k + 6])) - (popcount(p[k]) - popcount(p[k + 6]));
    lemma_scaled_step(v[0] as int, popcount(p[0]) - popcount(p[6]), d(0));
    lemma_scaled_step(v[1] as int, popcount(p[1]) - popcount(p[7]), d(1));
    lemma_scaled_step(v[2] as int, popcount(p[2]) - popcount(p[8]), d(2));
    lemma_scaled_step(v[3] as int, popcount(p[3]) - popcount(p[9]), d(3));
    lemma_scaled_step(v[4] as int, popcount(p[4]) - popcount(p[10]), d(4));
}

/// Scaling distributes over a change.
proof fn lemma_scaled_step(c: int, x: int, d: int)
    by (nonlinear_arith)
    ensures
        c * (x + d) == c * x + c * d,
        d == 0 ==> c * d == 0,
        d == 1 ==> c * d == c,
        d == -1 ==> c * d == -c,
{
}

} // verus!
