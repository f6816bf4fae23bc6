use vstd::prelude::*;
use crate::board::{Board, Color, Piece, Position, move_fits, make_position, piece_of_kind, king_home, behind, rook_from, rook_to, capture_flag, promotion_flag, castle_flag, opposite};
use crate::mv::{Move, MoveFlag};
use crate::movegen::{moves_from, moves_to, squares_where, piece_attack, enemy, vacant, own, piece_moves, king_moves, king_square, castle_moves, has_king, pseudo_legal_moves, lemma_squares_from_contains, lemma_flat_contains, lemma_join_contains};

verus! {

/// The square a file letter and a rank digit name, if they do.
pub open spec fn square_of_chars(f: char, r: char) -> Option<int> {
    let fu = f as u32;
    let ru = r as u32;
    if 0x61 <= fu <= 0x68 && 0x31 <= ru <= 0x38 {
        Some((ru - 0x31) * 8 + (fu - 0x61))
    } else {
        None
    }
}

/// The flag of a move given in coordinate notation: a promotion letter
/// makes a promotion, capturing when the target square is occupied; a king
/// moving two files from home castles; a pawn moving two ranks double
/// pushes; a pawn moving onto the en passant square captures en passant;
/// otherwise the move captures when the target square is occupied.
pub open spec fn text_flag(p: Position, from: int, to: int, promo: Option<char>) -> Option<MoveFlag> {
    let mb = p.mailbox;
    let c = p.active_color;
    let capture = mb[to] is Some;
    match promo {
        Some(ch) => if ch == 'n' {
            Some(if capture { MoveFlag::PromoteCaptureN } else { MoveFlag::PromoteN })
        } else if ch == 'b' {
            Some(if capture { MoveFlag::PromoteCaptureB } else { MoveFlag::PromoteB })
        } else if ch == 'r' {
            Some(if capture { MoveFlag::PromoteCaptureR } else { MoveFlag::PromoteR })
        } else if ch == 'q' {
            Some(if capture { MoveFlag::PromoteCaptureQ } else { MoveFlag::PromoteQ })
        } else {
            None
        },
        None => {
            let king = mb[from] == Some(piece_of_kind(5, c));
            let pawn = mb[from] == Some(piece_of_kind(0, c));
            if king && from == king_home(c) && to == from + 2 {
                Some(MoveFlag::KingCastle)
            } else if king && from == king_home(c) && to == from - 2 {
                Some(MoveFlag::QueenCastle)
            } else if pawn && (to - from == 16 || from - to == 16) {
                Some(MoveFlag::DoublePawnPush)
            } else if pawn && p.en_passant == Some(to as u8) {
                Some(MoveFlag::EnPassant)
            } else if capture {
                Some(MoveFlag::Capture)
            } else {
                Some(MoveFlag::QuietMove)
            }
        },
    }
}

/// The move that a text in coordinate notation (`e2e4`, `e7e8q`) names on a
/// position, when the text is well formed and the move can be made there.
pub open spec fn move_of_text(p: Position, text: Seq<char>) -> Option<Move> {
    if text.len() != 4 && text.len() != 5 {
        None
    } else {
        match (square_of_chars(text[0], text[1]), square_of_chars(text[2], text[3])) {
            (Some(from), Some(to)) => {
                let promo = if text.len() == 5 { Some(text[4]) } else { None };
                match text_flag(p, from, to, promo) {
                    Some(flag) => {
                        let mv = Move::made(from as u8, to as u8, flag);
                        if move_fits(p, mv) { Some(mv) } else { None }
                    },
                    None => None,
                }
            },
            _ => None,
        }
    }
}

/// The square named by a file letter and a rank digit.
fn chars_square(f: char, r: char) -> (s: Option<u8>)
    ensures
        match square_of_chars(f, r) {
            Some(q) => s == Some(q as u8) && q < 64,
            None => s is None,
        },
{
    let fu = f as u32;
    let ru = r as u32;
    if 0x61 <= fu && fu <= 0x68 && 0x31 <= ru && ru <= 0x38 {
        Some(((ru - 0x31) * 8 + (fu - 0x61)) as u8)
    } else {
        None
    }
}

impl Board {
    /// Whether a move can be made on the board (see `move_fits`).
    pub fn move_fits_board(&self, mv: Move) -> (r: bool)
        requires
            self.wf(),
        ensures
            r == move_fits(self@, mv),
    {
        proof {
            mv.lemma_squares();
        }
        let f = mv.get_from();
        let t = mv.get_to();
        let flag = mv.get_flag();
        let code = flag.code();
        let c = self.active_color;
        let mb = &self.mailbox;
        if f == t || mb[f as usize].is_none() {
            return false;
        }
        let capture = code & 4 != 0;
        if (!capture || code == 5) && mb[t as usize].is_some() {
            return false;
        }
        let own_pawn = if c == Color::White { Piece::WhitePawn } else { Piece::BlackPawn };
        let their_pawn = if c == Color::White { Piece::BlackPawn } else { Piece::WhitePawn };
        let own_rook = if c == Color::White { Piece::WhiteRook } else { Piece::BlackRook };
        if code == 1 || code == 5 {
            let ok = if c == Color::White { t >= 8 } else { t < 56 };
            if !ok {
                return false;
            }
            if code == 5 {
                let b = if c == Color::White { t - 8 } else { t + 8 };
                if b == f {
                    return false;
                }
                match mb[b as usize] {
                    Some(p) => {
                        if p != their_pawn {
                            return false;
                        }
                    },
                    None => {
                        return false;
                    },
                }
            }
        }
        if code == 2 || code == 3 {
            let rf: u8 = if c == Color::White {
                if code == 2 { 7 } else { 0 }
            } else {
                if code == 2 { 63 } else { 56 }
            };
            let rt: u8 = if c == Color::White {
                if code == 2 { 5 } else { 3 }
            } else {
                if code == 2 { 61 } else { 59 }
            };
            match mb[rf as usize] {
                Some(p) => {
                    if p != own_rook {
                        return false;
                    }
                },
                None => {
                    return false;
                },
            }
            if mb[rt as usize].is_some() || f == rf || f == rt || t == rf || t == rt {
                return false;
            }
        }
        if code >= 8 {
            match mb[f as usize] {
                Some(p) => {
                    if p != own_pawn {
                        return false;
                    }
                },
                None => {
                    return false;
                },
            }
        }
        proof {
            assert(code & 4 != 0 <==> capture_flag(code));
        }
        true
    }

    /// The move a text in coordinate notation names (see `move_of_text`).
    pub fn str_to_move(&self, text: &Vec<char>) -> (r: Option<Move>)
        requires
            self.wf(),
        ensures
            r == move_of_text(self@, text@),
    {
        if text.len() != 4 && text.len() != 5 {
            return None;
        }
        let from = match chars_square(text[0], text[1]) {
            Some(s) => s,
            None => return None,
        };
        let to = match chars_square(text[2], text[3]) {
            Some(s) => s,
            None => return None,
        };
        let c = self.active_color;
        let capture = self.mailbox[to as usize].is_some();
        let flag = if text.len() == 5 {
            let ch = text[4];
            if ch == 'n' {
                if capture { MoveFlag::PromoteCaptureN } else { MoveFlag::PromoteN }
            } else if ch == 'b' {
                if capture { MoveFlag::PromoteCaptureB } else { MoveFlag::PromoteB }
            } else if ch == 'r' {
                if capture { MoveFlag::PromoteCaptureR } else { MoveFlag::PromoteR }
            } else if ch == 'q' {
                if capture { MoveFlag::PromoteCaptureQ } else { MoveFlag::PromoteQ }
            } else {
                return None;
            }
        } else {
            let own_king = if c == Color::White { Piece::WhiteKing } else { Piece::BlackKing };
            let own_pawn = if c == Color::White { Piece::WhitePawn } else { Piece::BlackPawn };
            let home: u8 = if c == Color::White { 4 } else { 60 };
            let (king, pawn) = match self.mailbox[from as usize] {
                Some(p) => (p == own_king, p == own_pawn),
                None => (false, false),
            };
            if king && from == home && to as u16 == from as u16 + 2 {
                MoveFlag::KingCastle
            } else if king && from == home && to as u16 + 2 == from as u16 {
                MoveFlag::QueenCastle
            } else if pawn && (to as u16 == from as u16 + 16 || to as u16 + 16 == from as u16) {
                MoveFlag::DoublePawnPush
            } else if pawn && self.en_passant_square == Some(to) {
                MoveFlag::EnPassant
            } else if capture {
                MoveFlag::Capture
            } else {
                MoveFlag::QuietMove
            }
        };
        let mv = Move::new(from, to, flag);
        if self.move_fits_board(mv) {
            Some(mv)
        } else {
            None
        }
    }

    /// Whether making a move would overflow a counter (see
    /// `crate::uci::make_ok`).
    pub fn make_would_overflow(&self, mv: Move) -> (r: bool)
        requires
            self.wf(),
            crate::board::move_fits(self@, mv),
        ensures
            r == !crate::uci::make_ok(self@, self.history_ply as nat, mv),
    {
        proof {
            mv.lemma_squares();
            crate::board::lemma_phase_matches(self.pieces, self.mailbox@);
        }
        let b = self;
        if b.history_ply == usize::MAX {
            return true;
        }
        let from = mv.get_from();
        let to = mv.get_to();
        let code = mv.get_flag().code();
        let capture = code & 4 != 0;
        let pawn_move = match b.mailbox[from as usize] {
            Some(p) => p.index() % 6 == 0,
            None => false,
        };
        if !(pawn_move || capture) && b.half_move_clock >= 255 {
            return true;
        }
        let captured_weight: u32 = if code == 5 {
            0
        } else if capture {
            match b.mailbox[to as usize] {
                Some(p) => crate::board::Piece::get_phase_value(p) as u32,
                None => 0,
            }
        } else {
            0
        };
        let promotion_weight: u32 = if code >= 8 {
            let k = code % 4 + 1;
            if k == 1 || k == 2 { 1 } else if k == 3 { 2 } else { 4 }
        } else {
            0
        };
        proof {
            assert(capture == capture_flag(mv.flag_bits()));
            if let Some(p) = self.mailbox@[to as int] {
                assert(crate::board::phase_weight(p) <= 4);
            }
        }
        b.phase_value as u32 + promotion_weight > 255 + captured_weight
    }
}


// ---------------------------------------------------------------------------
// Reading back the text of a move.
// ---------------------------------------------------------------------------

/// The promotion letter of a flag as the reader sees it.
pub open spec fn promotion_char(flag: MoveFlag) -> Option<char> {
    let l = crate::mv::promotion_letter(flag);
    if l.len() == 0 {
        None
    } else {
        Some(l[0])
    }
}

/// The text of a move packed from two squares and a flag reads back as that
/// move, when the reader picks that flag and the move can be made.
proof fn lemma_made_text(p: Position, from: int, to: int, flag: MoveFlag)
    requires
        0 <= from < 64,
        0 <= to < 64,
        text_flag(p, from, to, promotion_char(flag)) == Some(flag),
        move_fits(p, Move::made(from as u8, to as u8, flag)),
    ensures
        move_of_text(p, crate::mv::move_text(Move::made(from as u8, to as u8, flag))) == Some(Move::made(from as u8, to as u8, flag)),
{
    let m = Move::made(from as u8, to as u8, flag);
    Move::lemma_made(from as u8, to as u8, flag);
    let text = crate::mv::move_text(m);
    let ff = (97 + from % 8) as char;
    let fr = (49 + from / 8) as char;
    let tf = (97 + to % 8) as char;
    let tr = (49 + to / 8) as char;
    assert(ff as u32 == 97 + from % 8);
    assert(fr as u32 == 49 + from / 8);
    assert(tf as u32 == 97 + to % 8);
    assert(tr as u32 == 49 + to / 8);
    assert(crate::mv::flag_of_code(crate::mv::flag_code(flag)) == flag);
    assert(text[0] == ff && text[1] == fr && text[2] == tf && text[3] == tr);
    assert(square_of_chars(ff, fr) == Some(from));
    assert(square_of_chars(tf, tr) == Some(to));
    let l = crate::mv::promotion_letter(flag);
    if l.len() == 1 {
        assert(text[4] == l[0]);
    }
}


/// Which flag codes capture.
proof fn lemma_capture_codes(code: u16)
    by (bit_vector)
    ensures
        code < 16 ==> ((code & 4 != 0) == (code == 4 || code == 5 || code == 6 || code == 7 || code >= 12)),
{
}

/// The text of a move reads back as the move on a position.
pub open spec fn reads_back(p: Position, m: Move) -> bool {
    move_of_text(p, crate::mv::move_text(m)) == Some(m)
}

/// The captures and steps of a knight, bishop, rook, queen or king of the
/// side to move read back.
proof fn lemma_moves_from_read(b: Board, kind: int, from: int)
    requires
        b.wf(),
        1 <= kind <= 5,
        0 <= from < 64,
        own(b.mailbox@, from, kind, b.active_color),
    ensures
        forall|m: Move| #[trigger] moves_from(b, kind, from).contains(m) ==> reads_back(b@, m),
{
    let mb = b.mailbox@;
    let c = b.active_color;
    let p = b@;
    let pc = |t: int| piece_attack(kind, from, b.all_pieces, t) && enemy(mb, t, c);
    let pq = |t: int| piece_attack(kind, from, b.all_pieces, t) && vacant(mb, t);
    let caps = moves_to(from, squares_where(pc), MoveFlag::Capture);
    let quiets = moves_to(from, squares_where(pq), MoveFlag::QuietMove);
    assert(piece_of_kind(kind, c) != piece_of_kind(0, c));
    assert forall|m: Move| #[trigger] moves_from(b, kind, from).contains(m) implies reads_back(p, m) by {
        lemma_join_contains(caps, quiets, m);
        if caps.contains(m) {
            let j = choose|j: int| 0 <= j < caps.len() && #[trigger] caps[j] == m;
            let t = squares_where(pc)[j];
            assert(squares_where(pc).contains(t));
            lemma_squares_from_contains(pc, 0, t);
            Move::lemma_made(from as u8, t as u8, MoveFlag::Capture);
            lemma_capture_codes(4);
            assert(text_flag(p, from, t, promotion_char(MoveFlag::Capture)) == Some(MoveFlag::Capture));
            lemma_made_text(p, from, t, MoveFlag::Capture);
        } else {
            let j = choose|j: int| 0 <= j < quiets.len() && #[trigger] quiets[j] == m;
            let t = squares_where(pq)[j];
            assert(squares_where(pq).contains(t));
            lemma_squares_from_contains(pq, 0, t);
            Move::lemma_made(from as u8, t as u8, MoveFlag::QuietMove);
            lemma_capture_codes(0);
            assert(text_flag(p, from, t, promotion_char(MoveFlag::QuietMove)) == Some(MoveFlag::QuietMove));
            lemma_made_text(p, from, t, MoveFlag::QuietMove);
        }
    }
}


/// The castling rights have their rooks at home and the en passant square
/// is empty, behind an enemy pawn that could just have moved past it: what
/// any game leaves, though a FEN text need not.
pub open spec fn rights_consistent(p: Position) -> bool {
    let mb = p.mailbox;
    let cr = p.castling;
    let c = p.active_color;
    &&& (c == Color::White && cr & 1 != 0 ==> mb[7] == Some(piece_of_kind(3, c)))
    &&& (c == Color::White && cr & 2 != 0 ==> mb[0] == Some(piece_of_kind(3, c)))
    &&& (c == Color::Black && cr & 4 != 0 ==> mb[63] == Some(piece_of_kind(3, c)))
    &&& (c == Color::Black && cr & 8 != 0 ==> mb[56] == Some(piece_of_kind(3, c)))
    &&& (p.en_passant matches Some(e) ==> {
        &&& e < 64
        &&& 0 <= behind(c, e as int) < 64
        &&& mb[e as int] is None
        &&& mb[behind(c, e as int)] == Some(piece_of_kind(0, opposite(c)))
    })
}

/// The moves of the knights, bishops, rooks or queens of the side to move
/// read back.
proof fn lemma_piece_moves_read(b: Board, kind: int)
    requires
        b.wf(),
        1 <= kind <= 4,
    ensures
        forall|m: Move| #[trigger] piece_moves(b, kind).contains(m) ==> reads_back(b@, m),
{
    let pf = |s: int| own(b.mailbox@, s, kind, b.active_color);
    let f = |from: int| moves_from(b, kind, from);
    assert forall|m: Move| #[trigger] piece_moves(b, kind).contains(m) implies reads_back(b@, m) by {
        lemma_flat_contains(squares_where(pf), f, m);
        let i = choose|i: int| 0 <= i < squares_where(pf).len() && #[trigger] f(squares_where(pf)[i]).contains(m);
        let from = squares_where(pf)[i];
        assert(squares_where(pf).contains(from));
        lemma_squares_from_contains(pf, 0, from);
        lemma_moves_from_read(b, kind, from);
    }
}

/// The moves of the king of the side to move, castling included, read
/// back.
proof fn lemma_king_moves_read(b: Board)
    requires
        b.wf(),
        has_king(b),
        rights_consistent(b@),
    ensures
        forall|m: Move| #[trigger] king_moves(b).contains(m) ==> reads_back(b@, m),
{
    let mb = b.mailbox@;
    let c = b.active_color;
    let p = b@;
    let pk = |s: int| own(mb, s, 5, c);
    let k = king_square(b);
    assert(squares_where(pk).contains(k));
    lemma_squares_from_contains(pk, 0, k);
    lemma_moves_from_read(b, 5, k);
    lemma_capture_codes(2);
    lemma_capture_codes(3);
    assert forall|m: Move| #[trigger] king_moves(b).contains(m) implies reads_back(p, m) by {
        lemma_join_contains(moves_from(b, 5, k), castle_moves(b, k), m);
        if castle_moves(b, k).contains(m) {
            let cm = castle_moves(b, k);
            let j = choose|j: int| 0 <= j < cm.len() && #[trigger] cm[j] == m;
            if c == Color::White {
                let a = if b.castling_rights.0 & 1 != 0 && vacant(mb, 5) && vacant(mb, 6) {
                    seq![Move::made(4, 6, MoveFlag::KingCastle)]
                } else {
                    seq![]
                };
                if j < a.len() {
                    Move::lemma_made(4, 6, MoveFlag::KingCastle);
                    assert(text_flag(p, 4, 6, promotion_char(MoveFlag::KingCastle)) == Some(MoveFlag::KingCastle));
                    lemma_made_text(p, 4, 6, MoveFlag::KingCastle);
                } else {
                    Move::lemma_made(4, 2, MoveFlag::QueenCastle);
                    assert(text_flag(p, 4, 2, promotion_char(MoveFlag::QueenCastle)) == Some(MoveFlag::QueenCastle));
                    lemma_made_text(p, 4, 2, MoveFlag::QueenCastle);
                }
            } else {
                let a = if b.castling_rights.0 & 4 != 0 && vacant(mb, 61) && vacant(mb, 62) {
                    seq![Move::made(60, 62, MoveFlag::KingCastle)]
                } else {
                    seq![]
                };
                if j < a.len() {
                    Move::lemma_made(60, 62, MoveFlag::KingCastle);
                    assert(text_flag(p, 60, 62, promotion_char(MoveFlag::KingCastle)) == Some(MoveFlag::KingCastle));
                    lemma_made_text(p, 60, 62, MoveFlag::KingCastle);
                } else {
                    Move::lemma_made(60, 58, MoveFlag::QueenCastle);
                    assert(text_flag(p, 60, 58, promotion_char(MoveFlag::QueenCastle)) == Some(MoveFlag::QueenCastle));
                    lemma_made_text(p, 60, 58, MoveFlag::QueenCastle);
                }
            }
        }
    }
}


/// A pawn move packed from `t - delta` to `t` with a flag reads back, when
/// the reader picks the flag and the move fits.
proof fn lemma_pawn_flag_read(b: Board, t: int, delta: int, flag: MoveFlag)
    requires
        b.wf(),
        0 <= t < 64,
        0 <= t - delta < 64,
        text_flag(b@, t - delta, t, promotion_char(flag)) == Some(flag),
        move_fits(b@, Move::made((t - delta) as u8, t as u8, flag)),
    ensures
        reads_back(b@, Move::made((t - delta) as u8, t as u8, flag)),
{
    lemma_made_text(b@, t - delta, t, flag);
}

/// The moves of a pawn reaching `t` from `t - delta` read back: a single
/// step or a capture, its promotions, or a double push.
proof fn lemma_pawn_target_read(b: Board, t: int, delta: int, capture: bool, double: bool)
    requires
        b.wf(),
        rights_consistent(b@),
        0 <= t < 64,
        0 <= t - delta < 64,
        own(b.mailbox@, t - delta, 0, b.active_color),
        capture ==> enemy(b.mailbox@, t, b.active_color) && !double && (delta == 7 || delta == 9 || delta == -7 || delta == -9),
        !capture ==> vacant(b.mailbox@, t),
        !capture && !double ==> delta == crate::movegen::fwd(b.active_color),
        double ==> delta == 2 * crate::movegen::fwd(b.active_color),
    ensures
        forall|m: Move| #[trigger] crate::movegen::pawn_target_moves(b.active_color, t, delta, capture, double).contains(m) ==> reads_back(b@, m),
{
    let c = b.active_color;
    let p = b@;
    let f = t - delta;
    let ms = crate::movegen::pawn_target_moves(c, t, delta, capture, double);
    lemma_capture_codes(0);
    lemma_capture_codes(1);
    lemma_capture_codes(4);
    lemma_capture_codes(8);
    lemma_capture_codes(9);
    lemma_capture_codes(10);
    lemma_capture_codes(11);
    lemma_capture_codes(12);
    lemma_capture_codes(13);
    lemma_capture_codes(14);
    lemma_capture_codes(15);
    assert(piece_of_kind(0, c) != piece_of_kind(5, c));
    assert forall|m: Move| #[trigger] ms.contains(m) implies reads_back(p, m) by {
        let j = choose|j: int| 0 <= j < ms.len() && #[trigger] ms[j] == m;
        if double {
            Move::lemma_made(f as u8, t as u8, MoveFlag::DoublePawnPush);
            lemma_pawn_flag_read(b, t, delta, MoveFlag::DoublePawnPush);
        } else if crate::movegen::last_rank(c, t) {
            if capture {
                let flag = if j == 0 { MoveFlag::PromoteCaptureN } else if j == 1 { MoveFlag::PromoteCaptureB } else if j == 2 {
                    MoveFlag::PromoteCaptureR
                } else {
                    MoveFlag::PromoteCaptureQ
                };
                Move::lemma_made(f as u8, t as u8, flag);
                lemma_pawn_flag_read(b, t, delta, flag);
            } else {
                let flag = if j == 0 { MoveFlag::PromoteN } else if j == 1 { MoveFlag::PromoteB } else if j == 2 {
                    MoveFlag::PromoteR
                } else {
                    MoveFlag::PromoteQ
                };
                Move::lemma_made(f as u8, t as u8, flag);
                lemma_pawn_flag_read(b, t, delta, flag);
            }
        } else {
            let flag = if capture { MoveFlag::Capture } else { MoveFlag::QuietMove };
            Move::lemma_made(f as u8, t as u8, flag);
            lemma_pawn_flag_read(b, t, delta, flag);
        }
    }
}


/// The moves of a flattened list of pawn targets read back, when each
/// target passes the test of `lemma_pawn_target_read`.
proof fn lemma_pawn_flat_read(b: Board, pred: spec_fn(int) -> bool, f: spec_fn(int) -> Seq<Move>, delta: int, capture: bool, double: bool)
    requires
        b.wf(),
        f == (|t: int| crate::movegen::pawn_target_moves(b.active_color, t, delta, capture, double)),
        rights_consistent(b@),
        forall|t: int| 0 <= t < 64 && #[trigger] pred(t) ==> {
            &&& 0 <= t - delta < 64
            &&& own(b.mailbox@, t - delta, 0, b.active_color)
            &&& (capture ==> enemy(b.mailbox@, t, b.active_color) && !double && (delta == 7 || delta == 9 || delta == -7 || delta == -9))
            &&& (!capture ==> vacant(b.mailbox@, t))
            &&& (!capture && !double ==> delta == crate::movegen::fwd(b.active_color))
            &&& (double ==> delta == 2 * crate::movegen::fwd(b.active_color))
        },
    ensures
        forall|m: Move| #[trigger] crate::movegen::flat(squares_where(pred), f).contains(m) ==> reads_back(b@, m),
{
    assert forall|m: Move| #[trigger] crate::movegen::flat(squares_where(pred), f).contains(m) implies reads_back(b@, m) by {
        lemma_flat_contains(squares_where(pred), f, m);
        let i = choose|i: int| 0 <= i < squares_where(pred).len() && #[trigger] f(squares_where(pred)[i]).contains(m);
        let t = squares_where(pred)[i];
        assert(squares_where(pred).contains(t));
        lemma_squares_from_contains(pred, 0, t);
        lemma_pawn_target_read(b, t, delta, capture, double);
    }
}

/// The en passant captures of the side to move read back.
proof fn lemma_en_passant_read(b: Board)
    requires
        b.wf(),
        rights_consistent(b@),
    ensures
        forall|m: Move| #[trigger] crate::movegen::en_passant_moves(b).contains(m) ==> reads_back(b@, m),
{
    let c = b.active_color;
    let mb = b.mailbox@;
    let p = b@;
    if let Some(e) = b.en_passant_square {
        let pred = |s: int| crate::movegen::en_passant_source(c, e as int, s) && own(mb, s, 0, c);
        let ms = crate::movegen::moves_onto(squares_where(pred), e as int, MoveFlag::EnPassant);
        lemma_capture_codes(5);
        assert(piece_of_kind(0, c) != piece_of_kind(5, c));
        assert forall|m: Move| #[trigger] ms.contains(m) implies reads_back(p, m) by {
            let j = choose|j: int| 0 <= j < ms.len() && #[trigger] ms[j] == m;
            let s = squares_where(pred)[j];
            assert(squares_where(pred).contains(s));
            lemma_squares_from_contains(pred, 0, s);
            Move::lemma_made(s as u8, e, MoveFlag::EnPassant);
            assert(text_flag(p, s, e as int, promotion_char(MoveFlag::EnPassant)) == Some(MoveFlag::EnPassant));
            lemma_made_text(p, s, e as int, MoveFlag::EnPassant);
        }
    }
}

/// The text of every pseudo-legal move reads back as that move, on a board
/// whose king is there, whose castling rights have their rooks at home and
/// whose en passant square lies empty behind an enemy pawn.
pub proof fn lemma_move_text_reads_back(b: Board, m: Move)
    requires
        b.wf(),
        has_king(b),
        rights_consistent(b@),
        pseudo_legal_moves(b).contains(m),
    ensures
        move_of_text(b@, crate::mv::move_text(m)) == Some(m),
{
    let mb = b.mailbox@;
    let c = b.active_color;
    let fw = crate::movegen::fwd(c);
    let ld = crate::movegen::left_delta(c);
    let rd = crate::movegen::right_delta(c);
    let p1 = |t: int| crate::movegen::push_target(mb, c, t);
    let p2 = |t: int| crate::movegen::double_target(mb, c, t);
    let p3 = |t: int| crate::movegen::capture_target(mb, c, t, ld, 0);
    let p4 = |t: int| crate::movegen::capture_target(mb, c, t, rd, 7);
    let g1 = |t: int| crate::movegen::pawn_target_moves(c, t, fw, false, false);
    let g2 = |t: int| crate::movegen::pawn_target_moves(c, t, 2 * fw, false, true);
    let g3 = |t: int| crate::movegen::pawn_target_moves(c, t, ld, true, false);
    let g4 = |t: int| crate::movegen::pawn_target_moves(c, t, rd, true, false);
    lemma_pawn_flat_read(b, p1, g1, fw, false, false);
    lemma_pawn_flat_read(b, p2, g2, 2 * fw, false, true);
    lemma_pawn_flat_read(b, p3, g3, ld, true, false);
    lemma_pawn_flat_read(b, p4, g4, rd, true, false);
    lemma_en_passant_read(b);
    lemma_piece_moves_read(b, 1);
    lemma_piece_moves_read(b, 2);
    lemma_piece_moves_read(b, 3);
    lemma_piece_moves_read(b, 4);
    lemma_king_moves_read(b);
    let f1 = crate::movegen::flat(squares_where(p1), g1);
    let f2 = crate::movegen::flat(squares_where(p2), g2);
    let f3 = crate::movegen::flat(squares_where(p3), g3);
    let f4 = crate::movegen::flat(squares_where(p4), g4);
    let e = crate::movegen::en_passant_moves(b);
    let pawns = f1 + f2 + f3 + f4 + e;
    assert(crate::movegen::pawn_moves(b) == pawns);
    let all = pawns + piece_moves(b, 1) + piece_moves(b, 2) + piece_moves(b, 3) + piece_moves(b, 4) + king_moves(b);
    assert(pseudo_legal_moves(b) == all);
    let a4 = pawns + piece_moves(b, 1) + piece_moves(b, 2) + piece_moves(b, 3) + piece_moves(b, 4);
    let a3 = pawns + piece_moves(b, 1) + piece_moves(b, 2) + piece_moves(b, 3);
    let a2 = pawns + piece_moves(b, 1) + piece_moves(b, 2);
    let a1 = pawns + piece_moves(b, 1);
    lemma_join_contains(a4, king_moves(b), m);
    if a4.contains(m) {
        lemma_join_contains(a3, piece_moves(b, 4), m);
        if a3.contains(m) {
            lemma_join_contains(a2, piece_moves(b, 3), m);
            if a2.contains(m) {
                lemma_join_contains(a1, piece_moves(b, 2), m);
                if a1.contains(m) {
                    lemma_join_contains(pawns, piece_moves(b, 1), m);
                    if pawns.contains(m) {
                        lemma_join_contains(f1 + f2 + f3 + f4, e, m);
                        if (f1 + f2 + f3 + f4).contains(m) {
                            lemma_join_contains(f1 + f2 + f3, f4, m);
                            if (f1 + f2 + f3).contains(m) {
                                lemma_join_contains(f1 + f2, f3, m);
                                if (f1 + f2).contains(m) {
                                    lemma_join_contains(f1, f2, m);
                                }
                            }
                        }
                    }
                }
            }
        }
    }
}


/// Every pseudo-legal move can be made on its board (see `move_fits`),
/// on a board whose king is there, whose castling rights have their rooks
/// at home and whose en passant square lies empty behind an enemy pawn.
pub proof fn lemma_generated_moves_fit(b: Board, m: Move)
    requires
        b.wf(),
        has_king(b),
        rights_consistent(b@),
        pseudo_legal_moves(b).contains(m),
    ensures
        move_fits(b@, m),
{
    lemma_move_text_reads_back(b, m);
}

/// No pseudo-legal move is the null move, on a board whose king is there,
/// whose castling rights have their rooks at home and whose en passant
/// square lies empty behind an enemy pawn.
pub proof fn lemma_generated_not_null(b: Board)
    requires
        b.wf(),
        has_king(b),
        rights_consistent(b@),
    ensures
        forall|i: int| 0 <= i < pseudo_legal_moves(b).len() ==> #[trigger] pseudo_legal_moves(b)[i].bits() != 0,
{
    assert forall|i: int| 0 <= i < pseudo_legal_moves(b).len() implies #[trigger] pseudo_legal_moves(b)[i].bits() != 0 by {
        let m = pseudo_legal_moves(b)[i];
        assert(pseudo_legal_moves(b).contains(m));
        lemma_generated_moves_fit(b, m);
        crate::search::lemma_fits_nonnull(b@, m);
    }
}


/// Taking back a pseudo-legal move that was made gives the position back,
/// on a board whose king is there, whose castling rights have their rooks
/// at home and whose en passant square lies empty behind an enemy pawn.
pub proof fn lemma_generated_make_unmake(b: Board, m: Move)
    requires
        b.wf(),
        has_king(b),
        rights_consistent(b@),
        pseudo_legal_moves(b).contains(m),
    ensures
        move_fits(b@, m),
        crate::board::unmake_position(make_position(b@, m), m, crate::board::unmove_of_position(b@, m)) == b@,
{
    lemma_generated_moves_fit(b, m);
    crate::board::lemma_unmake_inverts_make(b@, m);
}


/// Making a pseudo-legal move keeps every castling right backed by its king
/// and rook at home, on a board whose king is there, whose castling rights
/// have their rooks at home and whose en passant square lies empty behind
/// an enemy pawn.
pub proof fn lemma_generated_keeps_rights_at_home(b: Board, m: Move)
    requires
        b.wf(),
        has_king(b),
        rights_consistent(b@),
        crate::board::rights_at_home(b@),
        pseudo_legal_moves(b).contains(m),
    ensures
        crate::board::rights_at_home(make_position(b@, m)),
{
    let p = b@;
    lemma_move_text_reads_back(b, m);
    let text = crate::mv::move_text(m);
    let from = square_of_chars(text[0], text[1])->0;
    let to = square_of_chars(text[2], text[3])->0;
    let promo = if text.len() == 5 { Some(text[4]) } else { None };
    let flag = text_flag(p, from, to, promo)->0;
    assert(m == Move::made(from as u8, to as u8, flag));
    assert(0 <= from < 64 && 0 <= to < 64);
    Move::lemma_made(from as u8, to as u8, flag);
    crate::board::lemma_make_keeps_rights_at_home(p, m);
}


/// A square picked by `squares_where` is on the board and passes the test.
proof fn lemma_picked(pred: spec_fn(int) -> bool, froms: Seq<int>, i: int)
    requires
        froms == squares_where(pred),
        0 <= i < froms.len(),
    ensures
        0 <= froms[i] < 64,
        pred(froms[i]),
{
    assert(froms.contains(froms[i]));
    lemma_squares_from_contains(pred, 0, froms[i]);
}

/// The steps and captures of a piece carry no double push flag.
proof fn lemma_moves_from_flag(b: Board, kind: int, from: int, m: Move)
    requires
        moves_from(b, kind, from).contains(m),
    ensures
        m.flag_bits() != 1 && m.flag_bits() != 2 && m.flag_bits() != 3,
{
    let mb = b.mailbox@;
    let c = b.active_color;
    let pc = |t: int| crate::movegen::piece_attack(kind, from, b.all_pieces, t) && enemy(mb, t, c);
    let pq = |t: int| crate::movegen::piece_attack(kind, from, b.all_pieces, t) && vacant(mb, t);
    let caps = moves_to(from, squares_where(pc), MoveFlag::Capture);
    let quiet = moves_to(from, squares_where(pq), MoveFlag::QuietMove);
    lemma_join_contains(caps, quiet, m);
    if caps.contains(m) {
        let k = choose|k: int| 0 <= k < caps.len() && caps[k] == m;
        lemma_picked(pc, squares_where(pc), k);
        Move::lemma_made_flag(from as u8, squares_where(pc)[k] as u8, MoveFlag::Capture);
    } else {
        let k = choose|k: int| 0 <= k < quiet.len() && quiet[k] == m;
        lemma_picked(pq, squares_where(pq), k);
        Move::lemma_made_flag(from as u8, squares_where(pq)[k] as u8, MoveFlag::QuietMove);
    }
}

/// The moves of the knights, bishops, rooks or queens carry no double push
/// flag.
proof fn lemma_piece_moves_flag(b: Board, kind: int, m: Move)
    requires
        piece_moves(b, kind).contains(m),
    ensures
        m.flag_bits() != 1 && m.flag_bits() != 2 && m.flag_bits() != 3,
{
    let pred = |s: int| own(b.mailbox@, s, kind, b.active_color);
    let f = |from: int| moves_from(b, kind, from);
    lemma_flat_contains(squares_where(pred), f, m);
    let i = choose|i: int| 0 <= i < squares_where(pred).len() && #[trigger] f(squares_where(pred)[i]).contains(m);
    lemma_moves_from_flag(b, kind, squares_where(pred)[i], m);
}

/// The king's moves carry no double push flag.
proof fn lemma_king_moves_flag(b: Board, m: Move)
    requires
        king_moves(b).contains(m),
    ensures
        m.flag_bits() != 1,
{
    let ks = king_square(b);
    lemma_join_contains(moves_from(b, 5, ks), castle_moves(b, ks), m);
    if moves_from(b, 5, ks).contains(m) {
        lemma_moves_from_flag(b, 5, ks, m);
    } else {
        Move::lemma_made_flag(4, 6, MoveFlag::KingCastle);
        Move::lemma_made_flag(4, 2, MoveFlag::QueenCastle);
        Move::lemma_made_flag(60, 62, MoveFlag::KingCastle);
        Move::lemma_made_flag(60, 58, MoveFlag::QueenCastle);
        let cm = castle_moves(b, ks);
        let k = choose|k: int| 0 <= k < cm.len() && cm[k] == m;
        assert(m == Move::made(4, 6, MoveFlag::KingCastle) || m == Move::made(4, 2, MoveFlag::QueenCastle)
            || m == Move::made(60, 62, MoveFlag::KingCastle) || m == Move::made(60, 58, MoveFlag::QueenCastle));
    }
}

/// Single steps and captures of pawns, promotions among them, carry no
/// double push flag.
proof fn lemma_pawn_flat_flag(c: Color, pred: spec_fn(int) -> bool, f: spec_fn(int) -> Seq<Move>, delta: int, capture: bool, m: Move)
    requires
        f == (|t: int| crate::movegen::pawn_target_moves(c, t, delta, capture, false)),
        crate::movegen::flat(squares_where(pred), f).contains(m),
    ensures
        m.flag_bits() != 1 && m.flag_bits() != 2 && m.flag_bits() != 3,
{
    let froms = squares_where(pred);
    lemma_flat_contains(froms, f, m);
    let i = choose|i: int| 0 <= i < froms.len() && #[trigger] f(froms[i]).contains(m);
    lemma_picked(pred, froms, i);
    let t = froms[i];
    let fr = (t - delta) as u8;
    if capture {
        Move::lemma_made_flag(fr, t as u8, MoveFlag::PromoteCaptureN);
        Move::lemma_made_flag(fr, t as u8, MoveFlag::PromoteCaptureB);
        Move::lemma_made_flag(fr, t as u8, MoveFlag::PromoteCaptureR);
        Move::lemma_made_flag(fr, t as u8, MoveFlag::PromoteCaptureQ);
        Move::lemma_made_flag(fr, t as u8, MoveFlag::Capture);
    } else {
        Move::lemma_made_flag(fr, t as u8, MoveFlag::PromoteN);
        Move::lemma_made_flag(fr, t as u8, MoveFlag::PromoteB);
        Move::lemma_made_flag(fr, t as u8, MoveFlag::PromoteR);
        Move::lemma_made_flag(fr, t as u8, MoveFlag::PromoteQ);
        Move::lemma_made_flag(fr, t as u8, MoveFlag::QuietMove);
    }
    let g = f(t);
    let k = choose|k: int| 0 <= k < g.len() && g[k] == m;
    assert(g[k].flag_bits() != 1 && g[k].flag_bits() != 2 && g[k].flag_bits() != 3);
}

/// A generated move with the double push flag is a double push: a pawn of
/// the side to move two squares back, over an empty square, onto an empty
/// one.
proof fn lemma_double_push_flag(b: Board, m: Move)
    requires
        b.wf(),
        pseudo_legal_moves(b).contains(m),
        m.flag_bits() == 1,
    ensures
        crate::movegen::double_target(b.mailbox@, b.active_color, m.to_sq() as int),
        m.from_sq() as int == m.to_sq() - 2 * crate::movegen::fwd(b.active_color),
{
    let mb = b.mailbox@;
    let c = b.active_color;
    let fw = crate::movegen::fwd(c);
    let ld = crate::movegen::left_delta(c);
    let rd = crate::movegen::right_delta(c);
    let p1 = |t: int| crate::movegen::push_target(mb, c, t);
    let p2 = |t: int| crate::movegen::double_target(mb, c, t);
    let p3 = |t: int| crate::movegen::capture_target(mb, c, t, ld, 0);
    let p4 = |t: int| crate::movegen::capture_target(mb, c, t, rd, 7);
    let g1 = |t: int| crate::movegen::pawn_target_moves(c, t, fw, false, false);
    let g2 = |t: int| crate::movegen::pawn_target_moves(c, t, 2 * fw, false, true);
    let g3 = |t: int| crate::movegen::pawn_target_moves(c, t, ld, true, false);
    let g4 = |t: int| crate::movegen::pawn_target_moves(c, t, rd, true, false);
    let f1 = crate::movegen::flat(squares_where(p1), g1);
    let f2 = crate::movegen::flat(squares_where(p2), g2);
    let f3 = crate::movegen::flat(squares_where(p3), g3);
    let f4 = crate::movegen::flat(squares_where(p4), g4);
    let e = crate::movegen::en_passant_moves(b);
    let pawns = f1 + f2 + f3 + f4 + e;
    assert(crate::movegen::pawn_moves(b) == pawns);
    let a4 = pawns + piece_moves(b, 1) + piece_moves(b, 2) + piece_moves(b, 3) + piece_moves(b, 4);
    let a3 = pawns + piece_moves(b, 1) + piece_moves(b, 2) + piece_moves(b, 3);
    let a2 = pawns + piece_moves(b, 1) + piece_moves(b, 2);
    let a1 = pawns + piece_moves(b, 1);
    assert(pseudo_legal_moves(b) == a4 + king_moves(b));
    lemma_join_contains(a4, king_moves(b), m);
    if king_moves(b).contains(m) {
        lemma_king_moves_flag(b, m);
        return;
    }
    lemma_join_contains(a3, piece_moves(b, 4), m);
    if piece_moves(b, 4).contains(m) {
        lemma_piece_moves_flag(b, 4, m);
        return;
    }
    lemma_join_contains(a2, piece_moves(b, 3), m);
    if piece_moves(b, 3).contains(m) {
        lemma_piece_moves_flag(b, 3, m);
        return;
    }
    lemma_join_contains(a1, piece_moves(b, 2), m);
    if piece_moves(b, 2).contains(m) {
        lemma_piece_moves_flag(b, 2, m);
        return;
    }
    lemma_join_contains(pawns, piece_moves(b, 1), m);
    if piece_moves(b, 1).contains(m) {
        lemma_piece_moves_flag(b, 1, m);
        return;
    }
    lemma_join_contains(f1 + f2 + f3 + f4, e, m);
    if e.contains(m) {
        let ep = b.en_passant_square->0;
        let src = |s: int| crate::movegen::en_passant_source(c, ep as int, s) && own(mb, s, 0, c);
        let k = choose|k: int| 0 <= k < e.len() && e[k] == m;
        Move::lemma_made_flag(squares_where(src)[k] as u8, ep, MoveFlag::EnPassant);
        return;
    }
    lemma_join_contains(f1 + f2 + f3, f4, m);
    if f4.contains(m) {
        lemma_pawn_flat_flag(c, p4, g4, rd, true, m);
        return;
    }
    lemma_join_contains(f1 + f2, f3, m);
    if f3.contains(m) {
        lemma_pawn_flat_flag(c, p3, g3, ld, true, m);
        return;
    }
    lemma_join_contains(f1, f2, m);
    if f1.contains(m) {
        lemma_pawn_flat_flag(c, p1, g1, fw, false, m);
        return;
    }
    let froms = squares_where(p2);
    lemma_flat_contains(froms, g2, m);
    let i = choose|i: int| 0 <= i < froms.len() && #[trigger] g2(froms[i]).contains(m);
    lemma_picked(p2, froms, i);
    let t = froms[i];
    assert(m == Move::made((t - 2 * fw) as u8, t as u8, MoveFlag::DoublePawnPush));
    Move::lemma_made((t - 2 * fw) as u8, t as u8, MoveFlag::DoublePawnPush);
}

/// Making a pseudo-legal move keeps the castling rights backed by their
/// king and rooks at home and leaves an en passant square only empty,
/// behind the pawn that just passed it, on a board whose king is there,
/// whose castling rights have their rooks at home and whose en passant
/// square lies empty behind an enemy pawn.
pub proof fn lemma_generated_keeps_consistency(b: Board, m: Move)
    requires
        b.wf(),
        has_king(b),
        rights_consistent(b@),
        crate::board::rights_at_home(b@),
        pseudo_legal_moves(b).contains(m),
    ensures
        crate::board::rights_at_home(make_position(b@, m)),
        rights_consistent(make_position(b@, m)),
{
    lemma_generated_keeps_rights_at_home(b, m);
    let p = b@;
    let q = make_position(p, m);
    m.lemma_squares();
    if m.flag_bits() == 1 {
        lemma_double_push_flag(b, m);
        let c = p.active_color;
        let t = m.to_sq() as int;
        let f = m.from_sq() as int;
        let e = crate::board::behind(c, t);
        assert(e == f + crate::movegen::fwd(c));
        assert(q.en_passant == Some(e as u8));
        assert(q.mailbox[e] is None);
        assert(crate::board::behind(q.active_color, e) == t);
        assert(q.mailbox[t] == Some(piece_of_kind(0, c)));
    }
}

/// The target square of a move is empty or holds a piece of the side not
/// to move.
pub open spec fn lands_off_own(mb: Seq<Option<Piece>>, c: Color, m: Move) -> bool {
    vacant(mb, m.to_sq() as int) || enemy(mb, m.to_sq() as int, c)
}

/// The steps and captures of a piece on the board land off its own pieces.
proof fn lemma_moves_from_lands(b: Board, kind: int, from: int, m: Move)
    requires
        0 <= from < 64,
        moves_from(b, kind, from).contains(m),
    ensures
        lands_off_own(b.mailbox@, b.active_color, m),
{
    let mb = b.mailbox@;
    let c = b.active_color;
    let pc = |t: int| crate::movegen::piece_attack(kind, from, b.all_pieces, t) && enemy(mb, t, c);
    let pq = |t: int| crate::movegen::piece_attack(kind, from, b.all_pieces, t) && vacant(mb, t);
    let caps = moves_to(from, squares_where(pc), MoveFlag::Capture);
    let quiet = moves_to(from, squares_where(pq), MoveFlag::QuietMove);
    lemma_join_contains(caps, quiet, m);
    if caps.contains(m) {
        let k = choose|k: int| 0 <= k < caps.len() && caps[k] == m;
        lemma_picked(pc, squares_where(pc), k);
        Move::lemma_made(from as u8, squares_where(pc)[k] as u8, MoveFlag::Capture);
    } else {
        let k = choose|k: int| 0 <= k < quiet.len() && quiet[k] == m;
        lemma_picked(pq, squares_where(pq), k);
        Move::lemma_made(from as u8, squares_where(pq)[k] as u8, MoveFlag::QuietMove);
    }
}

/// The moves of the knights, bishops, rooks or queens land off their own
/// pieces.
proof fn lemma_piece_moves_lands(b: Board, kind: int, m: Move)
    requires
        piece_moves(b, kind).contains(m),
    ensures
        lands_off_own(b.mailbox@, b.active_color, m),
{
    let pred = |s: int| own(b.mailbox@, s, kind, b.active_color);
    let f = |from: int| moves_from(b, kind, from);
    lemma_flat_contains(squares_where(pred), f, m);
    let i = choose|i: int| 0 <= i < squares_where(pred).len() && #[trigger] f(squares_where(pred)[i]).contains(m);
    lemma_picked(pred, squares_where(pred), i);
    lemma_moves_from_lands(b, kind, squares_where(pred)[i], m);
}

/// The king's moves land off its own pieces.
proof fn lemma_king_moves_lands(b: Board, m: Move)
    requires
        has_king(b),
        king_moves(b).contains(m),
    ensures
        lands_off_own(b.mailbox@, b.active_color, m),
{
    let ks = king_square(b);
    lemma_picked(|s: int| own(b.mailbox@, s, 5, b.active_color), squares_where(|s: int| own(b.mailbox@, s, 5, b.active_color)), 0);
    lemma_join_contains(moves_from(b, 5, ks), castle_moves(b, ks), m);
    if moves_from(b, 5, ks).contains(m) {
        lemma_moves_from_lands(b, 5, ks, m);
    } else {
        Move::lemma_made(4, 6, MoveFlag::KingCastle);
        Move::lemma_made(4, 2, MoveFlag::QueenCastle);
        Move::lemma_made(60, 62, MoveFlag::KingCastle);
        Move::lemma_made(60, 58, MoveFlag::QueenCastle);
        let cm = castle_moves(b, ks);
        let k = choose|k: int| 0 <= k < cm.len() && cm[k] == m;
        assert(vacant(b.mailbox@, m.to_sq() as int));
    }
}

/// The pawn moves onto the squares that pass a test land off their own
/// pieces, when every such square and its origin are on the board and the
/// square is empty or an enemy's.
proof fn lemma_pawn_flat_lands(b: Board, pred: spec_fn(int) -> bool, f: spec_fn(int) -> Seq<Move>, delta: int, capture: bool, double: bool, m: Move)
    requires
        f == (|t: int| crate::movegen::pawn_target_moves(b.active_color, t, delta, capture, double)),
        forall|t: int| 0 <= t < 64 && #[trigger] pred(t) ==> 0 <= t - delta < 64 && (vacant(b.mailbox@, t) || enemy(b.mailbox@, t, b.active_color)),
        crate::movegen::flat(squares_where(pred), f).contains(m),
    ensures
        lands_off_own(b.mailbox@, b.active_color, m),
{
    let froms = squares_where(pred);
    lemma_flat_contains(froms, f, m);
    let i = choose|i: int| 0 <= i < froms.len() && #[trigger] f(froms[i]).contains(m);
    lemma_picked(pred, froms, i);
    let t = froms[i];
    let fr = (t - delta) as u8;
    Move::lemma_made(fr, t as u8, MoveFlag::DoublePawnPush);
    Move::lemma_made(fr, t as u8, MoveFlag::PromoteCaptureN);
    Move::lemma_made(fr, t as u8, MoveFlag::PromoteCaptureB);
    Move::lemma_made(fr, t as u8, MoveFlag::PromoteCaptureR);
    Move::lemma_made(fr, t as u8, MoveFlag::PromoteCaptureQ);
    Move::lemma_made(fr, t as u8, MoveFlag::Capture);
    Move::lemma_made(fr, t as u8, MoveFlag::PromoteN);
    Move::lemma_made(fr, t as u8, MoveFlag::PromoteB);
    Move::lemma_made(fr, t as u8, MoveFlag::PromoteR);
    Move::lemma_made(fr, t as u8, MoveFlag::PromoteQ);
    Move::lemma_made(fr, t as u8, MoveFlag::QuietMove);
    let g = f(t);
    let k = choose|k: int| 0 <= k < g.len() && g[k] == m;
    assert(g[k].to_sq() == t);
}

/// Every pseudo-legal move lands on an empty square or an enemy's, on a
/// board whose king is there and whose en passant square lies empty behind
/// an enemy pawn.
pub proof fn lemma_generated_lands_off_own(b: Board, m: Move)
    requires
        b.wf(),
        has_king(b),
        rights_consistent(b@),
        pseudo_legal_moves(b).contains(m),
    ensures
        lands_off_own(b.mailbox@, b.active_color, m),
{
    let mb = b.mailbox@;
    let c = b.active_color;
    let fw = crate::movegen::fwd(c);
    let ld = crate::movegen::left_delta(c);
    let rd = crate::movegen::right_delta(c);
    let p1 = |t: int| crate::movegen::push_target(mb, c, t);
    let p2 = |t: int| crate::movegen::double_target(mb, c, t);
    let p3 = |t: int| crate::movegen::capture_target(mb, c, t, ld, 0);
    let p4 = |t: int| crate::movegen::capture_target(mb, c, t, rd, 7);
    let g1 = |t: int| crate::movegen::pawn_target_moves(c, t, fw, false, false);
    let g2 = |t: int| crate::movegen::pawn_target_moves(c, t, 2 * fw, false, true);
    let g3 = |t: int| crate::movegen::pawn_target_moves(c, t, ld, true, false);
    let g4 = |t: int| crate::movegen::pawn_target_moves(c, t, rd, true, false);
    let f1 = crate::movegen::flat(squares_where(p1), g1);
    let f2 = crate::movegen::flat(squares_where(p2), g2);
    let f3 = crate::movegen::flat(squares_where(p3), g3);
    let f4 = crate::movegen::flat(squares_where(p4), g4);
    let e = crate::movegen::en_passant_moves(b);
    let pawns = f1 + f2 + f3 + f4 + e;
    assert(crate::movegen::pawn_moves(b) == pawns);
    let a4 = pawns + piece_moves(b, 1) + piece_moves(b, 2) + piece_moves(b, 3) + piece_moves(b, 4);
    let a3 = pawns + piece_moves(b, 1) + piece_moves(b, 2) + piece_moves(b, 3);
    let a2 = pawns + piece_moves(b, 1) + piece_moves(b, 2);
    let a1 = pawns + piece_moves(b, 1);
    assert(pseudo_legal_moves(b) == a4 + king_moves(b));
    lemma_join_contains(a4, king_moves(b), m);
    if king_moves(b).contains(m) {
        lemma_king_moves_lands(b, m);
        return;
    }
    lemma_join_contains(a3, piece_moves(b, 4), m);
    if piece_moves(b, 4).contains(m) {
        lemma_piece_moves_lands(b, 4, m);
        return;
    }
    lemma_join_contains(a2, piece_moves(b, 3), m);
    if piece_moves(b, 3).contains(m) {
        lemma_piece_moves_lands(b, 3, m);
        return;
    }
    lemma_join_contains(a1, piece_moves(b, 2), m);
    if piece_moves(b, 2).contains(m) {
        lemma_piece_moves_lands(b, 2, m);
        return;
    }
    lemma_join_contains(pawns, piece_moves(b, 1), m);
    if piece_moves(b, 1).contains(m) {
        lemma_piece_moves_lands(b, 1, m);
        return;
    }
    lemma_join_contains(f1 + f2 + f3 + f4, e, m);
    if e.contains(m) {
        let ep = b.en_passant_square->0;
        let src = |s: int| crate::movegen::en_passant_source(c, ep as int, s) && own(mb, s, 0, c);
        let k = choose|k: int| 0 <= k < e.len() && e[k] == m;
        lemma_picked(src, squares_where(src), k);
        Move::lemma_made(squares_where(src)[k] as u8, ep, MoveFlag::EnPassant);
        return;
    }
    lemma_join_contains(f1 + f2 + f3, f4, m);
    if f4.contains(m) {
        lemma_pawn_flat_lands(b, p4, g4, rd, true, false, m);
        return;
    }
    lemma_join_contains(f1 + f2, f3, m);
    if f3.contains(m) {
        lemma_pawn_flat_lands(b, p3, g3, ld, true, false, m);
        return;
    }
    lemma_join_contains(f1, f2, m);
    if f1.contains(m) {
        lemma_pawn_flat_lands(b, p1, g1, fw, false, false, m);
        return;
    }
    lemma_pawn_flat_lands(b, p2, g2, 2 * fw, false, true, m);
}

/// A pseudo-legal move meets what `Board::make_move` asks of a move, on a
/// board whose king is there and whose en passant square lies empty behind
/// an enemy pawn: it can be made, the side to move has a king, and the move
/// does not take a king of its own side. What remains are the counters
/// (`make_ok`), which the engine checks before it moves.
pub proof fn lemma_generated_meets_make(b: Board, m: Move)
    requires
        b.wf(),
        has_king(b),
        rights_consistent(b@),
        pseudo_legal_moves(b).contains(m),
    ensures
        move_fits(b@, m),
        b.mailbox@[m.to_sq() as int] != Some(piece_of_kind(5, b.active_color)),
{
    lemma_generated_moves_fit(b, m);
    lemma_generated_lands_off_own(b, m);
}

/// A generated move with a castling flag is one of the king's castling
/// moves.
proof fn lemma_castle_flag_source(b: Board, m: Move)
    requires
        b.wf(),
        pseudo_legal_moves(b).contains(m),
        m.flag_bits() == 2 || m.flag_bits() == 3,
    ensures
        castle_moves(b, king_square(b)).contains(m),
{
    let mb = b.mailbox@;
    let c = b.active_color;
    let fw = crate::movegen::fwd(c);
    let ld = crate::movegen::left_delta(c);
    let rd = crate::movegen::right_delta(c);
    let p1 = |t: int| crate::movegen::push_target(mb, c, t);
    let p2 = |t: int| crate::movegen::double_target(mb, c, t);
    let p3 = |t: int| crate::movegen::capture_target(mb, c, t, ld, 0);
    let p4 = |t: int| crate::movegen::capture_target(mb, c, t, rd, 7);
    let g1 = |t: int| crate::movegen::pawn_target_moves(c, t, fw, false, false);
    let g2 = |t: int| crate::movegen::pawn_target_moves(c, t, 2 * fw, false, true);
    let g3 = |t: int| crate::movegen::pawn_target_moves(c, t, ld, true, false);
    let g4 = |t: int| crate::movegen::pawn_target_moves(c, t, rd, true, false);
    let f1 = crate::movegen::flat(squares_where(p1), g1);
    let f2 = crate::movegen::flat(squares_where(p2), g2);
    let f3 = crate::movegen::flat(squares_where(p3), g3);
    let f4 = crate::movegen::flat(squares_where(p4), g4);
    let e = crate::movegen::en_passant_moves(b);
    let pawns = f1 + f2 + f3 + f4 + e;
    assert(crate::movegen::pawn_moves(b) == pawns);
    let a4 = pawns + piece_moves(b, 1) + piece_moves(b, 2) + piece_moves(b, 3) + piece_moves(b, 4);
    let a3 = pawns + piece_moves(b, 1) + piece_moves(b, 2) + piece_moves(b, 3);
    let a2 = pawns + piece_moves(b, 1) + piece_moves(b, 2);
    let a1 = pawns + piece_moves(b, 1);
    assert(pseudo_legal_moves(b) == a4 + king_moves(b));
    lemma_join_contains(a4, king_moves(b), m);
    if king_moves(b).contains(m) {
        let ks = king_square(b);
        lemma_join_contains(moves_from(b, 5, ks), castle_moves(b, ks), m);
        if moves_from(b, 5, ks).contains(m) {
            lemma_moves_from_flag(b, 5, ks, m);
        }
        return;
    }
    lemma_join_contains(a3, piece_moves(b, 4), m);
    if piece_moves(b, 4).contains(m) {
        lemma_piece_moves_flag(b, 4, m);
        return;
    }
    lemma_join_contains(a2, piece_moves(b, 3), m);
    if piece_moves(b, 3).contains(m) {
        lemma_piece_moves_flag(b, 3, m);
        return;
    }
    lemma_join_contains(a1, piece_moves(b, 2), m);
    if piece_moves(b, 2).contains(m) {
        lemma_piece_moves_flag(b, 2, m);
        return;
    }
    lemma_join_contains(pawns, piece_moves(b, 1), m);
    if piece_moves(b, 1).contains(m) {
        lemma_piece_moves_flag(b, 1, m);
        return;
    }
    lemma_join_contains(f1 + f2 + f3 + f4, e, m);
    if e.contains(m) {
        let ep = b.en_passant_square->0;
        let src = |s: int| crate::movegen::en_passant_source(c, ep as int, s) && own(mb, s, 0, c);
        let k = choose|k: int| 0 <= k < e.len() && e[k] == m;
        Move::lemma_made_flag(squares_where(src)[k] as u8, ep, MoveFlag::EnPassant);
        return;
    }
    lemma_join_contains(f1 + f2 + f3, f4, m);
    if f4.contains(m) {
        lemma_pawn_flat_flag(c, p4, g4, rd, true, m);
        return;
    }
    lemma_join_contains(f1 + f2, f3, m);
    if f3.contains(m) {
        lemma_pawn_flat_flag(c, p3, g3, ld, true, m);
        return;
    }
    lemma_join_contains(f1, f2, m);
    if f1.contains(m) {
        lemma_pawn_flat_flag(c, p1, g1, fw, false, m);
        return;
    }
    let froms = squares_where(p2);
    lemma_flat_contains(froms, g2, m);
    let i = choose|i: int| 0 <= i < froms.len() && #[trigger] g2(froms[i]).contains(m);
    lemma_picked(p2, froms, i);
    let t = froms[i];
    Move::lemma_made_flag((t - 2 * fw) as u8, t as u8, MoveFlag::DoublePawnPush);
}

/// A generated castling move takes the king from its home square (e1 or
/// e8) two squares towards the rook, uses a castling right that the board
/// holds, and every square strictly between the king and that rook is
/// empty: f1 and g1 for white's kingside, b1, c1 and d1 for its queenside,
/// and the same squares of the eighth rank for black.
pub proof fn lemma_castling_moves_clear(b: Board, m: Move)
    requires
        b.wf(),
        pseudo_legal_moves(b).contains(m),
        m.flag_bits() == 2 || m.flag_bits() == 3,
    ensures
        b.active_color == Color::White && m.flag_bits() == 2 ==> {
            &&& m.from_sq() == 4 && m.to_sq() == 6
            &&& b.castling_rights.0 & 1 != 0
            &&& b.mailbox@[5] is None && b.mailbox@[6] is None
        },
        b.active_color == Color::White && m.flag_bits() == 3 ==> {
            &&& m.from_sq() == 4 && m.to_sq() == 2
            &&& b.castling_rights.0 & 2 != 0
            &&& b.mailbox@[1] is None && b.mailbox@[2] is None && b.mailbox@[3] is None
        },
        b.active_color == Color::Black && m.flag_bits() == 2 ==> {
            &&& m.from_sq() == 60 && m.to_sq() == 62
            &&& b.castling_rights.0 & 4 != 0
            &&& b.mailbox@[61] is None && b.mailbox@[62] is None
        },
        b.active_color == Color::Black && m.flag_bits() == 3 ==> {
            &&& m.from_sq() == 60 && m.to_sq() == 58
            &&& b.castling_rights.0 & 8 != 0
            &&& b.mailbox@[57] is None && b.mailbox@[58] is None && b.mailbox@[59] is None
        },
{
    lemma_castle_flag_source(b, m);
    Move::lemma_made(4, 6, MoveFlag::KingCastle);
    Move::lemma_made(4, 2, MoveFlag::QueenCastle);
    Move::lemma_made(60, 62, MoveFlag::KingCastle);
    Move::lemma_made(60, 58, MoveFlag::QueenCastle);
    let ks = king_square(b);
    let cm = castle_moves(b, ks);
    let k = choose|k: int| 0 <= k < cm.len() && cm[k] == m;
    let mb = b.mailbox@;
    let cr = b.castling_rights.0;
    if b.active_color == Color::White {
        assert(ks == 4);
        assert((m == Move::made(4, 6, MoveFlag::KingCastle) && cr & 1 != 0 && vacant(mb, 5) && vacant(mb, 6))
            || (m == Move::made(4, 2, MoveFlag::QueenCastle) && cr & 2 != 0 && vacant(mb, 1) && vacant(mb, 2) && vacant(mb, 3)));
    } else {
        assert(ks == 60);
        assert((m == Move::made(60, 62, MoveFlag::KingCastle) && cr & 4 != 0 && vacant(mb, 61) && vacant(mb, 62))
            || (m == Move::made(60, 58, MoveFlag::QueenCastle) && cr & 8 != 0 && vacant(mb, 57) && vacant(mb, 58) && vacant(mb, 59)));
    }
}

/// A square that a test picks is among the squares it picks.
proof fn lemma_squares_from_has(p: spec_fn(int) -> bool, n: int, x: int)
    requires
        0 <= n <= x < 64,
        p(x),
    ensures
        crate::movegen::squares_from(p, n).contains(x),
    decreases 64 - n,
{
    if n < x {
        lemma_squares_from_has(p, n + 1, x);
        let k = choose|k: int| 0 <= k < crate::movegen::squares_from(p, n + 1).len() && #[trigger] crate::movegen::squares_from(p, n + 1)[k] == x;
        if p(n) {
            assert(crate::movegen::squares_from(p, n)[k + 1] == x);
        }
    } else {
        assert(crate::movegen::squares_from(p, n)[0] == x);
    }
}

/// An element of the right part of a join is in the join.
proof fn lemma_join_has_right(a: Seq<Move>, b: Seq<Move>, m: Move)
    requires
        b.contains(m),
    ensures
        (a + b).contains(m),
{
    let k = choose|k: int| 0 <= k < b.len() && b[k] == m;
    assert((a + b)[a.len() + k] == m);
}

/// An element of the left part of a join is in the join.
proof fn lemma_join_has_left(a: Seq<Move>, b: Seq<Move>, m: Move)
    requires
        a.contains(m),
    ensures
        (a + b).contains(m),
{
    let k = choose|k: int| 0 <= k < a.len() && a[k] == m;
    assert((a + b)[k] == m);
}

/// The king steps to every neighbouring square (one rank and one file at
/// most away) that is empty, as a quiet move, or holds an enemy piece, as a
/// capture: each such step is a pseudo-legal move.
pub proof fn lemma_king_steps_generated(b: Board, t: int)
    requires
        has_king(b),
        0 <= t < 64,
        t != king_square(b),
        -1 <= t / 8 - king_square(b) / 8 <= 1,
        -1 <= t % 8 - king_square(b) % 8 <= 1,
        vacant(b.mailbox@, t) || enemy(b.mailbox@, t, b.active_color),
    ensures
        pseudo_legal_moves(b).contains(Move::made(king_square(b) as u8, t as u8,
            if vacant(b.mailbox@, t) { MoveFlag::QuietMove } else { MoveFlag::Capture })),
{
    let mb = b.mailbox@;
    let c = b.active_color;
    let ks = king_square(b);
    lemma_picked(|s: int| own(b.mailbox@, s, 5, b.active_color), squares_where(|s: int| own(b.mailbox@, s, 5, b.active_color)), 0);
    let pc = |x: int| piece_attack(5, ks, b.all_pieces, x) && enemy(mb, x, c);
    let pq = |x: int| piece_attack(5, ks, b.all_pieces, x) && vacant(mb, x);
    assert(crate::attacks::king_attack(ks, t));
    let caps = moves_to(ks, squares_where(pc), MoveFlag::Capture);
    let quiet = moves_to(ks, squares_where(pq), MoveFlag::QuietMove);
    let m = Move::made(ks as u8, t as u8, if vacant(mb, t) { MoveFlag::QuietMove } else { MoveFlag::Capture });
    if vacant(mb, t) {
        lemma_squares_from_has(pq, 0, t);
        let k = choose|k: int| 0 <= k < squares_where(pq).len() && #[trigger] squares_where(pq)[k] == t;
        assert(quiet[k] == m);
        lemma_join_has_right(caps, quiet, m);
    } else {
        lemma_squares_from_has(pc, 0, t);
        let k = choose|k: int| 0 <= k < squares_where(pc).len() && #[trigger] squares_where(pc)[k] == t;
        assert(caps[k] == m);
        lemma_join_has_left(caps, quiet, m);
    }
    assert(moves_from(b, 5, ks) == caps + quiet);
    lemma_join_has_left(moves_from(b, 5, ks), castle_moves(b, ks), m);
    let a4 = crate::movegen::pawn_moves(b) + piece_moves(b, 1) + piece_moves(b, 2) + piece_moves(b, 3) + piece_moves(b, 4);
    assert(pseudo_legal_moves(b) == a4 + king_moves(b));
    lemma_join_has_right(a4, king_moves(b), m);
}

/// With white's kingside right, its king on e1 and f1 and g1 empty, e1g1
/// is generated; likewise e1c1 with the queenside right and b1, c1, d1
/// empty, and the same castlings of black on the eighth rank.
pub proof fn lemma_castlings_generated(b: Board)
    requires
        has_king(b),
    ensures
        ({
            let mb = b.mailbox@;
            let cr = b.castling_rights.0;
            let ks = king_square(b);
            let pl = pseudo_legal_moves(b);
            &&& b.active_color == Color::White && ks == 4 && cr & 1 != 0 && mb[5] is None && mb[6] is None
                ==> pl.contains(Move::made(4, 6, MoveFlag::KingCastle))
            &&& b.active_color == Color::White && ks == 4 && cr & 2 != 0 && mb[1] is None && mb[2] is None && mb[3] is None
                ==> pl.contains(Move::made(4, 2, MoveFlag::QueenCastle))
            &&& b.active_color == Color::Black && ks == 60 && cr & 4 != 0 && mb[61] is None && mb[62] is None
                ==> pl.contains(Move::made(60, 62, MoveFlag::KingCastle))
            &&& b.active_color == Color::Black && ks == 60 && cr & 8 != 0 && mb[57] is None && mb[58] is None && mb[59] is None
                ==> pl.contains(Move::made(60, 58, MoveFlag::QueenCastle))
        }),
{
    let ks = king_square(b);
    let cm = castle_moves(b, ks);
    let a4 = crate::movegen::pawn_moves(b) + piece_moves(b, 1) + piece_moves(b, 2) + piece_moves(b, 3) + piece_moves(b, 4);
    assert(pseudo_legal_moves(b) == a4 + king_moves(b));
    assert forall|m: Move| cm.contains(m) implies pseudo_legal_moves(b).contains(m) by {
        lemma_join_has_right(moves_from(b, 5, ks), cm, m);
        lemma_join_has_right(a4, king_moves(b), m);
    }
    let mb = b.mailbox@;
    let cr = b.castling_rights.0;
    if b.active_color == Color::White && ks == 4 {
        if cr & 1 != 0 && vacant(mb, 5) && vacant(mb, 6) {
            assert(cm[0] == Move::made(4, 6, MoveFlag::KingCastle));
            assert(cm.contains(Move::made(4, 6, MoveFlag::KingCastle)));
        }
        if cr & 2 != 0 && vacant(mb, 1) && vacant(mb, 2) && vacant(mb, 3) {
            assert(cm[cm.len() - 1] == Move::made(4, 2, MoveFlag::QueenCastle));
            assert(cm.contains(Move::made(4, 2, MoveFlag::QueenCastle)));
        }
    }
    if b.active_color == Color::Black && ks == 60 {
        if cr & 4 != 0 && vacant(mb, 61) && vacant(mb, 62) {
            assert(cm[0] == Move::made(60, 62, MoveFlag::KingCastle));
            assert(cm.contains(Move::made(60, 62, MoveFlag::KingCastle)));
        }
        if cr & 8 != 0 && vacant(mb, 57) && vacant(mb, 58) && vacant(mb, 59) {
            assert(cm[cm.len() - 1] == Move::made(60, 58, MoveFlag::QueenCastle));
            assert(cm.contains(Move::made(60, 58, MoveFlag::QueenCastle)));
        }
    }
}

/// The moves of pieces of kind `kind` start on a square holding such a piece
/// of the side to move.
proof fn lemma_piece_moves_origin(b: Board, kind: int, m: Move)
    requires
        piece_moves(b, kind).contains(m),
    ensures
        own(b.mailbox@, m.from_sq() as int, kind, b.active_color),
{
    let mb = b.mailbox@;
    let c = b.active_color;
    let pred = |s: int| own(b.mailbox@, s, kind, b.active_color);
    let f = |from: int| moves_from(b, kind, from);
    lemma_flat_contains(squares_where(pred), f, m);
    let i = choose|i: int| 0 <= i < squares_where(pred).len() && #[trigger] f(squares_where(pred)[i]).contains(m);
    lemma_picked(pred, squares_where(pred), i);
    let from = squares_where(pred)[i];
    let pc = |t: int| crate::movegen::piece_attack(kind, from, b.all_pieces, t) && enemy(mb, t, c);
    let pq = |t: int| crate::movegen::piece_attack(kind, from, b.all_pieces, t) && vacant(mb, t);
    let caps = moves_to(from, squares_where(pc), MoveFlag::Capture);
    let quiet = moves_to(from, squares_where(pq), MoveFlag::QuietMove);
    lemma_join_contains(caps, quiet, m);
    if caps.contains(m) {
        let k = choose|k: int| 0 <= k < caps.len() && caps[k] == m;
        lemma_picked(pc, squares_where(pc), k);
        Move::lemma_made(from as u8, squares_where(pc)[k] as u8, MoveFlag::Capture);
    } else {
        let k = choose|k: int| 0 <= k < quiet.len() && quiet[k] == m;
        lemma_picked(pq, squares_where(pq), k);
        Move::lemma_made(from as u8, squares_where(pq)[k] as u8, MoveFlag::QuietMove);
    }
}

/// Pawn moves onto squares that a test picks start on a pawn of the side to
/// move, when the test puts one there.
proof fn lemma_pawn_flat_origin(b: Board, pred: spec_fn(int) -> bool, f: spec_fn(int) -> Seq<Move>, delta: int, capture: bool, double: bool, m: Move)
    requires
        f == (|t: int| crate::movegen::pawn_target_moves(b.active_color, t, delta, capture, double)),
        forall|t: int| 0 <= t < 64 && #[trigger] pred(t) ==> 0 <= t - delta < 64 && own(b.mailbox@, t - delta, 0, b.active_color),
        crate::movegen::flat(squares_where(pred), f).contains(m),
    ensures
        own(b.mailbox@, m.from_sq() as int, 0, b.active_color),
{
    let froms = squares_where(pred);
    lemma_flat_contains(froms, f, m);
    let i = choose|i: int| 0 <= i < froms.len() && #[trigger] f(froms[i]).contains(m);
    lemma_picked(pred, froms, i);
    let t = froms[i];
    let fr = (t - delta) as u8;
    Move::lemma_made(fr, t as u8, MoveFlag::DoublePawnPush);
    Move::lemma_made(fr, t as u8, MoveFlag::PromoteCaptureN);
    Move::lemma_made(fr, t as u8, MoveFlag::PromoteCaptureB);
    Move::lemma_made(fr, t as u8, MoveFlag::PromoteCaptureR);
    Move::lemma_made(fr, t as u8, MoveFlag::PromoteCaptureQ);
    Move::lemma_made(fr, t as u8, MoveFlag::Capture);
    Move::lemma_made(fr, t as u8, MoveFlag::PromoteN);
    Move::lemma_made(fr, t as u8, MoveFlag::PromoteB);
    Move::lemma_made(fr, t as u8, MoveFlag::PromoteR);
    Move::lemma_made(fr, t as u8, MoveFlag::PromoteQ);
    Move::lemma_made(fr, t as u8, MoveFlag::QuietMove);
    let g = f(t);
    let k = choose|k: int| 0 <= k < g.len() && g[k] == m;
    assert(g[k].from_sq() == t - delta);
}

/// Every generated move of a king steps to a neighbouring square (one rank
/// and one file at most away) as a quiet move or a capture, or castles from
/// its home square (e1 or e8) two files towards a rook.
pub proof fn lemma_king_moves_step(b: Board, m: Move)
    requires
        b.wf(),
        pseudo_legal_moves(b).contains(m),
        b.mailbox@[m.from_sq() as int] == Some(piece_of_kind(5, b.active_color)),
    ensures
        ({
            let f = m.from_sq() as int;
            let t = m.to_sq() as int;
            let home = if b.active_color == Color::White { 4int } else { 60int };
            ||| (m.flag_bits() == 0 || m.flag_bits() == 4) && t != f && -1 <= t / 8 - f / 8 <= 1 && -1 <= t % 8 - f % 8 <= 1
            ||| m.flag_bits() == 2 && f == home && t == home + 2
            ||| m.flag_bits() == 3 && f == home && t == home - 2
        }),
{
    let mb = b.mailbox@;
    let c = b.active_color;
    let fw = crate::movegen::fwd(c);
    let ld = crate::movegen::left_delta(c);
    let rd = crate::movegen::right_delta(c);
    let p1 = |t: int| crate::movegen::push_target(mb, c, t);
    let p2 = |t: int| crate::movegen::double_target(mb, c, t);
    let p3 = |t: int| crate::movegen::capture_target(mb, c, t, ld, 0);
    let p4 = |t: int| crate::movegen::capture_target(mb, c, t, rd, 7);
    let g1 = |t: int| crate::movegen::pawn_target_moves(c, t, fw, false, false);
    let g2 = |t: int| crate::movegen::pawn_target_moves(c, t, 2 * fw, false, true);
    let g3 = |t: int| crate::movegen::pawn_target_moves(c, t, ld, true, false);
    let g4 = |t: int| crate::movegen::pawn_target_moves(c, t, rd, true, false);
    let f1 = crate::movegen::flat(squares_where(p1), g1);
    let f2 = crate::movegen::flat(squares_where(p2), g2);
    let f3 = crate::movegen::flat(squares_where(p3), g3);
    let f4 = crate::movegen::flat(squares_where(p4), g4);
    let e = crate::movegen::en_passant_moves(b);
    let pawns = f1 + f2 + f3 + f4 + e;
    assert(crate::movegen::pawn_moves(b) == pawns);
    let a4 = pawns + piece_moves(b, 1) + piece_moves(b, 2) + piece_moves(b, 3) + piece_moves(b, 4);
    let a3 = pawns + piece_moves(b, 1) + piece_moves(b, 2) + piece_moves(b, 3);
    let a2 = pawns + piece_moves(b, 1) + piece_moves(b, 2);
    let a1 = pawns + piece_moves(b, 1);
    assert(pseudo_legal_moves(b) == a4 + king_moves(b));
    lemma_join_contains(a4, king_moves(b), m);
    if king_moves(b).contains(m) {
        let ks = king_square(b);
        lemma_join_contains(moves_from(b, 5, ks), castle_moves(b, ks), m);
        if moves_from(b, 5, ks).contains(m) {
            let pc = |t: int| crate::movegen::piece_attack(5, ks, b.all_pieces, t) && enemy(mb, t, c);
            let pq = |t: int| crate::movegen::piece_attack(5, ks, b.all_pieces, t) && vacant(mb, t);
            let caps = moves_to(ks, squares_where(pc), MoveFlag::Capture);
            let quiet = moves_to(ks, squares_where(pq), MoveFlag::QuietMove);
            lemma_join_contains(caps, quiet, m);
            if caps.contains(m) {
                let k = choose|k: int| 0 <= k < caps.len() && caps[k] == m;
                lemma_picked(pc, squares_where(pc), k);
                Move::lemma_made(ks as u8, squares_where(pc)[k] as u8, MoveFlag::Capture);
            } else {
                let k = choose|k: int| 0 <= k < quiet.len() && quiet[k] == m;
                lemma_picked(pq, squares_where(pq), k);
                Move::lemma_made(ks as u8, squares_where(pq)[k] as u8, MoveFlag::QuietMove);
            }
        } else {
            Move::lemma_made(4, 6, MoveFlag::KingCastle);
            Move::lemma_made(4, 2, MoveFlag::QueenCastle);
            Move::lemma_made(60, 62, MoveFlag::KingCastle);
            Move::lemma_made(60, 58, MoveFlag::QueenCastle);
            let cm = castle_moves(b, ks);
            let k = choose|k: int| 0 <= k < cm.len() && cm[k] == m;
            if c == Color::White {
                assert(m == Move::made(4, 6, MoveFlag::KingCastle) || m == Move::made(4, 2, MoveFlag::QueenCastle));
            } else {
                assert(m == Move::made(60, 62, MoveFlag::KingCastle) || m == Move::made(60, 58, MoveFlag::QueenCastle));
            }
        }
        return;
    }
    lemma_join_contains(a3, piece_moves(b, 4), m);
    if piece_moves(b, 4).contains(m) {
        lemma_piece_moves_origin(b, 4, m);
        return;
    }
    lemma_join_contains(a2, piece_moves(b, 3), m);
    if piece_moves(b, 3).contains(m) {
        lemma_piece_moves_origin(b, 3, m);
        return;
    }
    lemma_join_contains(a1, piece_moves(b, 2), m);
    if piece_moves(b, 2).contains(m) {
        lemma_piece_moves_origin(b, 2, m);
        return;
    }
    lemma_join_contains(pawns, piece_moves(b, 1), m);
    if piece_moves(b, 1).contains(m) {
        lemma_piece_moves_origin(b, 1, m);
        return;
    }
    lemma_join_contains(f1 + f2 + f3 + f4, e, m);
    if e.contains(m) {
        let ep = b.en_passant_square->0;
        let src = |s: int| crate::movegen::en_passant_source(c, ep as int, s) && own(mb, s, 0, c);
        let k = choose|k: int| 0 <= k < e.len() && e[k] == m;
        lemma_picked(src, squares_where(src), k);
        Move::lemma_made(squares_where(src)[k] as u8, ep, MoveFlag::EnPassant);
        return;
    }
    lemma_join_contains(f1 + f2 + f3, f4, m);
    if f4.contains(m) {
        lemma_pawn_flat_origin(b, p4, g4, rd, true, false, m);
        return;
    }
    lemma_join_contains(f1 + f2, f3, m);
    if f3.contains(m) {
        lemma_pawn_flat_origin(b, p3, g3, ld, true, false, m);
        return;
    }
    lemma_join_contains(f1, f2, m);
    if f1.contains(m) {
        lemma_pawn_flat_origin(b, p1, g1, fw, false, false, m);
        return;
    }
    lemma_pawn_flat_origin(b, p2, g2, 2 * fw, false, true, m);
}

} // verus!
