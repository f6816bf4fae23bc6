use vstd::prelude::*;
use crate::bitboard::{has_bit, popcount, sq_bit, count_squares, scale, square_at, on_board};
use crate::zobrist::ZobristTable;
use crate::tables::Tables;
use crate::attacks::{knight_attack, king_attack, white_pawn_attack, black_pawn_attack};
use crate::magic_bitboard::{bishop_attack, rook_attack, BISHOP_MASKS, ROOK_MASKS, get_bishop_attacks_mask, get_rook_attacks_mask};
use crate::mv::{Move, MoveFlag};
use crate::bitboard::{castling_mask, lowest_square, lemma_and_nonzero, lemma_popcount_set, lemma_popcount_clear, lemma_xor_facts, lemma_has_bit_or, lemma_has_bit_and, lemma_has_bit_not, lemma_has_bit_single};

verus! {

/// The squares of the board, a1 first, h8 last.
#[derive(Debug, Clone, Copy, PartialEq, Eq, Structural)]
pub enum Square {
    A1, B1, C1, D1, E1, F1, G1, H1,
    A2, B2, C2, D2, E2, F2, G2, H2,
    A3, B3, C3, D3, E3, F3, G3, H3,
    A4, B4, C4, D4, E4, F4, G4, H4,
    A5, B5, C5, D5, E5, F5, G5, H5,
    A6, B6, C6, D6, E6, F6, G6, H6,
    A7, B7, C7, D7, E7, F7, G7, H7,
    A8, B8, C8, D8, E8, F8, G8, H8
}

pub open spec fn square_index(s: Square) -> u8 {
    match s {
        Square::A1 => 0,
        Square::B1 => 1,
        Square::C1 => 2,
        Square::D1 => 3,
        Square::E1 => 4,
        Square::F1 => 5,
        Square::G1 => 6,
        Square::H1 => 7,
        Square::A2 => 8,
        Square::B2 => 9,
        Square::C2 => 10,
        Square::D2 => 11,
        Square::E2 => 12,
        Square::F2 => 13,
        Square::G2 => 14,
        Square::H2 => 15,
        Square::A3 => 16,
        Square::B3 => 17,
        Square::C3 => 18,
        Square::D3 => 19,
        Square::E3 => 20,
        Square::F3 => 21,
        Square::G3 => 22,
        Square::H3 => 23,
        Square::A4 => 24,
        Square::B4 => 25,
        Square::C4 => 26,
        Square::D4 => 27,
        Square::E4 => 28,
        Square::F4 => 29,
        Square::G4 => 30,
        Square::H4 => 31,
        Square::A5 => 32,
        Square::B5 => 33,
        Square::C5 => 34,
        Square::D5 => 35,
        Square::E5 => 36,
        Square::F5 => 37,
        Square::G5 => 38,
        Square::H5 => 39,
        Square::A6 => 40,
        Square::B6 => 41,
        Square::C6 => 42,
        Square::D6 => 43,
        Square::E6 => 44,
        Square::F6 => 45,
        Square::G6 => 46,
        Square::H6 => 47,
        Square::A7 => 48,
        Square::B7 => 49,
        Square::C7 => 50,
        Square::D7 => 51,
        Square::E7 => 52,
        Square::F7 => 53,
        Square::G7 => 54,
        Square::H7 => 55,
        Square::A8 => 56,
        Square::B8 => 57,
        Square::C8 => 58,
        Square::D8 => 59,
        Square::E8 => 60,
        Square::F8 => 61,
        Square::G8 => 62,
        Square::H8 => 63,
    }
}

impl Square {
    /// Number of the square, 0 for a1 to 63 for h8.
    pub fn index(self) -> (r: u8)
        ensures
            r == square_index(self),
            r < 64,
    {
        match self {
            Square::A1 => 0,
            Square::B1 => 1,
            Square::C1 => 2,
            Square::D1 => 3,
            Square::E1 => 4,
            Square::F1 => 5,
            Square::G1 => 6,
            Square::H1 => 7,
            Square::A2 => 8,
            Square::B2 => 9,
            Square::C2 => 10,
            Square::D2 => 11,
            Square::E2 => 12,
            Square::F2 => 13,
            Square::G2 => 14,
            Square::H2 => 15,
            Square::A3 => 16,
            Square::B3 => 17,
            Square::C3 => 18,
            Square::D3 => 19,
            Square::E3 => 20,
            Square::F3 => 21,
            Square::G3 => 22,
            Square::H3 => 23,
            Square::A4 => 24,
            Square::B4 => 25,
            Square::C4 => 26,
            Square::D4 => 27,
            Square::E4 => 28,
            Square::F4 => 29,
            Square::G4 => 30,
            Square::H4 => 31,
            Square::A5 => 32,
            Square::B5 => 33,
            Square::C5 => 34,
            Square::D5 => 35,
            Square::E5 => 36,
            Square::F5 => 37,
            Square::G5 => 38,
            Square::H5 => 39,
            Square::A6 => 40,
            Square::B6 => 41,
            Square::C6 => 42,
            Square::D6 => 43,
            Square::E6 => 44,
            Square::F6 => 45,
            Square::G6 => 46,
            Square::H6 => 47,
            Square::A7 => 48,
            Square::B7 => 49,
            Square::C7 => 50,
            Square::D7 => 51,
            Square::E7 => 52,
            Square::F7 => 53,
            Square::G7 => 54,
            Square::H7 => 55,
            Square::A8 => 56,
            Square::B8 => 57,
            Square::C8 => 58,
            Square::D8 => 59,
            Square::E8 => 60,
            Square::F8 => 61,
            Square::G8 => 62,
            Square::H8 => 63,
        }
    }
}

/// The twelve pieces; white pieces come first, then black ones, each in the
/// order pawn, knight, bishop, rook, queen, king.
#[derive(Debug, Clone, Copy, PartialEq, Eq, Structural)]
pub enum Piece {
    WhitePawn,
    WhiteKnight,
    WhiteBishop,
    WhiteRook,
    WhiteQueen,
    WhiteKing,
    BlackPawn,
    BlackKnight,
    BlackBishop,
    BlackRook,
    BlackQueen,
    BlackKing,
}

#[derive(Debug, Clone, Copy, PartialEq, Eq, Structural)]
pub enum Color {
    White,
    Black,
}

/// Index of a piece among the twelve piece bitboards.
pub open spec fn piece_index(p: Piece) -> int {
    match p {
        Piece::WhitePawn => 0,
        Piece::WhiteKnight => 1,
        Piece::WhiteBishop => 2,
        Piece::WhiteRook => 3,
        Piece::WhiteQueen => 4,
        Piece::WhiteKing => 5,
        Piece::BlackPawn => 6,
        Piece::BlackKnight => 7,
        Piece::BlackBishop => 8,
        Piece::BlackRook => 9,
        Piece::BlackQueen => 10,
        Piece::BlackKing => 11,
    }
}

/// The piece with an index.
pub open spec fn piece_of(i: int) -> Piece {
    if i < 0 {
        Piece::WhitePawn
    } else if i == 0 {
        Piece::WhitePawn
    } else if i == 1 {
        Piece::WhiteKnight
    } else if i == 2 {
        Piece::WhiteBishop
    } else if i == 3 {
        Piece::WhiteRook
    } else if i == 4 {
        Piece::WhiteQueen
    } else if i == 5 {
        Piece::WhiteKing
    } else if i == 6 {
        Piece::BlackPawn
    } else if i == 7 {
        Piece::BlackKnight
    } else if i == 8 {
        Piece::BlackBishop
    } else if i == 9 {
        Piece::BlackRook
    } else if i == 10 {
        Piece::BlackQueen
    } else {
        Piece::BlackKing
    }
}

pub open spec fn color_of(p: Piece) -> Color {
    if piece_index(p) < 6 {
        Color::White
    } else {
        Color::Black
    }
}

pub open spec fn opposite(c: Color) -> Color {
    match c {
        Color::White => Color::Black,
        Color::Black => Color::White,
    }
}

/// Kind of a piece: 0 pawn, 1 knight, 2 bishop, 3 rook, 4 queen, 5 king.
pub open spec fn kind_of(p: Piece) -> int {
    piece_index(p) % 6
}

/// The piece of a kind and a color.
pub open spec fn piece_of_kind(kind: int, c: Color) -> Piece {
    match c {
        Color::White => piece_of(kind),
        Color::Black => piece_of(kind + 6),
    }
}

/// Weight of a piece in the game phase: minor pieces 1, rooks 2, queens 4.
pub open spec fn phase_weight(p: Piece) -> u8 {
    let k = kind_of(p);
    if k == 1 || k == 2 {
        1
    } else if k == 3 {
        2
    } else if k == 4 {
        4
    } else {
        0
    }
}

/// Value of a piece for ordering captures.
pub open spec fn piece_value(p: Piece) -> i32 {
    let k = kind_of(p);
    if k == 0 {
        100
    } else if k == 1 || k == 2 {
        300
    } else if k == 3 {
        500
    } else if k == 4 {
        900
    } else {
        0
    }
}

/// Letter of a piece in FEN: upper case for white, lower case for black.
pub open spec fn piece_char(p: Piece) -> char {
    match p {
        Piece::WhitePawn => 'P',
        Piece::WhiteKnight => 'N',
        Piece::WhiteBishop => 'B',
        Piece::WhiteRook => 'R',
        Piece::WhiteQueen => 'Q',
        Piece::WhiteKing => 'K',
        Piece::BlackPawn => 'p',
        Piece::BlackKnight => 'n',
        Piece::BlackBishop => 'b',
        Piece::BlackRook => 'r',
        Piece::BlackQueen => 'q',
        Piece::BlackKing => 'k',
    }
}

/// The piece that a FEN letter names.
pub open spec fn char_piece(c: char) -> Option<Piece> {
    match c {
        'P' => Some(Piece::WhitePawn),
        'N' => Some(Piece::WhiteKnight),
        'B' => Some(Piece::WhiteBishop),
        'R' => Some(Piece::WhiteRook),
        'Q' => Some(Piece::WhiteQueen),
        'K' => Some(Piece::WhiteKing),
        'p' => Some(Piece::BlackPawn),
        'n' => Some(Piece::BlackKnight),
        'b' => Some(Piece::BlackBishop),
        'r' => Some(Piece::BlackRook),
        'q' => Some(Piece::BlackQueen),
        'k' => Some(Piece::BlackKing),
        _ => None,
    }
}

pub proof fn lemma_piece_index(p: Piece)
    ensures
        0 <= piece_index(p) < 12,
        piece_of(piece_index(p)) == p,
{
}

pub proof fn lemma_piece_of(i: int)
    requires
        0 <= i < 12,
    ensures
        piece_index(piece_of(i)) == i,
{
}

impl Piece {
    pub const PAWN_PHASE_VALUE: u8 = 0;
    pub const KNIGHT_PHASE_VALUE: u8 = 1;
    pub const BISHOP_PHASE_VALUE: u8 = 1;
    pub const ROOK_PHASE_VALUE: u8 = 2;
    pub const QUEEN_PHASE_VALUE: u8 = 4;
    pub const KING_PHASE_VALUE: u8 = 0;

    /// Index of the piece's bitboard.
    pub fn index(self) -> (r: usize)
        ensures
            r == piece_index(self),
            r < 12,
    {
        match self {
            Piece::WhitePawn => 0,
            Piece::WhiteKnight => 1,
            Piece::WhiteBishop => 2,
            Piece::WhiteRook => 3,
            Piece::WhiteQueen => 4,
            Piece::WhiteKing => 5,
            Piece::BlackPawn => 6,
            Piece::BlackKnight => 7,
            Piece::BlackBishop => 8,
            Piece::BlackRook => 9,
            Piece::BlackQueen => 10,
            Piece::BlackKing => 11,
        }
    }

    /// The piece with a bitboard index; an error past the twelve pieces.
    pub fn try_from(value: usize) -> (r: Result<Piece, &'static str>)
        ensures
            value < 12 ==> r == Ok::<Piece, &'static str>(piece_of(value as int)),
            value >= 12 ==> r == Err::<Piece, &'static str>("index out of bounds for Piece enum"),
    {
        let piece = match value {
            0 => Piece::WhitePawn,
            1 => Piece::WhiteKnight,
            2 => Piece::WhiteBishop,
            3 => Piece::WhiteRook,
            4 => Piece::WhiteQueen,
            5 => Piece::WhiteKing,
            6 => Piece::BlackPawn,
            7 => Piece::BlackKnight,
            8 => Piece::BlackBishop,
            9 => Piece::BlackRook,
            10 => Piece::BlackQueen,
            11 => Piece::BlackKing,
            _ => return Err("index out of bounds for Piece enum"),
        };
        Ok(piece)
    }

    pub fn from_char(c: char) -> (r: Result<Piece, &'static str>)
        ensures
            r == (match char_piece(c) {
                Some(p) => Ok::<Piece, &'static str>(p),
                None => Err::<Piece, &'static str>("invalid piece char"),
            }),
    {
        let piece = match c {
            'P' => Piece::WhitePawn,
            'N' => Piece::WhiteKnight,
            'B' => Piece::WhiteBishop,
            'R' => Piece::WhiteRook,
            'Q' => Piece::WhiteQueen,
            'K' => Piece::WhiteKing,
            'p' => Piece::BlackPawn,
            'n' => Piece::BlackKnight,
            'b' => Piece::BlackBishop,
            'r' => Piece::BlackRook,
            'q' => Piece::BlackQueen,
            'k' => Piece::BlackKing,
            _ => return Err("invalid piece char"),
        };
        Ok(piece)
    }

    pub fn to_char(piece: Piece) -> (c: char)
        ensures
            c == piece_char(piece),
    {
        match piece {
            Piece::WhitePawn => 'P',
            Piece::WhiteKnight => 'N',
            Piece::WhiteBishop => 'B',
            Piece::WhiteRook => 'R',
            Piece::WhiteQueen => 'Q',
            Piece::WhiteKing => 'K',
            Piece::BlackPawn => 'p',
            Piece::BlackKnight => 'n',
            Piece::BlackBishop => 'b',
            Piece::BlackRook => 'r',
            Piece::BlackQueen => 'q',
            Piece::BlackKing => 'k',
        }
    }

    pub fn get_phase_value(piece: Piece) -> (v: u8)
        ensures
            v == phase_weight(piece),
    {
        match piece {
            Piece::WhitePawn | Piece::BlackPawn => Self::PAWN_PHASE_VALUE,
            Piece::WhiteKnight | Piece::BlackKnight => Self::KNIGHT_PHASE_VALUE,
            Piece::WhiteBishop | Piece::BlackBishop => Self::BISHOP_PHASE_VALUE,
            Piece::WhiteRook | Piece::BlackRook => Self::ROOK_PHASE_VALUE,
            Piece::WhiteQueen | Piece::BlackQueen => Self::QUEEN_PHASE_VALUE,
            Piece::WhiteKing | Piece::BlackKing => Self::KING_PHASE_VALUE,
        }
    }

    /// Value of the piece for ordering captures: pawn 100, knight 300,
    /// bishop 300, rook 500, queen 900, king 0.
    pub fn get_value(&self) -> (v: i32)
        ensures
            v == piece_value(*self),
    {
        match self {
            Piece::WhitePawn | Piece::BlackPawn => 100,
            Piece::WhiteKnight | Piece::BlackKnight => 300,
            Piece::WhiteBishop | Piece::BlackBishop => 300,
            Piece::WhiteRook | Piece::BlackRook => 500,
            Piece::WhiteQueen | Piece::BlackQueen => 900,
            Piece::WhiteKing | Piece::BlackKing => 0,
        }
    }

    pub fn get_color(&self) -> (c: Color)
        ensures
            c == color_of(*self),
    {
        if self.index() < 6 {
            Color::White
        } else {
            Color::Black
        }
    }
}

impl Color {
    /// The other color.
    pub fn not(self) -> (c: Color)
        ensures
            c == opposite(self),
    {
        match self {
            Color::White => Color::Black,
            Color::Black => Color::White,
        }
    }
}

/// Castling rights as four bits: 1 white kingside, 2 white queenside,
/// 4 black kingside, 8 black queenside.
#[derive(Debug, Clone, Copy)]
pub struct CastlingRights(pub u8);


impl CastlingRights {
    pub const WHITE_KINGSIDE: u8 = 1;
    pub const WHITE_QUEENSIDE: u8 = 2;
    pub const BLACK_KINGSIDE: u8 = 4;
    pub const BLACK_QUEENSIDE: u8 = 8;

    pub fn has(&self, mask: u8) -> (r: bool)
        ensures
            r == (self.0 & mask != 0),
    {
        self.0 & mask != 0
    }

    pub fn put(&mut self, mask: u8)
        ensures
            final(self).0 == old(self).0 | mask,
    {
        self.0 |= mask;
    }

    pub fn remove(&mut self, mask: u8)
        ensures
            final(self).0 == old(self).0 & !mask,
    {
        self.0 &= !mask;
    }
}

/// A right that was put is held, one that was removed is not, and rights
/// of other bits are left as they were.
pub proof fn lemma_rights_put_remove(rights: u8, mask: u8, other: u8)
    by (bit_vector)
    ensures
        mask != 0 ==> (rights | mask) & mask != 0,
        (rights & !mask) & mask == 0,
        other & mask == 0 ==> (rights | mask) & other == rights & other,
        other & mask == 0 ==> (rights & !mask) & other == rights & other,
{
}

/// Number of earlier hash keys the board remembers.
pub const HISTORY_SIZE: usize = 1024;

/// A chess position: twelve piece bitboards, a square-by-square mailbox, the
/// colour bitboards, and the game state.
#[derive(Debug)]
pub struct Board {
    /// Bitboards by piece: white pawn, knight, bishop, rook, queen, king at
    /// indices 0-5, black ones at 6-11.
    pub pieces: [u64; 12],
    /// The piece on each square.
    pub mailbox: [Option<Piece>; 64],
    /// Earlier hash keys.
    pub history: [u64; HISTORY_SIZE],
    pub history_ply: usize,
    /// Zobrist hash key of the position.
    pub hash_key: u64,
    pub white_pieces: u64,
    pub black_pieces: u64,
    pub all_pieces: u64,
    pub en_passant_square: Option<u8>,
    pub half_move_clock: u8,
    pub phase_value: u8,
    pub castling_rights: CastlingRights,
    pub active_color: Color,
}

/// What a move cannot recompute when it is taken back.
pub struct UnMove {
    pub captured_piece: Option<Piece>,
    pub castling_rights: CastlingRights,
    pub en_passant_square: Option<u8>,
    pub half_move_clock: u8,
}

/// The position a board stands for.
pub struct Position {
    pub mailbox: Seq<Option<Piece>>,
    pub castling: u8,
    pub en_passant: Option<u8>,
    pub half_move_clock: u8,
    pub active_color: Color,
}

impl View for Board {
    type V = Position;

    open spec fn view(&self) -> Position {
        Position {
            mailbox: self.mailbox@,
            castling: self.castling_rights.0,
            en_passant: self.en_passant_square,
            half_move_clock: self.half_move_clock,
            active_color: self.active_color,
        }
    }
}

/// Each piece bitboard holds exactly the squares where the mailbox has that
/// piece.
pub open spec fn pieces_match(pieces: [u64; 12], mailbox: Seq<Option<Piece>>) -> bool {
    forall|i: int, s: int|
        0 <= i < 12 && 0 <= s < 64 ==> #[trigger] has_bit(pieces[i], s) == (mailbox[s] == Some(
            piece_of(i),
        ))
}

/// A bitboard holds exactly the squares with a piece of colour `c`.
pub open spec fn color_bits_match(bb: u64, mailbox: Seq<Option<Piece>>, c: Color) -> bool {
    forall|s: int|
        0 <= s < 64 ==> #[trigger] has_bit(bb, s) == (mailbox[s] matches Some(p) && color_of(p)
            == c)
}

/// A bitboard holds exactly the occupied squares.
pub open spec fn occupied_match(bb: u64, mailbox: Seq<Option<Piece>>) -> bool {
    forall|s: int| 0 <= s < 64 ==> #[trigger] has_bit(bb, s) == (mailbox[s] is Some)
}

/// Game phase of a set of piece bitboards: minor pieces count 1, rooks 2,
/// queens 4.
pub open spec fn phase_of(pieces: [u64; 12]) -> nat {
    popcount(pieces[1]) + popcount(pieces[2]) + 2 * popcount(pieces[3]) + 4 * popcount(pieces[4])
        + popcount(pieces[7]) + popcount(pieces[8]) + 2 * popcount(pieces[9]) + 4 * popcount(
        pieces[10],
    )
}

/// Hash key of the piece on a square, 0 for an empty square.
pub open spec fn square_key(z: ZobristTable, v: Option<Piece>, s: int) -> u64 {
    match v {
        None => 0,
        Some(p) => z.piece_square[piece_index(p)][s],
    }
}

/// Exclusive or of the keys of the pieces on the first `n` squares.
pub open spec fn pieces_hash(z: ZobristTable, mailbox: Seq<Option<Piece>>, n: int) -> u64
    decreases n,
{
    if n <= 0 {
        0
    } else {
        pieces_hash(z, mailbox, n - 1) ^ square_key(z, mailbox[n - 1], n - 1)
    }
}

/// Key of the en passant file, 0 without an en passant square.
pub open spec fn en_passant_key(z: ZobristTable, ep: Option<u8>) -> u64 {
    match ep {
        Some(e) => z.en_passant[(e % 8) as int],
        None => 0,
    }
}

/// Key of the side to move: the side key when white moves, 0 otherwise.
pub open spec fn color_key(z: ZobristTable, c: Color) -> u64 {
    if c == Color::White {
        z.active_color
    } else {
        0
    }
}

/// Zobrist hash key of a position.
pub open spec fn position_hash(z: ZobristTable, pos: Position) -> u64 {
    pieces_hash(z, pos.mailbox, 64) ^ z.castling_rights[pos.castling as int] ^ en_passant_key(
        z,
        pos.en_passant,
    ) ^ color_key(z, pos.active_color)
}

impl Board {
    /// The board's bitboards and counters agree with its mailbox.
    pub open spec fn wf(&self) -> bool {
        &&& pieces_match(self.pieces, self.mailbox@)
        &&& color_bits_match(self.white_pieces, self.mailbox@, Color::White)
        &&& color_bits_match(self.black_pieces, self.mailbox@, Color::Black)
        &&& occupied_match(self.all_pieces, self.mailbox@)
        &&& self.castling_rights.0 < 16
        &&& (self.en_passant_square matches Some(e) ==> e < 64)
        &&& self.phase_value == phase_of(self.pieces)
    }

    /// The hash key is the Zobrist key of the position.
    pub open spec fn hash_ok(&self, z: ZobristTable) -> bool {
        self.hash_key == position_hash(z, self@)
    }

    /// The fields that piece edits leave alone are equal.
    pub open spec fn same_state(&self, other: &Board) -> bool {
        &&& self.history == other.history
        &&& self.history_ply == other.history_ply
        &&& self.white_pieces == other.white_pieces
        &&& self.black_pieces == other.black_pieces
        &&& self.all_pieces == other.all_pieces
        &&& self.en_passant_square == other.en_passant_square
        &&& self.half_move_clock == other.half_move_clock
        &&& self.phase_value == other.phase_value
        &&& self.castling_rights == other.castling_rights
        &&& self.active_color == other.active_color
    }

    /// The fields that piece edits leave alone, but for the phase, are equal.
    pub open spec fn same_state_but_phase(&self, other: &Board) -> bool {
        &&& self.history == other.history
        &&& self.history_ply == other.history_ply
        &&& self.white_pieces == other.white_pieces
        &&& self.black_pieces == other.black_pieces
        &&& self.all_pieces == other.all_pieces
        &&& self.en_passant_square == other.en_passant_square
        &&& self.half_move_clock == other.half_move_clock
        &&& self.castling_rights == other.castling_rights
        &&& self.active_color == other.active_color
    }

    /// The empty board that `new` makes.
    pub open spec fn is_empty_board(&self) -> bool {
        &&& forall|i: int| 0 <= i < 12 ==> #[trigger] self.pieces[i] == 0
        &&& forall|s: int| 0 <= s < 64 ==> #[trigger] self.mailbox@[s] is None
        &&& self.history_ply == 0
        &&& self.hash_key == 0
        &&& self.white_pieces == 0
        &&& self.black_pieces == 0
        &&& self.all_pieces == 0
        &&& self.en_passant_square is None
        &&& self.half_move_clock == 0
        &&& self.phase_value == 0
        &&& self.castling_rights.0 == 0
        &&& self.active_color == Color::White
    }

    pub fn new() -> (b: Board)
        ensures
            b.is_empty_board(),
            b.wf(),
    {
        let b = Board {
            pieces: [0u64; 12],
            mailbox: [None; 64],
            history: [0u64; 1024],
            history_ply: 0,
            hash_key: 0,
            white_pieces: 0,
            black_pieces: 0,
            all_pieces: 0,
            en_passant_square: None,
            half_move_clock: 0,
            active_color: Color::White,
            phase_value: 0,
            castling_rights: CastlingRights(0),
        };
        proof {
            crate::bitboard::lemma_popcount_bound(0);
            assert forall|i: int, s: int| 0 <= i < 12 && 0 <= s < 64 implies #[trigger] has_bit(b.pieces[i], s) == (b.mailbox@[s] == Some(piece_of(i))) by {
                crate::bitboard::lemma_has_bit_zero(s);
            }
            assert forall|s: int| 0 <= s < 64 implies #[trigger] has_bit(0u64, s) == false by {
                crate::bitboard::lemma_has_bit_zero(s);
            }
        }
        b
    }

    pub fn reset(&mut self)
        ensures
            final(self).is_empty_board(),
            final(self).wf(),
    {
        *self = Self::new();
    }

    pub(crate) fn set_piece_bit(&mut self, piece: Piece, square: u8)
        requires
            square < 64,
        ensures
            final(self).pieces@ == old(self).pieces@.update(piece_index(piece), old(self).pieces[piece_index(piece)] | sq_bit(square as int)),
            final(self).mailbox == old(self).mailbox,
            final(self).hash_key == old(self).hash_key,
            final(self).same_state(old(self)),
    {
        let i = piece.index();
        self.pieces[i] = self.pieces[i] | (1u64 << square);
    }

    fn clear_piece_bit(&mut self, piece: Piece, square: u8)
        requires
            square < 64,
        ensures
            final(self).pieces@ == old(self).pieces@.update(piece_index(piece), old(self).pieces[piece_index(piece)] & !sq_bit(square as int)),
            final(self).mailbox == old(self).mailbox,
            final(self).hash_key == old(self).hash_key,
            final(self).same_state(old(self)),
    {
        let i = piece.index();
        self.pieces[i] = self.pieces[i] & !(1u64 << square);
    }

    fn put_piece(&mut self, z: &ZobristTable, piece: Piece, square: u8)
        requires
            square < 64,
        ensures
            final(self).pieces@ == old(self).pieces@.update(piece_index(piece), old(self).pieces[piece_index(piece)] | sq_bit(square as int)),
            final(self).mailbox@ == old(self).mailbox@.update(square as int, Some(piece)),
            final(self).hash_key == old(self).hash_key ^ z.piece_square[piece_index(piece)][square as int],
            final(self).same_state(old(self)),
            old(self).mailbox@[square as int] is None ==> final(self).hash_key ^ pieces_hash(*z, final(self).mailbox@, 64) == old(self).hash_key ^ pieces_hash(*z, old(self).mailbox@, 64),
            old(self).mailbox@[square as int] is None && pieces_match(old(self).pieces, old(self).mailbox@) ==> pieces_match(final(self).pieces, final(self).mailbox@) && phase_of(final(self).pieces) == phase_of(old(self).pieces) + phase_weight(piece),
    {
        proof {
            lemma_pieces_hash_update(*z, self.mailbox@, square as int, Some(piece), 64);
            let h = self.hash_key;
            let k = z.piece_square[piece_index(piece)][square as int];
            let a = pieces_hash(*z, self.mailbox@, 64);
            lemma_xor_cancel(h, k, a);
        }
        let ghost old_pieces = self.pieces;
        let ghost old_mb = self.mailbox@;
        self.set_piece_bit(piece, square);
        self.mailbox[square as usize] = Some(piece);
        self.hash_key ^= z.piece_square[piece.index()][square as usize];
        proof {
            if old_mb[square as int] is None && pieces_match(old_pieces, old_mb) {
                lemma_put_match(old_pieces, self.pieces, old_mb, piece, square as int);
            }
        }
    }

    fn remove_piece(&mut self, z: &ZobristTable, piece: Piece, square: u8)
        requires
            square < 64,
        ensures
            final(self).pieces@ == old(self).pieces@.update(piece_index(piece), old(self).pieces[piece_index(piece)] & !sq_bit(square as int)),
            final(self).mailbox@ == old(self).mailbox@.update(square as int, None),
            final(self).hash_key == old(self).hash_key ^ z.piece_square[piece_index(piece)][square as int],
            final(self).same_state(old(self)),
            old(self).mailbox@[square as int] == Some(piece) ==> final(self).hash_key ^ pieces_hash(*z, final(self).mailbox@, 64) == old(self).hash_key ^ pieces_hash(*z, old(self).mailbox@, 64),
            old(self).mailbox@[square as int] == Some(piece) && pieces_match(old(self).pieces, old(self).mailbox@) ==> pieces_match(final(self).pieces, final(self).mailbox@) && phase_of(final(self).pieces) + phase_weight(piece) == phase_of(old(self).pieces),
    {
        proof {
            lemma_pieces_hash_update(*z, self.mailbox@, square as int, None, 64);
            let h = self.hash_key;
            let k = z.piece_square[piece_index(piece)][square as int];
            let a = pieces_hash(*z, self.mailbox@, 64);
            lemma_xor_cancel(h, k, a);
        }
        let ghost old_pieces = self.pieces;
        let ghost old_mb = self.mailbox@;
        self.clear_piece_bit(piece, square);
        self.mailbox[square as usize] = None;
        self.hash_key ^= z.piece_square[piece.index()][square as usize];
        proof {
            if old_mb[square as int] == Some(piece) && pieces_match(old_pieces, old_mb) {
                lemma_remove_match(old_pieces, self.pieces, old_mb, piece, square as int);
            }
        }
    }

    pub(crate) fn get_piece(&self, square: u8) -> (r: Option<Piece>)
        requires
            square < 64,
        ensures
            r == self.mailbox@[square as int],
    {
        self.mailbox[square as usize]
    }

    pub(crate) fn set_general_bitboards(&mut self)
        ensures
            final(self).white_pieces == old(self).pieces[0] | old(self).pieces[1] | old(self).pieces[2] | old(self).pieces[3] | old(self).pieces[4] | old(self).pieces[5],
            final(self).black_pieces == old(self).pieces[6] | old(self).pieces[7] | old(self).pieces[8] | old(self).pieces[9] | old(self).pieces[10] | old(self).pieces[11],
            final(self).all_pieces == final(self).white_pieces | final(self).black_pieces,
            pieces_match(old(self).pieces, old(self).mailbox@) ==> {
                &&& color_bits_match(final(self).white_pieces, old(self).mailbox@, Color::White)
                &&& color_bits_match(final(self).black_pieces, old(self).mailbox@, Color::Black)
                &&& occupied_match(final(self).all_pieces, old(self).mailbox@)
            },
            final(self).pieces == old(self).pieces,
            final(self).mailbox == old(self).mailbox,
            final(self).hash_key == old(self).hash_key,
            final(self).history == old(self).history,
            final(self).history_ply == old(self).history_ply,
            final(self).en_passant_square == old(self).en_passant_square,
            final(self).half_move_clock == old(self).half_move_clock,
            final(self).phase_value == old(self).phase_value,
            final(self).castling_rights == old(self).castling_rights,
            final(self).active_color == old(self).active_color,
    {
        self.white_pieces = self.pieces[0] | self.pieces[1] | self.pieces[2] | self.pieces[3] | self.pieces[4] | self.pieces[5];
        self.black_pieces = self.pieces[6] | self.pieces[7] | self.pieces[8] | self.pieces[9] | self.pieces[10] | self.pieces[11];
        self.all_pieces = self.white_pieces | self.black_pieces;
        proof {
            broadcast use crate::bitboard::group_bits;
            if pieces_match(self.pieces, self.mailbox@) {
                assert forall|s: int| 0 <= s < 64 implies #[trigger] has_bit(self.white_pieces, s) == (self.mailbox@[s] matches Some(p) && color_of(p) == Color::White) by {
                    assert(has_bit(self.pieces[0], s) == (self.mailbox@[s] == Some(piece_of(0))));
                    assert(has_bit(self.pieces[1], s) == (self.mailbox@[s] == Some(piece_of(1))));
                    assert(has_bit(self.pieces[2], s) == (self.mailbox@[s] == Some(piece_of(2))));
                    assert(has_bit(self.pieces[3], s) == (self.mailbox@[s] == Some(piece_of(3))));
                    assert(has_bit(self.pieces[4], s) == (self.mailbox@[s] == Some(piece_of(4))));
                    assert(has_bit(self.pieces[5], s) == (self.mailbox@[s] == Some(piece_of(5))));
                }
                assert forall|s: int| 0 <= s < 64 implies #[trigger] has_bit(self.black_pieces, s) == (self.mailbox@[s] matches Some(p) && color_of(p) == Color::Black) by {
                    assert(has_bit(self.pieces[6], s) == (self.mailbox@[s] == Some(piece_of(6))));
                    assert(has_bit(self.pieces[7], s) == (self.mailbox@[s] == Some(piece_of(7))));
                    assert(has_bit(self.pieces[8], s) == (self.mailbox@[s] == Some(piece_of(8))));
                    assert(has_bit(self.pieces[9], s) == (self.mailbox@[s] == Some(piece_of(9))));
                    assert(has_bit(self.pieces[10], s) == (self.mailbox@[s] == Some(piece_of(10))));
                    assert(has_bit(self.pieces[11], s) == (self.mailbox@[s] == Some(piece_of(11))));
                }
                assert forall|s: int| 0 <= s < 64 implies #[trigger] has_bit(self.all_pieces, s) == (self.mailbox@[s] is Some) by {
                    assert(has_bit(self.white_pieces, s) == (self.mailbox@[s] matches Some(p) && color_of(p) == Color::White));
                    assert(has_bit(self.black_pieces, s) == (self.mailbox@[s] matches Some(p) && color_of(p) == Color::Black));
                }
            }
        }
    }

    fn push_history(&mut self)
        requires
            old(self).history_ply < usize::MAX,
        ensures
            final(self).history@ == old(self).history@.update(old(self).history_ply as int % 1024, old(self).hash_key),
            final(self).history_ply == old(self).history_ply + 1,
            final(self).pieces == old(self).pieces,
            final(self).mailbox == old(self).mailbox,
            final(self).hash_key == old(self).hash_key,
            final(self).white_pieces == old(self).white_pieces,
            final(self).black_pieces == old(self).black_pieces,
            final(self).all_pieces == old(self).all_pieces,
            final(self).en_passant_square == old(self).en_passant_square,
            final(self).half_move_clock == old(self).half_move_clock,
            final(self).phase_value == old(self).phase_value,
            final(self).castling_rights == old(self).castling_rights,
            final(self).active_color == old(self).active_color,
    {
        self.history[self.history_ply % HISTORY_SIZE] = self.hash_key;
        self.history_ply += 1;
    }

    fn pop_history(&mut self) -> (r: u64)
        requires
            old(self).history_ply > 0,
        ensures
            r == old(self).history[(old(self).history_ply - 1) % 1024],
            final(self).history_ply == old(self).history_ply - 1,
            final(self).history == old(self).history,
            final(self).pieces == old(self).pieces,
            final(self).mailbox == old(self).mailbox,
            final(self).hash_key == old(self).hash_key,
            final(self).white_pieces == old(self).white_pieces,
            final(self).black_pieces == old(self).black_pieces,
            final(self).all_pieces == old(self).all_pieces,
            final(self).en_passant_square == old(self).en_passant_square,
            final(self).half_move_clock == old(self).half_move_clock,
            final(self).phase_value == old(self).phase_value,
            final(self).castling_rights == old(self).castling_rights,
            final(self).active_color == old(self).active_color,
    {
        self.history_ply -= 1;
        self.history[self.history_ply % HISTORY_SIZE]
    }
}

/// Index of the piece bitboard of a kind and a colour.
pub open spec fn bb_index(kind: int, c: Color) -> int {
    if c == Color::White {
        kind
    } else {
        kind + 6
    }
}

/// A knight of colour `c` attacks square `sq`.
pub open spec fn knight_threat(pieces: Seq<u64>, sq: int, c: Color) -> bool {
    exists|u: int| knight_attack(sq, u) && #[trigger] has_bit(pieces[bb_index(1, c)], u)
}

/// The king of colour `c` attacks square `sq`.
pub open spec fn king_threat(pieces: Seq<u64>, sq: int, c: Color) -> bool {
    exists|u: int| king_attack(sq, u) && #[trigger] has_bit(pieces[bb_index(5, c)], u)
}

/// A pawn of colour `c` attacks square `sq`.
pub open spec fn pawn_threat(pieces: Seq<u64>, sq: int, c: Color) -> bool {
    exists|u: int|
        (if c == Color::White {
            black_pawn_attack(sq, u)
        } else {
            white_pawn_attack(sq, u)
        }) && #[trigger] has_bit(pieces[bb_index(0, c)], u)
}

/// A bishop or queen of colour `c` attacks square `sq` along a diagonal,
/// with the occupancy `occ`.
pub open spec fn diagonal_threat(pieces: Seq<u64>, occ: u64, sq: int, c: Color) -> bool {
    exists|u: int|
        bishop_attack(sq, BISHOP_MASKS[sq] & occ, u) && (#[trigger] has_bit(
            pieces[bb_index(2, c)],
            u,
        ) || has_bit(pieces[bb_index(4, c)], u))
}

/// A rook or queen of colour `c` attacks square `sq` along a rank or file,
/// with the occupancy `occ`.
pub open spec fn straight_threat(pieces: Seq<u64>, occ: u64, sq: int, c: Color) -> bool {
    exists|u: int|
        rook_attack(sq, ROOK_MASKS[sq] & occ, u) && (#[trigger] has_bit(pieces[bb_index(3, c)], u)
            || has_bit(pieces[bb_index(4, c)], u))
}

/// Square `sq` is attacked by a piece of colour `c`, with the piece
/// bitboards `pieces` and the occupancy `all`; with `xray` the defending king
/// does not block sliding pieces.
pub open spec fn attacked_by(pieces: Seq<u64>, all: u64, sq: int, c: Color, xray: bool) -> bool {
    let occ = if xray {
        all & !pieces[bb_index(5, opposite(c))]
    } else {
        all
    };
    ||| knight_threat(pieces, sq, c)
    ||| king_threat(pieces, sq, c)
    ||| pawn_threat(pieces, sq, c)
    ||| diagonal_threat(pieces, occ, sq, c)
    ||| straight_threat(pieces, occ, sq, c)
}

impl Board {
    #[verifier::spinoff_prover]
    pub fn is_square_attacked_by(&self, tables: &Tables, square: u8, attacking_color: Color, king_xray: bool) -> (r: bool)
        requires
            tables.wf(),
            square < 64,
        ensures
            r == attacked_by(self.pieces@, self.all_pieces, square as int, attacking_color, king_xray),
    {
        let mut occupancy = self.all_pieces;
        let attacking_pawns: u64;
        let attacking_knights: u64;
        let attacking_bishops: u64;
        let attacking_rooks: u64;
        let attacking_queens: u64;
        let attacking_king: u64;
        if attacking_color == Color::White {
            attacking_pawns = self.pieces[0];
            attacking_knights = self.pieces[1];
            attacking_bishops = self.pieces[2];
            attacking_rooks = self.pieces[3];
            attacking_queens = self.pieces[4];
            attacking_king = self.pieces[5];
        } else {
            attacking_pawns = self.pieces[6];
            attacking_knights = self.pieces[7];
            attacking_bishops = self.pieces[8];
            attacking_rooks = self.pieces[9];
            attacking_queens = self.pieces[10];
            attacking_king = self.pieces[11];
        }
        if king_xray {
            let defending_king = if attacking_color == Color::White {
                self.pieces[11]
            } else {
                self.pieces[5]
            };
            occupancy &= !defending_king;
        }
        let ghost sq = square as int;
        let ghost c = attacking_color;
        let ghost pcs = self.pieces@;
        proof {
            assert(occupancy == (if king_xray { self.all_pieces & !pcs[bb_index(5, opposite(c))] } else { self.all_pieces }));
            assert(attacking_knights == pcs[bb_index(1, c)]);
            assert(attacking_king == pcs[bb_index(5, c)]);
            assert(attacking_pawns == pcs[bb_index(0, c)]);
            assert(attacking_bishops == pcs[bb_index(2, c)]);
            assert(attacking_rooks == pcs[bb_index(3, c)]);
            assert(attacking_queens == pcs[bb_index(4, c)]);
        }
        let knight_attacks = tables.attacks.knight[square as usize];
        proof {
            lemma_and_nonzero(knight_attacks, attacking_knights);
            assert(crate::attacks::bits_are(knight_attacks, |t: int| knight_attack(sq, t)));
            assert forall|u: int| knight_attack(sq, u) && #[trigger] has_bit(pcs[bb_index(1, c)], u) implies has_bit(knight_attacks, u) && has_bit(attacking_knights, u) by {}
            if knight_attacks & attacking_knights != 0 {
                let u = choose|u: int| #[trigger] has_bit(knight_attacks, u) && has_bit(attacking_knights, u);
                assert(knight_attack(sq, u) && has_bit(pcs[bb_index(1, c)], u));
            }
            assert(knight_threat(pcs, sq, c) == (knight_attacks & attacking_knights != 0));
        }
        if knight_attacks & attacking_knights != 0 {
            return true;
        }
        let king_attacks = tables.attacks.king[square as usize];
        proof {
            lemma_and_nonzero(king_attacks, attacking_king);
            assert(crate::attacks::bits_are(king_attacks, |t: int| king_attack(sq, t)));
            assert forall|u: int| king_attack(sq, u) && #[trigger] has_bit(pcs[bb_index(5, c)], u) implies has_bit(king_attacks, u) && has_bit(attacking_king, u) by {}
            if king_attacks & attacking_king != 0 {
                let u = choose|u: int| #[trigger] has_bit(king_attacks, u) && has_bit(attacking_king, u);
                assert(king_attack(sq, u) && has_bit(pcs[bb_index(5, c)], u));
            }
            assert(king_threat(pcs, sq, c) == (king_attacks & attacking_king != 0));
        }
        if king_attacks & attacking_king != 0 {
            return true;
        }
        if attacking_color == Color::White {
            let pawn_attacks = tables.attacks.black_pawn[square as usize];
            proof {
                lemma_and_nonzero(pawn_attacks, attacking_pawns);
                assert(crate::attacks::bits_are(pawn_attacks, |t: int| black_pawn_attack(sq, t)));
                assert forall|u: int| black_pawn_attack(sq, u) && #[trigger] has_bit(pcs[bb_index(0, c)], u) implies has_bit(pawn_attacks, u) && has_bit(attacking_pawns, u) by {}
                if pawn_attacks & attacking_pawns != 0 {
                    let u = choose|u: int| #[trigger] has_bit(pawn_attacks, u) && has_bit(attacking_pawns, u);
                    assert(black_pawn_attack(sq, u) && has_bit(pcs[bb_index(0, c)], u));
                }
                assert(pawn_threat(pcs, sq, c) == (pawn_attacks & attacking_pawns != 0));
            }
            if pawn_attacks & attacking_pawns != 0 {
                return true;
            }
        } else {
            let pawn_attacks = tables.attacks.white_pawn[square as usize];
            proof {
                lemma_and_nonzero(pawn_attacks, attacking_pawns);
                assert(crate::attacks::bits_are(pawn_attacks, |t: int| white_pawn_attack(sq, t)));
                assert forall|u: int| white_pawn_attack(sq, u) && #[trigger] has_bit(pcs[bb_index(0, c)], u) implies has_bit(pawn_attacks, u) && has_bit(attacking_pawns, u) by {}
                if pawn_attacks & attacking_pawns != 0 {
                    let u = choose|u: int| #[trigger] has_bit(pawn_attacks, u) && has_bit(attacking_pawns, u);
                    assert(white_pawn_attack(sq, u) && has_bit(pcs[bb_index(0, c)], u));
                }
                assert(pawn_threat(pcs, sq, c) == (pawn_attacks & attacking_pawns != 0));
            }
            if pawn_attacks & attacking_pawns != 0 {
                return true;
            }
        }
        let bishop_attacks = get_bishop_attacks_mask(&tables.magic, occupancy, square);
        proof {
            lemma_and_nonzero(bishop_attacks, attacking_bishops | attacking_queens);
            if bishop_attacks & (attacking_bishops | attacking_queens) != 0 {
                let u = choose|u: int| #[trigger] has_bit(bishop_attacks, u) && has_bit(attacking_bishops | attacking_queens, u);
                crate::bitboard::lemma_has_bit_or(attacking_bishops, attacking_queens, u);
                assert(has_bit(pcs[bb_index(2, c)], u) || has_bit(pcs[bb_index(4, c)], u));
                assert(bishop_attack(sq, BISHOP_MASKS[sq] & occupancy, u));
                assert(has_bit(pcs[bb_index(2, c)], u) ==> has_bit(pcs[bb_index(2, c)], u));
            }
            assert forall|u: int| bishop_attack(sq, BISHOP_MASKS[sq] & occupancy, u) && (#[trigger] has_bit(pcs[bb_index(2, c)], u) || has_bit(pcs[bb_index(4, c)], u))
                implies has_bit(bishop_attacks, u) && has_bit(attacking_bishops | attacking_queens, u) by {
                crate::bitboard::lemma_has_bit_or(attacking_bishops, attacking_queens, u);
            }
            assert(diagonal_threat(pcs, occupancy, sq, c) == (bishop_attacks & (attacking_bishops | attacking_queens) != 0));
        }
        if bishop_attacks & (attacking_bishops | attacking_queens) != 0 {
            return true;
        }
        let rook_attacks = get_rook_attacks_mask(&tables.magic, occupancy, square);
        proof {
            lemma_and_nonzero(rook_attacks, attacking_rooks | attacking_queens);
            if rook_attacks & (attacking_rooks | attacking_queens) != 0 {
                let u = choose|u: int| #[trigger] has_bit(rook_attacks, u) && has_bit(attacking_rooks | attacking_queens, u);
                crate::bitboard::lemma_has_bit_or(attacking_rooks, attacking_queens, u);
                assert(has_bit(pcs[bb_index(3, c)], u) || has_bit(pcs[bb_index(4, c)], u));
                assert(rook_attack(sq, ROOK_MASKS[sq] & occupancy, u));
                assert(has_bit(pcs[bb_index(3, c)], u) ==> has_bit(pcs[bb_index(3, c)], u));
            }
            assert forall|u: int| rook_attack(sq, ROOK_MASKS[sq] & occupancy, u) && (#[trigger] has_bit(pcs[bb_index(3, c)], u) || has_bit(pcs[bb_index(4, c)], u))
                implies has_bit(rook_attacks, u) && has_bit(attacking_rooks | attacking_queens, u) by {
                crate::bitboard::lemma_has_bit_or(attacking_rooks, attacking_queens, u);
            }
            assert(straight_threat(pcs, occupancy, sq, c) == (rook_attacks & (attacking_rooks | attacking_queens) != 0));
        }
        if rook_attacks & (attacking_rooks | attacking_queens) != 0 {
            return true;
        }
        false
    }
}

// ---------------------------------------------------------------------------
// Lemmas on editing one square.
// ---------------------------------------------------------------------------

/// Placing a piece on an empty square keeps the bitboards in step with the
/// mailbox and adds the piece's weight to the phase.
pub proof fn lemma_put_match(old_pieces: [u64; 12], new_pieces: [u64; 12], mb: Seq<Option<Piece>>, piece: Piece, s: int)
    requires
        pieces_match(old_pieces, mb),
        mb.len() == 64,
        0 <= s < 64,
        mb[s] is None,
        new_pieces@ == old_pieces@.update(piece_index(piece), old_pieces[piece_index(piece)] | sq_bit(s)),
    ensures
        pieces_match(new_pieces, mb.update(s, Some(piece))),
        phase_of(new_pieces) == phase_of(old_pieces) + phase_weight(piece),
{
    let i = piece_index(piece);
    lemma_piece_index(piece);
    assert forall|j: int, t: int| 0 <= j < 12 && 0 <= t < 64 implies #[trigger] has_bit(new_pieces[j], t) == (mb.update(s, Some(piece))[t] == Some(piece_of(j))) by {
        assert(has_bit(old_pieces[j], t) == (mb[t] == Some(piece_of(j))));
        if j == i {
            lemma_has_bit_or(old_pieces[i], sq_bit(s), t);
            lemma_has_bit_single(s, t);
        }
        lemma_piece_of(j);
    }
    assert(!has_bit(old_pieces[i], s));
    lemma_popcount_set(old_pieces[i], s);
    assert(new_pieces[i] == old_pieces[i] | sq_bit(s));
    assert forall|j: int| 0 <= j < 12 && j != i implies #[trigger] new_pieces[j] == old_pieces[j] by {}
}

/// Taking a piece off its square keeps the bitboards in step with the
/// mailbox and removes the piece's weight from the phase.
pub proof fn lemma_remove_match(old_pieces: [u64; 12], new_pieces: [u64; 12], mb: Seq<Option<Piece>>, piece: Piece, s: int)
    requires
        pieces_match(old_pieces, mb),
        mb.len() == 64,
        0 <= s < 64,
        mb[s] == Some(piece),
        new_pieces@ == old_pieces@.update(piece_index(piece), old_pieces[piece_index(piece)] & !sq_bit(s)),
    ensures
        pieces_match(new_pieces, mb.update(s, None)),
        phase_of(new_pieces) + phase_weight(piece) == phase_of(old_pieces),
{
    let i = piece_index(piece);
    lemma_piece_index(piece);
    assert forall|j: int, t: int| 0 <= j < 12 && 0 <= t < 64 implies #[trigger] has_bit(new_pieces[j], t) == (mb.update(s, None)[t] == Some(piece_of(j))) by {
        assert(has_bit(old_pieces[j], t) == (mb[t] == Some(piece_of(j))));
        if j == i {
            lemma_has_bit_and(old_pieces[i], !sq_bit(s), t);
            lemma_has_bit_not(sq_bit(s), t);
            lemma_has_bit_single(s, t);
        }
        lemma_piece_of(j);
    }
    assert(has_bit(old_pieces[i], s));
    lemma_popcount_clear(old_pieces[i], s);
    assert(new_pieces[i] == old_pieces[i] & !sq_bit(s));
    assert forall|j: int| 0 <= j < 12 && j != i implies #[trigger] new_pieces[j] == old_pieces[j] by {}
}

/// Changing one square changes the pieces hash by the keys of the old and
/// the new content of that square.
pub proof fn lemma_pieces_hash_update(z: ZobristTable, mb: Seq<Option<Piece>>, s: int, v: Option<Piece>, n: int)
    requires
        0 <= s < 64,
        mb.len() == 64,
        0 <= n <= 64,
    ensures
        pieces_hash(z, mb.update(s, v), n) == if s < n {
            pieces_hash(z, mb, n) ^ square_key(z, mb[s], s) ^ square_key(z, v, s)
        } else {
            pieces_hash(z, mb, n)
        },
    decreases n,
{
    if n > 0 {
        lemma_pieces_hash_update(z, mb, s, v, n - 1);
        let a = pieces_hash(z, mb, n - 1);
        let x = square_key(z, mb[s], s);
        let y = square_key(z, v, s);
        let k = square_key(z, mb[n - 1], n - 1);
        assert((k == x ==> a ^ y == ((a ^ k) ^ x) ^ y) && ((a ^ x) ^ y) ^ k == ((a ^ k) ^ x) ^ y) by (bit_vector);
        if n - 1 == s {
            assert(pieces_hash(z, mb.update(s, v), n) == a ^ y);
        } else if s < n - 1 {
            assert(pieces_hash(z, mb.update(s, v), n) == ((a ^ x) ^ y) ^ k);
        }
    }
}

// ---------------------------------------------------------------------------
// Making and taking back moves.
// ---------------------------------------------------------------------------

/// Capture flags have bit 2 of the flag code set.
pub open spec fn capture_flag(code: u16) -> bool {
    code & 4 != 0
}

/// Promotion flags have bit 3 of the flag code set.
pub open spec fn promotion_flag(code: u16) -> bool {
    code >= 8
}

/// The kind a promotion flag promotes to: knight, bishop, rook, queen.
pub open spec fn promotion_kind(code: u16) -> int {
    (code % 4) as int + 1
}

pub open spec fn castle_flag(code: u16) -> bool {
    code == 2 || code == 3
}

/// The square the rook leaves when castling.
pub open spec fn rook_from(c: Color, code: u16) -> int {
    if c == Color::White {
        if code == 2 { 7 } else { 0 }
    } else {
        if code == 2 { 63 } else { 56 }
    }
}

/// The square the rook reaches when castling; it is also the square the
/// king crosses.
pub open spec fn rook_to(c: Color, code: u16) -> int {
    if c == Color::White {
        if code == 2 { 5 } else { 3 }
    } else {
        if code == 2 { 61 } else { 59 }
    }
}

/// The king's home square.
pub open spec fn king_home(c: Color) -> int {
    if c == Color::White { 4 } else { 60 }
}

/// The square behind `t` as seen by the side `c`: where a double pawn push
/// leaves its en passant square, and where an en passant capture takes.
pub open spec fn behind(c: Color, t: int) -> int {
    if c == Color::White { t - 8 } else { t + 8 }
}

pub broadcast group group_move_squares {
    Move::lemma_squares,
}

/// A move can be made on a position: the moving piece is there, the target
/// square is empty unless the move captures, and the squares that castling,
/// en passant and promotion touch hold what they need.
pub open spec fn move_fits(p: Position, mv: Move) -> bool {
    let f = mv.from_sq() as int;
    let t = mv.to_sq() as int;
    let code = mv.flag_bits();
    let c = p.active_color;
    let mb = p.mailbox;
    &&& mb.len() == 64
    &&& f != t
    &&& mb[f] is Some
    &&& (!capture_flag(code) || code == 5) ==> mb[t] is None
    &&& (code == 1 || code == 5) ==> 0 <= behind(c, t) < 64
    &&& code == 5 ==> mb[behind(c, t)] == Some(piece_of_kind(0, opposite(c))) && behind(c, t) != f
    &&& castle_flag(code) ==> {
        &&& mb[rook_from(c, code)] == Some(piece_of_kind(3, c))
        &&& mb[rook_to(c, code)] is None
        &&& f != rook_from(c, code) && f != rook_to(c, code)
        &&& t != rook_from(c, code) && t != rook_to(c, code)
    }
    &&& promotion_flag(code) ==> mb[f] == Some(piece_of_kind(0, c))
}

/// The piece a move puts on its target square.
pub open spec fn placed_piece(p: Position, mv: Move) -> Piece {
    if promotion_flag(mv.flag_bits()) {
        piece_of_kind(promotion_kind(mv.flag_bits()), p.active_color)
    } else {
        p.mailbox[mv.from_sq() as int]->0
    }
}

/// The piece a move captures.
pub open spec fn captured_piece_of(p: Position, mv: Move) -> Option<Piece> {
    let code = mv.flag_bits();
    if code == 5 {
        Some(piece_of_kind(0, opposite(p.active_color)))
    } else if capture_flag(code) {
        p.mailbox[mv.to_sq() as int]
    } else {
        None
    }
}

/// The mailbox after the rook's part of castling and the en passant capture.
pub open spec fn side_effects(p: Position, mv: Move) -> Seq<Option<Piece>> {
    let code = mv.flag_bits();
    let c = p.active_color;
    let m1 = if castle_flag(code) {
        p.mailbox.update(rook_from(c, code), None).update(rook_to(c, code), Some(piece_of_kind(3, c)))
    } else {
        p.mailbox
    };
    if code == 5 {
        m1.update(behind(c, mv.to_sq() as int), None)
    } else {
        m1
    }
}

/// The position after a move.
pub open spec fn make_position(p: Position, mv: Move) -> Position {
    let f = mv.from_sq() as int;
    let t = mv.to_sq() as int;
    let code = mv.flag_bits();
    let c = p.active_color;
    Position {
        mailbox: side_effects(p, mv).update(f, None).update(t, Some(placed_piece(p, mv))),
        castling: p.castling & castling_mask(f) & castling_mask(t),
        en_passant: if code == 1 {
            Some(behind(c, t) as u8)
        } else {
            None
        },
        half_move_clock: if kind_of(p.mailbox[f]->0) == 0 || capture_flag(code) {
            0
        } else {
            (p.half_move_clock + 1) as u8
        },
        active_color: opposite(c),
    }
}

/// What a move records to be taken back.
pub open spec fn unmove_of_position(p: Position, mv: Move) -> UnMove {
    UnMove {
        captured_piece: captured_piece_of(p, mv),
        castling_rights: CastlingRights(p.castling),
        en_passant_square: p.en_passant,
        half_move_clock: p.half_move_clock,
    }
}

/// What a move made on a board records to be taken back.
pub open spec fn unmove_of(b: &Board, mv: Move) -> UnMove {
    unmove_of_position(b@, mv)
}

/// Weight of an optional piece, 0 for none.
pub open spec fn opt_weight(v: Option<Piece>) -> int {
    match v {
        Some(q) => phase_weight(q) as int,
        None => 0,
    }
}

/// Weight a move adds to the phase by promoting.
pub open spec fn promotion_weight(mv: Move, c: Color) -> int {
    if promotion_flag(mv.flag_bits()) {
        phase_weight(piece_of_kind(promotion_kind(mv.flag_bits()), c)) as int
    } else {
        0
    }
}

/// The king square that castling crosses is attacked, on the board where
/// only the rook has moved and the occupancy is still the old one.
pub open spec fn castle_attacked(b: &Board, mv: Move) -> bool {
    let code = mv.flag_bits();
    let c = b.active_color;
    let r = bb_index(3, c);
    let mid = b.pieces@.update(r, (b.pieces[r] & !sq_bit(rook_from(c, code))) | sq_bit(rook_to(c, code)));
    castle_flag(code) && (attacked_by(mid, b.all_pieces, king_home(c), opposite(c), true)
        || attacked_by(mid, b.all_pieces, rook_to(c, code), opposite(c), true))
}

/// The king of colour `c` stands attacked on board `b`.
pub open spec fn king_attacked(b: &Board, c: Color) -> bool {
    attacked_by(b.pieces@, b.all_pieces, lowest_square(b.pieces[bb_index(5, c)]), opposite(c), false)
}


/// The flag tests on the packed bits of a move: bit 14 is bit 2 of the flag
/// code, bit 15 marks codes from 8 on.
proof fn lemma_flag_bits(bits: u16)
    by (bit_vector)
    ensures
        (bits & 0x4000 != 0) == ((bits >> 12) & 4 != 0),
        (bits & 0x8000 != 0) == ((bits >> 12) >= 8),
{
}

/// Exclusive-or identities of the hash bookkeeping.
proof fn lemma_xor_cancel(h: u64, k: u64, a: u64)
    by (bit_vector)
    ensures
        (h ^ k) ^ ((a ^ 0) ^ k) == h ^ a,
        (h ^ k) ^ ((a ^ k) ^ 0) == h ^ a,
        (h ^ k) ^ a == (h ^ a) ^ k,
        h == h ^ 0,
        0 == h ^ h,
        h == 0 ^ h,
{
}

/// The hash bookkeeping of a move: the key of the old castling rights, en
/// passant file and side to move leave, the new ones come in.
proof fn lemma_make_hash(h0: u64, a0: u64, c0: u64, e0: u64, k0: u64, h: u64, a: u64, c1: u64, e1: u64, k1: u64, act: u64)
    requires
        h0 == a0 ^ c0 ^ e0 ^ k0,
        h ^ a == ((((h0 ^ a0) ^ e0) ^ e1) ^ c0 ^ c1) ^ act,
        k1 == k0 ^ act,
    ensures
        h == a ^ c1 ^ e1 ^ k1,
{
    assert(h == a ^ c1 ^ e1 ^ k1) by (bit_vector)
        requires
            h0 == a0 ^ c0 ^ e0 ^ k0,
            h ^ a == ((((h0 ^ a0) ^ e0) ^ e1) ^ c0 ^ c1) ^ act,
            k1 == k0 ^ act,
    ;
}

/// The hash bookkeeping of a move, whatever the old key: the key changes by
/// the old position's key and the new one's.
proof fn lemma_make_hash_delta(h0: u64, a0: u64, c0: u64, e0: u64, k0: u64, h: u64, a: u64, c1: u64, e1: u64, k1: u64, act: u64)
    requires
        h ^ a == ((((h0 ^ a0) ^ e0) ^ e1) ^ c0 ^ c1) ^ act,
        k1 == k0 ^ act,
    ensures
        h == h0 ^ (a0 ^ c0 ^ e0 ^ k0) ^ (a ^ c1 ^ e1 ^ k1),
{
    assert(h == h0 ^ (a0 ^ c0 ^ e0 ^ k0) ^ (a ^ c1 ^ e1 ^ k1)) by (bit_vector)
        requires
            h ^ a == ((((h0 ^ a0) ^ e0) ^ e1) ^ c0 ^ c1) ^ act,
            k1 == k0 ^ act,
    ;
}

/// The squares a move touches besides its own two: the rook's squares when
/// castling and the captured pawn's square en passant.
pub open spec fn touched_aside(p: Position, mv: Move, s: int) -> bool {
    let code = mv.flag_bits();
    let c = p.active_color;
    (castle_flag(code) && (s == rook_from(c, code) || s == rook_to(c, code))) || (code == 5 && s
        == behind(c, mv.to_sq() as int))
}

/// The squares a move leaves alone keep their content.
proof fn lemma_side_effects_frame(p: Position, mv: Move, s: int)
    requires
        0 <= s < 64,
        move_fits(p, mv),
        !touched_aside(p, mv, s),
    ensures
        side_effects(p, mv)[s] == p.mailbox[s],
{
}

/// A move that does not capture the mover's own king leaves that king on
/// the board.
proof fn lemma_own_king_survives(b0: &Board, mv: Move, b1: &Board)
    requires
        b0.wf(),
        b1.wf(),
        move_fits(b0@, mv),
        b1.mailbox@ == make_position(b0@, mv).mailbox,
        b0.pieces[bb_index(5, b0.active_color)] != 0,
        b0.mailbox@[mv.to_sq() as int] != Some(piece_of_kind(5, b0.active_color)),
    ensures
        b1.pieces[bb_index(5, b0.active_color)] != 0,
        lowest_square(b1.pieces[bb_index(5, b0.active_color)]) < 64,
{
    let c = b0.active_color;
    let k = bb_index(5, c);
    mv.lemma_squares();
    crate::bitboard::lemma_zero_iff_empty(b0.pieces[k]);
    let s = choose|s: int| 0 <= s < 64 && has_bit(b0.pieces[k], s);
    assert(has_bit(b0.pieces[k], s));
    assert(b0.mailbox@[s] == Some(piece_of(k)));
    let f = mv.from_sq() as int;
    let t = mv.to_sq() as int;
    let s1 = if s == f { t } else { s };
    assert(piece_of(k) == piece_of_kind(5, c));
    assert(s != t);
    let code = mv.flag_bits();
    let se = side_effects(b0@, mv);
    let m = se.update(f, None).update(t, Some(placed_piece(b0@, mv)));
    assert(make_position(b0@, mv).mailbox == m);
    if s == f {
        assert(!promotion_flag(code));
        assert(placed_piece(b0@, mv) == piece_of(k));
        assert(m[t] == Some(piece_of(k)));
    } else {
        assert(!touched_aside(b0@, mv, s));
        lemma_side_effects_frame(b0@, mv, s);
        assert(se[s] == Some(piece_of(k)));
        assert(m[s] == se[s]);
    }
    assert(make_position(b0@, mv).mailbox[s1] == Some(piece_of(k)));
    assert(b1.mailbox@[s1] == Some(piece_of(k)));
    assert(has_bit(b1.pieces[k], s1));
    crate::bitboard::lemma_zero_iff_empty(b1.pieces[k]);
    crate::bitboard::lemma_lowest_square(b1.pieces[k]);
}

impl Board {
    /// The rook's part of castling, the en passant square of a double push
    /// and the pawn taken en passant; tells whether castling passed through
    /// an attacked square (when asked to check).
    fn make_side_effects(&mut self, tables: &Tables, mv: Move, flag: MoveFlag, to: u8, check_legality: bool) -> (res: (bool, Option<Piece>))
        requires
            tables.wf(),
            flag == crate::mv::flag_of_code(mv.flag_bits()),
            crate::mv::is_flag_code(mv.flag_bits()),
            to == mv.to_sq(),
            move_fits(old(self)@, mv),
            old(self).en_passant_square is None,
            pieces_match(old(self).pieces, old(self).mailbox@),
            old(self).phase_value == phase_of(old(self).pieces),
        ensures
            final(self).mailbox@ == side_effects(old(self)@, mv),
            pieces_match(final(self).pieces, final(self).mailbox@),
            final(self).phase_value == phase_of(final(self).pieces),
            final(self).phase_value == old(self).phase_value,
            final(self).en_passant_square == (if mv.flag_bits() == 1 { Some(behind(old(self).active_color, to as int) as u8) } else { None::<u8> }),
            final(self).hash_key ^ pieces_hash(tables.zobrist, final(self).mailbox@, 64) == (old(self).hash_key ^ pieces_hash(tables.zobrist, old(self).mailbox@, 64)) ^ en_passant_key(tables.zobrist, final(self).en_passant_square),
            res.0 == !(check_legality && castle_attacked(old(self), mv)),
            res.1 == (if mv.flag_bits() == 5 { Some(piece_of_kind(0, opposite(old(self).active_color))) } else { None }),
            final(self).history == old(self).history,
            final(self).history_ply == old(self).history_ply,
            final(self).white_pieces == old(self).white_pieces,
            final(self).black_pieces == old(self).black_pieces,
            final(self).all_pieces == old(self).all_pieces,
            final(self).half_move_clock == old(self).half_move_clock,
            final(self).castling_rights == old(self).castling_rights,
            final(self).active_color == old(self).active_color,
    {
        let ghost b0 = *self;
        let ghost p0 = self@;
        let ghost g = self.hash_key ^ pieces_hash(tables.zobrist, self.mailbox@, 64);
        let z = &tables.zobrist;
        let mut is_legal = true;
        let mut captured: Option<Piece> = None;
        match flag {
            MoveFlag::DoublePawnPush => {
                let en_passant_square = if self.active_color == Color::White {
                    to - 8
                } else {
                    to + 8
                };
                self.en_passant_square = Some(en_passant_square);
                self.hash_key ^= z.en_passant[en_passant_square as usize % 8];
                proof {
                    let h = b0.hash_key;
                    let a = pieces_hash(*z, b0.mailbox@, 64);
                    let e = z.en_passant[(en_passant_square % 8) as int];
                    lemma_xor_cancel(h, e, a);
                }
            },
            MoveFlag::KingCastle => {
                if self.active_color == Color::White {
                    self.remove_piece(z, Piece::WhiteRook, 7);
                    self.put_piece(z, Piece::WhiteRook, 5);
                    assert(self.pieces@ =~= b0.pieces@.update(3, (b0.pieces[3] & !sq_bit(7)) | sq_bit(5)));
                    if check_legality && (self.is_square_attacked_by(tables, 4, Color::Black, true)
                        || self.is_square_attacked_by(tables, 5, Color::Black, true)) {
                        is_legal = false;
                    }
                } else {
                    self.remove_piece(z, Piece::BlackRook, 63);
                    self.put_piece(z, Piece::BlackRook, 61);
                    assert(self.pieces@ =~= b0.pieces@.update(9, (b0.pieces[9] & !sq_bit(63)) | sq_bit(61)));
                    if check_legality && (self.is_square_attacked_by(tables, 60, Color::White, true)
                        || self.is_square_attacked_by(tables, 61, Color::White, true)) {
                        is_legal = false;
                    }
                }
            },
            MoveFlag::QueenCastle => {
                if self.active_color == Color::White {
                    self.remove_piece(z, Piece::WhiteRook, 0);
                    self.put_piece(z, Piece::WhiteRook, 3);
                    assert(self.pieces@ =~= b0.pieces@.update(3, (b0.pieces[3] & !sq_bit(0)) | sq_bit(3)));
                    if check_legality && (self.is_square_attacked_by(tables, 4, Color::Black, true)
                        || self.is_square_attacked_by(tables, 3, Color::Black, true)) {
                        is_legal = false;
                    }
                } else {
                    self.remove_piece(z, Piece::BlackRook, 56);
                    self.put_piece(z, Piece::BlackRook, 59);
                    assert(self.pieces@ =~= b0.pieces@.update(9, (b0.pieces[9] & !sq_bit(56)) | sq_bit(59)));
                    if check_legality && (self.is_square_attacked_by(tables, 60, Color::White, true)
                        || self.is_square_attacked_by(tables, 59, Color::White, true)) {
                        is_legal = false;
                    }
                }
            },
            MoveFlag::EnPassant => {
                if self.active_color == Color::White {
                    if let Some(captured_pawn) = self.get_piece(to - 8) {
                        if captured_pawn == Piece::BlackPawn {
                            self.remove_piece(z, Piece::BlackPawn, to - 8);
                            captured = Some(Piece::BlackPawn);
                        }
                    }
                } else {
                    if let Some(captured_pawn) = self.get_piece(to + 8) {
                        if captured_pawn == Piece::WhitePawn {
                            self.remove_piece(z, Piece::WhitePawn, to + 8);
                            captured = Some(Piece::WhitePawn);
                        }
                    }
                }
            },
            _ => {},
        }
        proof {
            assert(self.mailbox@ =~= side_effects(p0, mv));
            let e1 = en_passant_key(*z, self.en_passant_square);
            if mv.flag_bits() != 1 {
                assert(e1 == 0);
                let x = g;
                lemma_xor_cancel(x, 0, 0);
            }
        }
        (is_legal, captured)
    }

    /// Moves the piece from its square to the target, promoting it when the
    /// move says so, and updates the castling rights and the move clock.
    fn place_moving_piece(&mut self, tables: &Tables, mv: Move, flag: MoveFlag, from: u8, to: u8)
        requires
            tables.wf(),
            flag == crate::mv::flag_of_code(mv.flag_bits()),
            crate::mv::is_flag_code(mv.flag_bits()),
            from == mv.from_sq(),
            to == mv.to_sq(),
            from != to,
            from < 64,
            to < 64,
            old(self).mailbox@.len() == 64,
            old(self).mailbox@[from as int] is Some,
            old(self).mailbox@[to as int] is None,
            promotion_flag(mv.flag_bits()) ==> old(self).mailbox@[from as int] == Some(piece_of_kind(0, old(self).active_color)),
            pieces_match(old(self).pieces, old(self).mailbox@),
            old(self).phase_value == phase_of(old(self).pieces),
            old(self).phase_value + promotion_weight(mv, old(self).active_color) <= 255,
            old(self).castling_rights.0 < 16,
            !(kind_of(old(self).mailbox@[from as int]->0) == 0 || capture_flag(mv.flag_bits())) ==> old(self).half_move_clock < 255,
        ensures
            final(self).mailbox@ == old(self).mailbox@.update(from as int, None).update(to as int, Some(placed_piece(old(self)@, mv))),
            pieces_match(final(self).pieces, final(self).mailbox@),
            final(self).phase_value == phase_of(final(self).pieces),
            final(self).phase_value == old(self).phase_value + promotion_weight(mv, old(self).active_color),
            final(self).castling_rights.0 == old(self).castling_rights.0 & castling_mask(from as int) & castling_mask(to as int),
            final(self).castling_rights.0 < 16,
            final(self).half_move_clock == (if kind_of(old(self).mailbox@[from as int]->0) == 0 || capture_flag(mv.flag_bits()) { 0 } else { (old(self).half_move_clock + 1) as u8 }),
            final(self).hash_key ^ pieces_hash(tables.zobrist, final(self).mailbox@, 64) == ((old(self).hash_key ^ pieces_hash(tables.zobrist, old(self).mailbox@, 64)) ^ tables.zobrist.castling_rights[old(self).castling_rights.0 as int]) ^ tables.zobrist.castling_rights[final(self).castling_rights.0 as int],
            final(self).history == old(self).history,
            final(self).history_ply == old(self).history_ply,
            final(self).white_pieces == old(self).white_pieces,
            final(self).black_pieces == old(self).black_pieces,
            final(self).all_pieces == old(self).all_pieces,
            final(self).en_passant_square == old(self).en_passant_square,
            final(self).active_color == old(self).active_color,
    {
        let ghost p1 = self@;
        let ghost g = self.hash_key ^ pieces_hash(tables.zobrist, self.mailbox@, 64);
        let z = &tables.zobrist;
        proof {
            let bits = mv.bits();
            lemma_flag_bits(bits);
        }
        if let Some(move_piece) = self.get_piece(from) {
            self.remove_piece(z, move_piece, from);
            if !mv.is_promotion() {
                self.put_piece(z, move_piece, to);
            } else {
                match flag {
                    MoveFlag::PromoteN | MoveFlag::PromoteCaptureN => {
                        if self.active_color == Color::White {
                            self.put_piece(z, Piece::WhiteKnight, to);
                        } else {
                            self.put_piece(z, Piece::BlackKnight, to);
                        }
                        self.phase_value += Piece::KNIGHT_PHASE_VALUE;
                    },
                    MoveFlag::PromoteB | MoveFlag::PromoteCaptureB => {
                        if self.active_color == Color::White {
                            self.put_piece(z, Piece::WhiteBishop, to);
                        } else {
                            self.put_piece(z, Piece::BlackBishop, to);
                        }
                        self.phase_value += Piece::BISHOP_PHASE_VALUE;
                    },
                    MoveFlag::PromoteR | MoveFlag::PromoteCaptureR => {
                        if self.active_color == Color::White {
                            self.put_piece(z, Piece::WhiteRook, to);
                        } else {
                            self.put_piece(z, Piece::BlackRook, to);
                        }
                        self.phase_value += Piece::ROOK_PHASE_VALUE;
                    },
                    MoveFlag::PromoteQ | MoveFlag::PromoteCaptureQ => {
                        if self.active_color == Color::White {
                            self.put_piece(z, Piece::WhiteQueen, to);
                        } else {
                            self.put_piece(z, Piece::BlackQueen, to);
                        }
                        self.phase_value += Piece::QUEEN_PHASE_VALUE;
                    },
                    _ => {},
                }
            }
            proof {
                assert(self.mailbox@ =~= p1.mailbox.update(from as int, None).update(to as int, Some(placed_piece(p1, mv))));
            }
            let ghost cr0 = self.castling_rights.0;
            let ghost h3 = self.hash_key;
            self.hash_key ^= z.castling_rights[self.castling_rights.0 as usize];
            self.castling_rights.0 &= tables.castling_permutations[from as usize];
            self.castling_rights.0 &= tables.castling_permutations[to as usize];
            proof {
                let m1 = castling_mask(from as int);
                let m2 = castling_mask(to as int);
                assert(cr0 < 16 ==> (cr0 & m1) & m2 < 16) by (bit_vector);
            }
            self.hash_key ^= z.castling_rights[self.castling_rights.0 as usize];
            proof {
                let a = pieces_hash(*z, self.mailbox@, 64);
                let co = z.castling_rights[cr0 as int];
                let cn = z.castling_rights[self.castling_rights.0 as int];
                let hh = self.hash_key;
                assert(hh ^ a == (g ^ co) ^ cn) by (bit_vector)
                    requires hh == (h3 ^ co) ^ cn, h3 ^ a == g;
            }
            if move_piece == Piece::WhitePawn || move_piece == Piece::BlackPawn || mv.is_capture() {
                self.half_move_clock = 0;
            } else {
                self.half_move_clock += 1;
            }
        }
    }

    #[verifier::spinoff_prover]
    #[verifier::rlimit(60)]
    pub fn make_move(&mut self, tables: &Tables, mv: Move, check_legality: bool) -> (res: (bool, UnMove))
        requires
            tables.wf(),
            old(self).wf(),
            move_fits(old(self)@, mv),
            old(self).history_ply < usize::MAX,
            !(kind_of(old(self).mailbox@[mv.from_sq() as int]->0) == 0 || capture_flag(mv.flag_bits())) ==> old(self).half_move_clock < 255,
            old(self).phase_value - opt_weight(captured_piece_of(old(self)@, mv)) + promotion_weight(mv, old(self).active_color) <= 255,
            check_legality ==> old(self).pieces[bb_index(5, old(self).active_color)] != 0
                && old(self).mailbox@[mv.to_sq() as int] != Some(piece_of_kind(5, old(self).active_color)),
        ensures
            final(self).wf(),
            final(self)@ == make_position(old(self)@, mv),
            res.1 == unmove_of(old(self), mv),
            final(self).history_ply == old(self).history_ply + 1,
            final(self).history@ == old(self).history@.update(old(self).history_ply as int % 1024, old(self).hash_key),
            final(self).phase_value == old(self).phase_value - opt_weight(captured_piece_of(old(self)@, mv)) + promotion_weight(mv, old(self).active_color),
            old(self).hash_ok(tables.zobrist) ==> final(self).hash_ok(tables.zobrist),
            final(self).hash_key == old(self).hash_key ^ position_hash(tables.zobrist, old(self)@) ^ position_hash(tables.zobrist, final(self)@),
            res.0 == !(check_legality && (castle_attacked(old(self), mv) || king_attacked(final(self), old(self).active_color))),
    {
        let ghost b0 = *self;
        let ghost p0 = self@;
        proof {
            mv.lemma_squares();
        }
        let z = &tables.zobrist;
        let mut unmove = UnMove {
            captured_piece: None,
            castling_rights: self.castling_rights,
            en_passant_square: self.en_passant_square,
            half_move_clock: self.half_move_clock,
        };
        self.push_history();
        if let Some(en_passant_square) = self.en_passant_square {
            self.hash_key ^= z.en_passant[en_passant_square as usize % 8];
            self.en_passant_square = None;
        }
        let from = mv.get_from();
        let to = mv.get_to();
        let flag = mv.get_flag();
        let ghost code = mv.flag_bits();
        let ghost c = b0.active_color;
        let ghost a0 = pieces_hash(*z, b0.mailbox@, 64);
        let ghost e0 = en_passant_key(*z, b0.en_passant_square);
        proof {
            let h = b0.hash_key;
            lemma_xor_cancel(h, e0, a0);
            if b0.en_passant_square is None {
                lemma_xor_cancel(h, 0, 0);
            }
            let bits = mv.bits();
            lemma_flag_bits(bits);
        }
        assert(self.hash_key ^ pieces_hash(*z, self.mailbox@, 64) == (b0.hash_key ^ a0) ^ e0);
        assert(castle_attacked(self, mv) == castle_attacked(&b0, mv));
        let (castle_ok, ep_captured) = self.make_side_effects(tables, mv, flag, to, check_legality);
        let mut is_legal = castle_ok;
        if ep_captured.is_some() {
            unmove.captured_piece = ep_captured;
        }
        let ghost e1 = en_passant_key(*z, self.en_passant_square);
        if mv.is_capture() && flag != MoveFlag::EnPassant {
            if let Some(captured_piece) = self.get_piece(to) {
                self.remove_piece(z, captured_piece, to);
                unmove.captured_piece = Some(captured_piece);
                self.phase_value -= Piece::get_phase_value(captured_piece);
            }
        }
        proof {
            assert(unmove == unmove_of(&b0, mv));
            assert(self.phase_value == b0.phase_value - opt_weight(captured_piece_of(p0, mv)));
            assert(self.mailbox@[from as int] == p0.mailbox[from as int]) by {
                assert(!touched_aside(p0, mv, from as int));
                lemma_side_effects_frame(p0, mv, from as int);
            }
            assert(placed_piece(self@, mv) == placed_piece(p0, mv));
        }
        let ghost gap3 = self.hash_key ^ pieces_hash(*z, self.mailbox@, 64);
        assert(gap3 == ((b0.hash_key ^ a0) ^ e0) ^ e1);
        self.place_moving_piece(tables, mv, flag, from, to);
        proof {
            assert(self.mailbox@ =~= make_position(p0, mv).mailbox);
        }
        let ghost cr_old = z.castling_rights[b0.castling_rights.0 as int];
        let ghost cr_new = z.castling_rights[self.castling_rights.0 as int];
        self.set_general_bitboards();
        proof {
            assert(pieces_match(self.pieces, self.mailbox@));
            assert(self.castling_rights.0 < 16);
            assert(self.en_passant_square matches Some(e) ==> e < 64);
            assert(self.phase_value == phase_of(self.pieces));
        }
        if check_legality && is_legal {
            proof {
                lemma_own_king_survives(&b0, mv, self);
            }
            if self.active_color == Color::White && self.is_square_attacked_by(
                tables,
                self.pieces[5].trailing_zeros() as u8,
                Color::Black,
                false,
            ) {
                is_legal = false;
            }
            if self.active_color == Color::Black && self.is_square_attacked_by(
                tables,
                self.pieces[11].trailing_zeros() as u8,
                Color::White,
                false,
            ) {
                is_legal = false;
            }
        }
        let ghost hb = self.hash_key;
        self.active_color = self.active_color.not();
        self.hash_key ^= z.active_color;
        proof {
            let a = pieces_hash(*z, self.mailbox@, 64);
            let act = z.active_color;
            let hh = self.hash_key;
            assert(hb ^ a == (gap3 ^ cr_old) ^ cr_new);
            assert(hh ^ a == ((gap3 ^ cr_old) ^ cr_new) ^ act) by (bit_vector)
                requires hh == hb ^ act, hb ^ a == (gap3 ^ cr_old) ^ cr_new;
            lemma_xor_cancel(act, 0, 0);
            if b0.hash_ok(*z) {
                lemma_make_hash(b0.hash_key, a0, cr_old, e0, color_key(*z, c),
                    self.hash_key, pieces_hash(*z, self.mailbox@, 64), cr_new, e1, color_key(*z, opposite(c)), z.active_color);
            }
            lemma_make_hash_delta(b0.hash_key, a0, cr_old, e0, color_key(*z, c),
                self.hash_key, pieces_hash(*z, self.mailbox@, 64), cr_new, e1, color_key(*z, opposite(c)), z.active_color);
        }
        (is_legal, unmove)
    }
}

/// A move can be taken back on a position: its target square holds a piece,
/// its origin square is empty, and the squares that castling, en passant and
/// promotion restore are as the move left them.
pub open spec fn unmove_fits(p: Position, mv: Move, u: UnMove) -> bool {
    let f = mv.from_sq() as int;
    let t = mv.to_sq() as int;
    let code = mv.flag_bits();
    let c = opposite(p.active_color);
    let mb = p.mailbox;
    &&& mb.len() == 64
    &&& f != t
    &&& mb[f] is None
    &&& mb[t] is Some
    &&& promotion_flag(code) ==> mb[t] == Some(piece_of_kind(promotion_kind(code), c))
    &&& castle_flag(code) ==> {
        &&& mb[rook_to(c, code)] == Some(piece_of_kind(3, c))
        &&& mb[rook_from(c, code)] is None
        &&& f != rook_from(c, code) && f != rook_to(c, code)
        &&& t != rook_from(c, code) && t != rook_to(c, code)
    }
    &&& code == 5 ==> 0 <= behind(c, t) < 64 && mb[behind(c, t)] is None && behind(c, t) != f
    &&& u.castling_rights.0 < 16
    &&& (u.en_passant_square matches Some(e) ==> e < 64)
}

/// The piece a taken-back move puts back on the target square.
pub open spec fn restored_capture(mv: Move, u: UnMove) -> Option<Piece> {
    if capture_flag(mv.flag_bits()) && mv.flag_bits() != 5 {
        u.captured_piece
    } else {
        None
    }
}

/// The position after taking a move back.
pub open spec fn unmake_position(p: Position, mv: Move, u: UnMove) -> Position {
    let f = mv.from_sq() as int;
    let t = mv.to_sq() as int;
    let code = mv.flag_bits();
    let c = opposite(p.active_color);
    let mb = p.mailbox;
    let back = if promotion_flag(code) {
        piece_of_kind(0, c)
    } else {
        mb[t]->0
    };
    let m1 = mb.update(f, Some(back)).update(t, None);
    let m2 = if restored_capture(mv, u) is Some {
        m1.update(t, restored_capture(mv, u))
    } else {
        m1
    };
    let m3 = if castle_flag(code) {
        m2.update(rook_to(c, code), None).update(rook_from(c, code), Some(piece_of_kind(3, c)))
    } else {
        m2
    };
    let m4 = if code == 5 {
        m3.update(behind(c, t), Some(piece_of_kind(0, opposite(c))))
    } else {
        m3
    };
    Position {
        mailbox: m4,
        castling: u.castling_rights.0,
        en_passant: u.en_passant_square,
        half_move_clock: u.half_move_clock,
        active_color: c,
    }
}

/// Taking back a move made on a position gives the position back, and the
/// position the move left can have it taken back.
pub proof fn lemma_unmake_inverts_make(p: Position, mv: Move)
    requires
        move_fits(p, mv),
        p.castling < 16,
        p.en_passant matches Some(e) ==> e < 64,
    ensures
        unmove_fits(make_position(p, mv), mv, unmove_of_position(p, mv)),
        unmake_position(make_position(p, mv), mv, unmove_of_position(p, mv)) == p,
{
    broadcast use group_move_squares;
    let q = make_position(p, mv);
    let u = unmove_of_position(p, mv);
    let r = unmake_position(q, mv, u);
    let f = mv.from_sq() as int;
    let t = mv.to_sq() as int;
    let code = mv.flag_bits();
    let c = p.active_color;
    assert(opposite(opposite(c)) == c);
    assert(r.mailbox =~= p.mailbox);
}

impl Board {
    /// Puts the moving piece back on its origin square, as a pawn when it had
    /// promoted.
    #[verifier::spinoff_prover]
    fn unplace_moving_piece(&mut self, tables: &Tables, mv: Move, flag: MoveFlag, from: u8, to: u8)
        requires
            tables.wf(),
            flag == crate::mv::flag_of_code(mv.flag_bits()),
            crate::mv::is_flag_code(mv.flag_bits()),
            from == mv.from_sq(),
            to == mv.to_sq(),
            from < 64,
            to < 64,
            from != to,
            old(self).mailbox@.len() == 64,
            old(self).mailbox@[from as int] is None,
            old(self).mailbox@[to as int] is Some,
            promotion_flag(mv.flag_bits()) ==> old(self).mailbox@[to as int] == Some(piece_of_kind(promotion_kind(mv.flag_bits()), old(self).active_color)),
            pieces_match(old(self).pieces, old(self).mailbox@),
            old(self).phase_value == phase_of(old(self).pieces),
        ensures
            final(self).mailbox@ == old(self).mailbox@.update(from as int, Some(if promotion_flag(mv.flag_bits()) { piece_of_kind(0, old(self).active_color) } else { old(self).mailbox@[to as int]->0 })).update(to as int, None),
            pieces_match(final(self).pieces, final(self).mailbox@),
            final(self).phase_value == phase_of(final(self).pieces),
            final(self).phase_value == old(self).phase_value - promotion_weight(mv, old(self).active_color),
            final(self).hash_key ^ pieces_hash(tables.zobrist, final(self).mailbox@, 64) == old(self).hash_key ^ pieces_hash(tables.zobrist, old(self).mailbox@, 64),
            final(self).same_state_but_phase(old(self)),
    {
        let ghost p1 = self@;
        let z = &tables.zobrist;
        proof {
            let bits = mv.bits();
            lemma_flag_bits(bits);
        }
        if let Some(move_piece) = self.get_piece(to) {
            if !mv.is_promotion() {
                self.put_piece(z, move_piece, from);
                self.remove_piece(z, move_piece, to);
            } else {
                if self.active_color == Color::White {
                    self.put_piece(z, Piece::WhitePawn, from);
                } else {
                    self.put_piece(z, Piece::BlackPawn, from);
                }
                match flag {
                    MoveFlag::PromoteN | MoveFlag::PromoteCaptureN => {
                        if self.active_color == Color::White {
                            self.remove_piece(z, Piece::WhiteKnight, to);
                        } else {
                            self.remove_piece(z, Piece::BlackKnight, to);
                        }
                        self.phase_value -= Piece::KNIGHT_PHASE_VALUE;
                    },
                    MoveFlag::PromoteB | MoveFlag::PromoteCaptureB => {
                        if self.active_color == Color::White {
                            self.remove_piece(z, Piece::WhiteBishop, to);
                        } else {
                            self.remove_piece(z, Piece::BlackBishop, to);
                        }
                        self.phase_value -= Piece::BISHOP_PHASE_VALUE;
                    },
                    MoveFlag::PromoteR | MoveFlag::PromoteCaptureR => {
                        if self.active_color == Color::White {
                            self.remove_piece(z, Piece::WhiteRook, to);
                        } else {
                            self.remove_piece(z, Piece::BlackRook, to);
                        }
                        self.phase_value -= Piece::ROOK_PHASE_VALUE;
                    },
                    MoveFlag::PromoteQ | MoveFlag::PromoteCaptureQ => {
                        if self.active_color == Color::White {
                            self.remove_piece(z, Piece::WhiteQueen, to);
                        } else {
                            self.remove_piece(z, Piece::BlackQueen, to);
                        }
                        self.phase_value -= Piece::QUEEN_PHASE_VALUE;
                    },
                    _ => {},
                }
            }
        }
        proof {
            assert(self.mailbox@ =~= p1.mailbox.update(from as int, Some(if promotion_flag(mv.flag_bits()) { piece_of_kind(0, p1.active_color) } else { p1.mailbox[to as int]->0 })).update(to as int, None));
        }
    }

    /// Puts the rook back after castling and the pawn taken en passant.
    fn undo_side_effects(&mut self, tables: &Tables, mv: Move, flag: MoveFlag, to: u8)
        requires
            tables.wf(),
            flag == crate::mv::flag_of_code(mv.flag_bits()),
            crate::mv::is_flag_code(mv.flag_bits()),
            to == mv.to_sq(),
            to < 64,
            old(self).mailbox@.len() == 64,
            castle_flag(mv.flag_bits()) ==> old(self).mailbox@[rook_to(old(self).active_color, mv.flag_bits())] == Some(piece_of_kind(3, old(self).active_color))
                && old(self).mailbox@[rook_from(old(self).active_color, mv.flag_bits())] is None,
            mv.flag_bits() == 5 ==> 0 <= behind(old(self).active_color, to as int) < 64 && old(self).mailbox@[behind(old(self).active_color, to as int)] is None,
            pieces_match(old(self).pieces, old(self).mailbox@),
            old(self).phase_value == phase_of(old(self).pieces),
        ensures
            final(self).mailbox@ == ({
                let c = old(self).active_color;
                let code = mv.flag_bits();
                let m3 = if castle_flag(code) {
                    old(self).mailbox@.update(rook_to(c, code), None).update(rook_from(c, code), Some(piece_of_kind(3, c)))
                } else {
                    old(self).mailbox@
                };
                if code == 5 {
                    m3.update(behind(c, to as int), Some(piece_of_kind(0, opposite(c))))
                } else {
                    m3
                }
            }),
            pieces_match(final(self).pieces, final(self).mailbox@),
            final(self).phase_value == phase_of(final(self).pieces),
            final(self).hash_key ^ pieces_hash(tables.zobrist, final(self).mailbox@, 64) == old(self).hash_key ^ pieces_hash(tables.zobrist, old(self).mailbox@, 64),
            final(self).same_state(old(self)),
    {
        let ghost p1 = self@;
        let z = &tables.zobrist;
        match flag {
            MoveFlag::KingCastle => {
                if self.active_color == Color::White {
                    self.remove_piece(z, Piece::WhiteRook, 5);
                    self.put_piece(z, Piece::WhiteRook, 7);
                } else {
                    self.remove_piece(z, Piece::BlackRook, 61);
                    self.put_piece(z, Piece::BlackRook, 63);
                }
            },
            MoveFlag::QueenCastle => {
                if self.active_color == Color::White {
                    self.remove_piece(z, Piece::WhiteRook, 3);
                    self.put_piece(z, Piece::WhiteRook, 0);
                } else {
                    self.remove_piece(z, Piece::BlackRook, 59);
                    self.put_piece(z, Piece::BlackRook, 56);
                }
            },
            MoveFlag::EnPassant => {
                if self.active_color == Color::White {
                    self.put_piece(z, Piece::BlackPawn, to - 8);
                } else {
                    self.put_piece(z, Piece::WhitePawn, to + 8);
                }
            },
            _ => {},
        }
    }

    #[verifier::spinoff_prover]
    pub fn unmake_move(&mut self, tables: &Tables, mv: Move, unmove: UnMove)
        requires
            tables.wf(),
            old(self).wf(),
            unmove_fits(old(self)@, mv, unmove),
            old(self).history_ply > 0,
            old(self).phase_value - promotion_weight(mv, opposite(old(self).active_color)) + opt_weight(restored_capture(mv, unmove)) <= 255,
        ensures
            final(self).wf(),
            final(self)@ == unmake_position(old(self)@, mv, unmove),
            final(self).history_ply == old(self).history_ply - 1,
            final(self).history == old(self).history,
            final(self).hash_key == old(self).history[(old(self).history_ply - 1) % 1024] ^ pieces_hash(tables.zobrist, old(self).mailbox@, 64) ^ pieces_hash(tables.zobrist, final(self).mailbox@, 64),
            final(self).phase_value == old(self).phase_value - promotion_weight(mv, opposite(old(self).active_color)) + opt_weight(restored_capture(mv, unmove)),
    {
        let ghost b0 = *self;
        let ghost p0 = self@;
        proof {
            mv.lemma_squares();
        }
        let z = &tables.zobrist;
        self.castling_rights = unmove.castling_rights;
        self.en_passant_square = unmove.en_passant_square;
        self.half_move_clock = unmove.half_move_clock;
        self.active_color = self.active_color.not();
        self.hash_key = self.pop_history();
        let ghost hh = self.hash_key;
        let ghost a0 = pieces_hash(*z, self.mailbox@, 64);
        let from = mv.get_from();
        let to = mv.get_to();
        let flag = mv.get_flag();
        proof {
            let bits = mv.bits();
            lemma_flag_bits(bits);
        }
        self.unplace_moving_piece(tables, mv, flag, from, to);
        if mv.is_capture() && flag != MoveFlag::EnPassant {
            if let Some(captured_piece) = unmove.captured_piece {
                self.put_piece(z, captured_piece, to);
                self.phase_value += Piece::get_phase_value(captured_piece);
            }
        }
        proof {
            let c = self.active_color;
            let code = mv.flag_bits();
            if castle_flag(code) {
                assert(self.mailbox@[rook_to(c, code)] == p0.mailbox[rook_to(c, code)]);
                assert(self.mailbox@[rook_from(c, code)] == p0.mailbox[rook_from(c, code)]);
            }
            if code == 5 {
                assert(self.mailbox@[behind(c, to as int)] == p0.mailbox[behind(c, to as int)]);
            }
        }
        self.undo_side_effects(tables, mv, flag, to);
        self.set_general_bitboards();
        proof {
            assert(self.mailbox@ =~= unmake_position(p0, mv, unmove).mailbox);
            let a = pieces_hash(*z, self.mailbox@, 64);
            let h = self.hash_key;
            assert(h ^ a == hh ^ a0);
            assert(h == (hh ^ a0) ^ a) by (bit_vector)
                requires h ^ a == hh ^ a0;
        }
    }
}

// ---------------------------------------------------------------------------
// Rebuilding the mailbox, the hash key and the phase from the bitboards.
// ---------------------------------------------------------------------------

/// The piece of highest index among the first `n` bitboards that has square
/// `s`.
pub open spec fn last_piece_at(pieces: Seq<u64>, s: int, n: int) -> Option<Piece>
    decreases n,
{
    if n <= 0 {
        None
    } else if has_bit(pieces[n - 1], s) {
        Some(piece_of(n - 1))
    } else {
        last_piece_at(pieces, s, n - 1)
    }
}

/// When the bitboards match a mailbox, the piece found on a square is the
/// mailbox's.
pub proof fn lemma_last_piece_matches(pieces: [u64; 12], mb: Seq<Option<Piece>>, s: int, n: int)
    requires
        pieces_match(pieces, mb),
        0 <= s < 64,
        0 <= n <= 12,
    ensures
        last_piece_at(pieces@, s, n) == (if mb[s] matches Some(p) && piece_index(p) < n { mb[s] } else { None }),
    decreases n,
{
    if n > 0 {
        lemma_last_piece_matches(pieces, mb, s, n - 1);
        assert(has_bit(pieces[n - 1], s) == (mb[s] == Some(piece_of(n - 1))));
        lemma_piece_of(n - 1);
        if let Some(p) = mb[s] {
            lemma_piece_index(p);
        }
    }
}

/// Game phase counted from the first `k` of the eight phase pieces, in the
/// order white knight, bishop, rook, queen, black knight, bishop, rook,
/// queen.
pub open spec fn phase_upto(pieces: [u64; 12], k: int) -> nat
    decreases k,
{
    if k <= 0 {
        0
    } else {
        let i = phase_pieces()[k - 1];
        phase_upto(pieces, k - 1) + popcount(pieces[i]) * (phase_weight(piece_of(i)) as nat)
    }
}

pub open spec fn phase_pieces() -> Seq<int> {
    seq![1, 2, 3, 4, 7, 8, 9, 10]
}

impl Board {
    pub(crate) fn generate_phase_value(&self) -> (r: u8)
        requires
            phase_of(self.pieces) <= 255,
        ensures
            r == phase_of(self.pieces),
    {
        let phase_value_pieces: [Piece; 8] = [
            Piece::WhiteKnight,
            Piece::WhiteBishop,
            Piece::WhiteRook,
            Piece::WhiteQueen,
            Piece::BlackKnight,
            Piece::BlackBishop,
            Piece::BlackRook,
            Piece::BlackQueen,
        ];
        proof {
            reveal_with_fuel(phase_upto, 9);
            assert(phase_weight(piece_of(1)) == 1 && phase_weight(piece_of(2)) == 1 && phase_weight(piece_of(3)) == 2 && phase_weight(piece_of(4)) == 4);
            assert(phase_weight(piece_of(7)) == 1 && phase_weight(piece_of(8)) == 1 && phase_weight(piece_of(9)) == 2 && phase_weight(piece_of(10)) == 4);
            assert(phase_pieces()[0] == 1 && phase_pieces()[1] == 2 && phase_pieces()[2] == 3 && phase_pieces()[3] == 4);
            assert(phase_pieces()[4] == 7 && phase_pieces()[5] == 8 && phase_pieces()[6] == 9 && phase_pieces()[7] == 10);
            assert(phase_upto(self.pieces, 8) == phase_of(self.pieces));
        }
        let mut phase_value: u8 = 0;
        let mut k: usize = 0;
        while k < 8
            invariant
                k <= 8,
                phase_upto(self.pieces, 8) <= 255,
                phase_value == phase_upto(self.pieces, k as int),
                forall|j: int| 0 <= j < 8 ==> piece_index(#[trigger] phase_value_pieces[j]) == phase_pieces()[j],
            decreases 8 - k,
        {
            let piece = phase_value_pieces[k];
            proof {
                lemma_phase_upto_mono(self.pieces, k as int + 1, 8);
                crate::bitboard::lemma_popcount_bound(self.pieces[piece_index(piece)]);
            }
            let count = count_squares(self.pieces[piece.index()]);
            phase_value += count as u8 * Piece::get_phase_value(piece);
            k += 1;
        }
        phase_value
    }
}

proof fn lemma_phase_upto_mono(pieces: [u64; 12], k: int, n: int)
    requires
        0 <= k <= n,
    ensures
        phase_upto(pieces, k) <= phase_upto(pieces, n),
    decreases n - k,
{
    if k < n {
        lemma_phase_upto_mono(pieces, k, n - 1);
    }
}

impl Board {
    pub(crate) fn generate_mailbox(&self) -> (r: Result<[Option<Piece>; 64], &'static str>)
        ensures
            r matches Ok(mb) && forall|s: int| 0 <= s < 64 ==> #[trigger] mb@[s] == last_piece_at(self.pieces@, s, 12),
    {
        let mut mailbox: [Option<Piece>; 64] = [None; 64];
        let mut square: usize = 0;
        while square < 64
            invariant
                square <= 64,
                forall|s: int| 0 <= s < square ==> #[trigger] mailbox@[s] == last_piece_at(self.pieces@, s, 12),
            decreases 64 - square,
        {
            let square_mask: u64 = 1u64 << square;
            let ghost s = square as int;
            let mut piece_index: usize = 0;
            let mut cell: Option<Piece> = None;
            while piece_index < 12
                invariant
                    piece_index <= 12,
                    s == square,
                    square < 64,
                    square_mask == 1u64 << square,
                    cell == last_piece_at(self.pieces@, s, piece_index as int),
                decreases 12 - piece_index,
            {
                let piece_mask = self.pieces[piece_index];
                proof {
                    crate::bitboard::lemma_bit_test(square as u64, piece_mask);
                }
                if square_mask & piece_mask != 0 {
                    let piece = Piece::try_from(piece_index)?;
                    cell = Some(piece);
                }
                piece_index += 1;
            }
            mailbox[square] = cell;
            square += 1;
        }
        Ok(mailbox)
    }

    pub(crate) fn generate_hash_key(&self, z: &ZobristTable) -> (r: u64)
        requires
            self.castling_rights.0 < 16,
            self.en_passant_square matches Some(e) ==> e < 64,
        ensures
            r == position_hash(*z, self@),
    {
        let mut hash_key: u64 = 0;
        let mut square: u8 = 0;
        while square < 64
            invariant
                square <= 64,
                hash_key == pieces_hash(*z, self.mailbox@, square as int),
            decreases 64 - square,
        {
            let ghost prev = hash_key;
            match self.get_piece(square) {
                Some(piece) => {
                    hash_key ^= z.piece_square[piece.index()][square as usize];
                },
                None => {
                    proof {
                        lemma_xor_cancel(prev, 0, 0);
                    }
                },
            }
            square += 1;
        }
        hash_key ^= z.castling_rights[self.castling_rights.0 as usize];
        let ghost h2 = hash_key;
        if let Some(en_passant_square) = self.en_passant_square {
            let file = en_passant_square % 8;
            hash_key ^= z.en_passant[file as usize];
        } else {
            proof {
                lemma_xor_cancel(h2, 0, 0);
            }
        }
        let ghost h3 = hash_key;
        if self.active_color == Color::White {
            hash_key ^= z.active_color;
        } else {
            proof {
                lemma_xor_cancel(h3, 0, 0);
            }
        }
        hash_key
    }
}

// ---------------------------------------------------------------------------
// Counting pieces square by square.
// ---------------------------------------------------------------------------

/// Number of squares below `n` that a bitboard has.
pub open spec fn count_bits_below(x: u64, n: int) -> nat
    decreases n,
{
    if n <= 0 {
        0
    } else {
        count_bits_below(x, n - 1) + if has_bit(x, n - 1) { 1nat } else { 0nat }
    }
}

/// Number of squares below `n` that hold piece `p`.
pub open spec fn count_piece_below(mb: Seq<Option<Piece>>, p: Piece, n: int) -> nat
    decreases n,
{
    if n <= 0 {
        0
    } else {
        count_piece_below(mb, p, n - 1) + if mb[n - 1] == Some(p) { 1nat } else { 0nat }
    }
}

/// Game phase counted on a mailbox.
pub open spec fn mailbox_phase(mb: Seq<Option<Piece>>) -> nat {
    count_piece_below(mb, Piece::WhiteKnight, 64) + count_piece_below(mb, Piece::WhiteBishop, 64)
        + 2 * count_piece_below(mb, Piece::WhiteRook, 64) + 4 * count_piece_below(mb, Piece::WhiteQueen, 64)
        + count_piece_below(mb, Piece::BlackKnight, 64) + count_piece_below(mb, Piece::BlackBishop, 64)
        + 2 * count_piece_below(mb, Piece::BlackRook, 64) + 4 * count_piece_below(mb, Piece::BlackQueen, 64)
}

proof fn lemma_count_without(x: u64, z: int, r: u64, n: int)
    requires
        0 <= z < 64,
        has_bit(x, z),
        forall|s: int| #[trigger] has_bit(r, s) == (has_bit(x, s) && s != z),
        0 <= n <= 64,
    ensures
        count_bits_below(x, n) == count_bits_below(r, n) + if z < n { 1nat } else { 0nat },
    decreases n,
{
    if n > 0 {
        lemma_count_without(x, z, r, n - 1);
        assert(has_bit(r, n - 1) == (has_bit(x, n - 1) && n - 1 != z));
    }
}

/// On a well-formed board a piece bitboard counts the squares holding
/// that piece.
pub proof fn lemma_piece_count(pieces: [u64; 12], mb: Seq<Option<Piece>>, i: int)
    requires
        pieces_match(pieces, mb),
        0 <= i < 12,
    ensures
        popcount(pieces[i]) == count_piece_below(mb, piece_of(i), 64),
{
    lemma_popcount_counts(pieces[i]);
    lemma_count_matches(pieces, mb, i, 64);
}

/// The number of squares of a bitboard is the number of squares it has
/// among the 64.
pub proof fn lemma_popcount_counts(x: u64)
    ensures
        popcount(x) == count_bits_below(x, 64),
    decreases x,
{
    if x == 0 {
        assert forall|n: int| 0 <= n <= 64 implies count_bits_below(x, n) == 0 by {
            lemma_count_zero(n);
        }
    } else {
        crate::bitboard::lemma_lowest_square(x);
        let r = crate::bitboard::without_lowest(x);
        lemma_popcount_counts(r);
        lemma_count_without(x, lowest_square(x), r, 64);
    }
}

proof fn lemma_count_zero(n: int)
    requires
        0 <= n <= 64,
    ensures
        count_bits_below(0u64, n) == 0,
    decreases n,
{
    if n > 0 {
        lemma_count_zero(n - 1);
        crate::bitboard::lemma_has_bit_zero(n - 1);
    }
}

proof fn lemma_count_matches(pieces: [u64; 12], mb: Seq<Option<Piece>>, i: int, n: int)
    requires
        pieces_match(pieces, mb),
        0 <= i < 12,
        0 <= n <= 64,
    ensures
        count_bits_below(pieces[i], n) == count_piece_below(mb, piece_of(i), n),
    decreases n,
{
    if n > 0 {
        lemma_count_matches(pieces, mb, i, n - 1);
        assert(has_bit(pieces[i], n - 1) == (mb[n - 1] == Some(piece_of(i))));
    }
}

/// When the bitboards match a mailbox, their phase is the mailbox's.
pub proof fn lemma_phase_matches(pieces: [u64; 12], mb: Seq<Option<Piece>>)
    requires
        pieces_match(pieces, mb),
    ensures
        phase_of(pieces) == mailbox_phase(mb),
{
    let ids = seq![1int, 2, 3, 4, 7, 8, 9, 10];
    assert forall|k: int| 0 <= k < 8 implies popcount(pieces[#[trigger] ids[k]]) == count_piece_below(mb, piece_of(ids[k]), 64) by {
        lemma_popcount_counts(pieces[ids[k]]);
        lemma_count_matches(pieces, mb, ids[k], 64);
    }
    assert(popcount(pieces[ids[0]]) == count_piece_below(mb, piece_of(1), 64));
    assert(popcount(pieces[ids[1]]) == count_piece_below(mb, piece_of(2), 64));
    assert(popcount(pieces[ids[2]]) == count_piece_below(mb, piece_of(3), 64));
    assert(popcount(pieces[ids[3]]) == count_piece_below(mb, piece_of(4), 64));
    assert(popcount(pieces[ids[4]]) == count_piece_below(mb, piece_of(7), 64));
    assert(popcount(pieces[ids[5]]) == count_piece_below(mb, piece_of(8), 64));
    assert(popcount(pieces[ids[6]]) == count_piece_below(mb, piece_of(9), 64));
    assert(popcount(pieces[ids[7]]) == count_piece_below(mb, piece_of(10), 64));
}


/// The character shown for a square: the piece's letter, or `.` when empty.
pub open spec fn square_char(v: Option<Piece>) -> char {
    match v {
        Some(p) => piece_char(p),
        None => '.',
    }
}

impl Board {
    /// The characters of the printed board, row by row from rank 8 down to
    /// rank 1, each row from file a to file h.
    pub fn picture(&self) -> (r: Vec<char>)
        ensures
            r@.len() == 64,
            forall|i: int| #![trigger r@[i]] 0 <= i < 64 ==> r@[i] == square_char(self.mailbox@[(7 - i / 8) * 8 + i % 8]),
    {
        let mut r: Vec<char> = Vec::new();
        let mut rank: usize = 8;
        while rank > 0
            invariant
                rank <= 8,
                r@.len() == (8 - rank) * 8,
                forall|i: int| #![trigger r@[i]] 0 <= i < r@.len() ==> r@[i] == square_char(self.mailbox@[(7 - i / 8) * 8 + i % 8]),
            decreases rank,
        {
            rank -= 1;
            let mut file: usize = 0;
            while file < 8
                invariant
                    rank < 8,
                    file <= 8,
                    r@.len() == (7 - rank) * 8 + file,
                    forall|i: int| #![trigger r@[i]] 0 <= i < r@.len() ==> r@[i] == square_char(self.mailbox@[(7 - i / 8) * 8 + i % 8]),
                decreases 8 - file,
            {
                let c = match self.mailbox[rank * 8 + file] {
                    Some(piece) => Piece::to_char(piece),
                    None => '.',
                };
                proof {
                    let n = r@.len() as int;
                    assert(n / 8 == 7 - rank && n % 8 == file) by (nonlinear_arith)
                        requires n == (7 - rank) * 8 + file, file < 8, rank < 8;
                }
                r.push(c);
                file += 1;
            }
        }
        r
    }
}


impl Default for Board {
    /// The empty board.
    fn default() -> (b: Board)
        ensures
            b.is_empty_board(),
            b.wf(),
    {
        Board::new()
    }
}


/// Each castling right has its king and its rook on their home squares.
pub open spec fn rights_at_home(p: Position) -> bool {
    let mb = p.mailbox;
    let cr = p.castling;
    &&& (cr & 3 != 0 ==> mb[4] == Some(Piece::WhiteKing))
    &&& (cr & 1 != 0 ==> mb[7] == Some(Piece::WhiteRook))
    &&& (cr & 2 != 0 ==> mb[0] == Some(Piece::WhiteRook))
    &&& (cr & 12 != 0 ==> mb[60] == Some(Piece::BlackKing))
    &&& (cr & 4 != 0 ==> mb[63] == Some(Piece::BlackRook))
    &&& (cr & 8 != 0 ==> mb[56] == Some(Piece::BlackRook))
}

/// What the castling masks leave of the rights.
proof fn lemma_castling_mask_bits(cr: u8, m1: u8, m2: u8, x: u8)
    by (bit_vector)
    ensures
        ((cr & m1) & m2) & x != 0 ==> cr & x != 0 && m1 & x != 0 && m2 & x != 0,
{
}

/// A move keeps every castling right backed by its king and rook at home,
/// when castling starts from the king's home square.
pub proof fn lemma_make_keeps_rights_at_home(p: Position, mv: Move)
    requires
        move_fits(p, mv),
        rights_at_home(p),
        castle_flag(mv.flag_bits()) ==> mv.from_sq() == king_home(p.active_color),
    ensures
        rights_at_home(make_position(p, mv)),
{
    mv.lemma_squares();
    let f = mv.from_sq() as int;
    let t = mv.to_sq() as int;
    let cr = p.castling;
    let m1 = castling_mask(f);
    let m2 = castling_mask(t);
    lemma_castling_mask_bits(cr, m1, m2, 1);
    lemma_castling_mask_bits(cr, m1, m2, 2);
    lemma_castling_mask_bits(cr, m1, m2, 3);
    lemma_castling_mask_bits(cr, m1, m2, 4);
    lemma_castling_mask_bits(cr, m1, m2, 8);
    lemma_castling_mask_bits(cr, m1, m2, 12);
    assert(0b1110u8 & 1 == 0 && 0b1100u8 & 3 == 0 && 0b1101u8 & 2 == 0 && 0b1011u8 & 4 == 0 && 0b0011u8 & 12 == 0
        && 0b0111u8 & 8 == 0 && 0b1100u8 & 1 == 0 && 0b1100u8 & 2 == 0 && 0b0011u8 & 4 == 0 && 0b0011u8 & 8 == 0) by (bit_vector);
}


/// The number of kings of colour `c` on the first `n` squares.
pub open spec fn kings(mb: Seq<Option<Piece>>, c: Color, n: int) -> int
    decreases n,
{
    if n <= 0 {
        0
    } else {
        kings(mb, c, n - 1) + if mb[n - 1] == Some(piece_of_kind(5, c)) { 1int } else { 0int }
    }
}

/// Writing one square changes the king count by what leaves and what
/// comes.
proof fn lemma_kings_update(mb: Seq<Option<Piece>>, c: Color, n: int, i: int, v: Option<Piece>)
    requires
        0 <= i < mb.len(),
        n <= mb.len(),
    ensures
        kings(mb.update(i, v), c, n) == kings(mb, c, n) + if i < n {
            (if v == Some(piece_of_kind(5, c)) { 1int } else { 0int }) - (if mb[i] == Some(piece_of_kind(5, c)) { 1int } else { 0int })
        } else {
            0int
        },
    decreases n,
{
    if n > 0 {
        lemma_kings_update(mb, c, n - 1, i, v);
    }
}

/// A move never adds a king: each side has at most as many kings after it
/// as before, so a position with at most one king a side keeps that.
pub proof fn lemma_make_adds_no_king(p: Position, mv: Move, c: Color)
    requires
        move_fits(p, mv),
    ensures
        kings(make_position(p, mv).mailbox, c, 64) <= kings(p.mailbox, c, 64),
{
    broadcast use group_move_squares;
    let f = mv.from_sq() as int;
    let t = mv.to_sq() as int;
    let code = mv.flag_bits();
    let pc = p.active_color;
    let mb = p.mailbox;
    let k = Some(piece_of_kind(5, c));
    let m1 = if castle_flag(code) {
        mb.update(rook_from(pc, code), None).update(rook_to(pc, code), Some(piece_of_kind(3, pc)))
    } else {
        mb
    };
    if castle_flag(code) {
        lemma_kings_update(mb, c, 64, rook_from(pc, code), None);
        lemma_kings_update(mb.update(rook_from(pc, code), None), c, 64, rook_to(pc, code), Some(piece_of_kind(3, pc)));
        assert(Some(piece_of_kind(3, pc)) != k);
    }
    assert(kings(m1, c, 64) <= kings(mb, c, 64));
    let m2 = side_effects(p, mv);
    if code == 5 {
        lemma_kings_update(m1, c, 64, behind(pc, t), None);
    }
    assert(kings(m2, c, 64) <= kings(mb, c, 64));
    assert(m2[f] == mb[f]);
    let m3 = m2.update(f, None);
    lemma_kings_update(m2, c, 64, f, None);
    lemma_kings_update(m3, c, 64, t, Some(placed_piece(p, mv)));
    if promotion_flag(code) {
        assert(Some(placed_piece(p, mv)) != k);
    } else {
        assert(Some(placed_piece(p, mv)) == mb[f]);
    }
}

/// A castling right survives masking exactly when the rights and both
/// masks hold it; the bits of the castling masks.
proof fn lemma_right_survives(cr: u8, m1: u8, m2: u8)
    by (bit_vector)
    ensures
        (((cr & m1) & m2) & 1 != 0) == (cr & 1 != 0 && m1 & 1 != 0 && m2 & 1 != 0),
        (((cr & m1) & m2) & 2 != 0) == (cr & 2 != 0 && m1 & 2 != 0 && m2 & 2 != 0),
        (((cr & m1) & m2) & 4 != 0) == (cr & 4 != 0 && m1 & 4 != 0 && m2 & 4 != 0),
        (((cr & m1) & m2) & 8 != 0) == (cr & 8 != 0 && m1 & 8 != 0 && m2 & 8 != 0),
        0b1110u8 & 1 == 0 && 0b1110u8 & 2 != 0 && 0b1110u8 & 4 != 0 && 0b1110u8 & 8 != 0,
        0b1100u8 & 1 == 0 && 0b1100u8 & 2 == 0 && 0b1100u8 & 4 != 0 && 0b1100u8 & 8 != 0,
        0b1101u8 & 1 != 0 && 0b1101u8 & 2 == 0 && 0b1101u8 & 4 != 0 && 0b1101u8 & 8 != 0,
        0b1011u8 & 1 != 0 && 0b1011u8 & 2 != 0 && 0b1011u8 & 4 == 0 && 0b1011u8 & 8 != 0,
        0b0011u8 & 1 != 0 && 0b0011u8 & 2 != 0 && 0b0011u8 & 4 == 0 && 0b0011u8 & 8 == 0,
        0b0111u8 & 1 != 0 && 0b0111u8 & 2 != 0 && 0b0111u8 & 4 != 0 && 0b0111u8 & 8 == 0,
        0b1111u8 & 1 != 0 && 0b1111u8 & 2 != 0 && 0b1111u8 & 4 != 0 && 0b1111u8 & 8 != 0,
{
}

/// A move clears exactly the castling rights whose king or rook home
/// square it leaves or lands on: white's kingside right goes with e1 or h1,
/// its queenside right with e1 or a1, black's kingside right with e8 or h8
/// and its queenside right with e8 or a8; every other right stays.
pub proof fn lemma_make_castling_rights(p: Position, mv: Move)
    ensures
        ({
            let f = mv.from_sq() as int;
            let t = mv.to_sq() as int;
            let cr = p.castling;
            let q = make_position(p, mv).castling;
            &&& (q & 1 != 0) == (cr & 1 != 0 && f != 4 && f != 7 && t != 4 && t != 7)
            &&& (q & 2 != 0) == (cr & 2 != 0 && f != 4 && f != 0 && t != 4 && t != 0)
            &&& (q & 4 != 0) == (cr & 4 != 0 && f != 60 && f != 63 && t != 60 && t != 63)
            &&& (q & 8 != 0) == (cr & 8 != 0 && f != 60 && f != 56 && t != 60 && t != 56)
        }),
{
    let f = mv.from_sq() as int;
    let t = mv.to_sq() as int;
    lemma_right_survives(p.castling, castling_mask(f), castling_mask(t));
}

/// A square next to a king of colour `c` (one rank and one file at most
/// away, and not the king's own square) is attacked by `c`, whatever the
/// occupancy and whether or not the defending king is seen through.
pub proof fn lemma_king_neighbour_attacked(pieces: Seq<u64>, all: u64, sq: int, c: Color, xray: bool, u: int)
    requires
        0 <= sq < 64,
        0 <= u < 64,
        u != sq,
        -1 <= u / 8 - sq / 8 <= 1,
        -1 <= u % 8 - sq % 8 <= 1,
        has_bit(pieces[bb_index(5, c)], u),
    ensures
        attacked_by(pieces, all, sq, c, xray),
{
    assert(crate::attacks::king_attack(sq, u));
    assert(king_threat(pieces, sq, c));
}

/// A knight of colour `c` a knight's jump from `sq` (two ranks and one
/// file, or one rank and two files) attacks `sq`.
pub proof fn lemma_knight_jump_attacked(pieces: Seq<u64>, all: u64, sq: int, c: Color, xray: bool, u: int)
    requires
        0 <= sq < 64,
        0 <= u < 64,
        ({
            let dr = u / 8 - sq / 8;
            let df = u % 8 - sq % 8;
            ((dr == 1 || dr == -1) && (df == 2 || df == -2)) || ((dr == 2 || dr == -2) && (df == 1 || df == -1))
        }),
        has_bit(pieces[bb_index(1, c)], u),
    ensures
        attacked_by(pieces, all, sq, c, xray),
{
    assert(crate::attacks::knight_attack(sq, u));
    assert(knight_threat(pieces, sq, c));
}

/// A pawn attacks the two squares diagonally ahead of it: a white pawn on
/// `u` attacks the squares one rank up and one file aside, a black pawn the
/// squares one rank down and one file aside.
pub proof fn lemma_pawn_diagonal_attacked(pieces: Seq<u64>, all: u64, sq: int, c: Color, xray: bool, u: int)
    requires
        0 <= sq < 64,
        0 <= u < 64,
        sq / 8 == u / 8 + (if c == Color::White { 1int } else { -1int }),
        sq % 8 == u % 8 + 1 || sq % 8 == u % 8 - 1,
        has_bit(pieces[bb_index(0, c)], u),
    ensures
        attacked_by(pieces, all, sq, c, xray),
{
    if c == Color::White {
        assert(crate::attacks::black_pawn_attack(sq, u));
    } else {
        assert(crate::attacks::white_pawn_attack(sq, u));
    }
    assert(pawn_threat(pieces, sq, c));
}

/// A rook or queen on the same rank or file as `sq`, and a bishop or queen
/// on the same diagonal, attacks `sq` when every square strictly between
/// them is empty: the slider sits `n` steps of (`dr`, `df`) away.
pub proof fn lemma_slider_line_attacked(pieces: Seq<u64>, all: u64, sq: int, c: Color, xray: bool, dr: int, df: int, n: int)
    requires
        0 <= sq < 64,
        -1 <= dr <= 1,
        -1 <= df <= 1,
        dr != 0 || df != 0,
        1 <= n,
        on_board(sq / 8 + scale(n, dr), sq % 8 + scale(n, df)),
        forall|k: int| 1 <= k < n ==> !has_bit(all, #[trigger] square_at(sq / 8 + scale(k, dr), sq % 8 + scale(k, df))),
        ({
            let u = square_at(sq / 8 + scale(n, dr), sq % 8 + scale(n, df));
            has_bit(pieces[bb_index(if dr == 0 || df == 0 { 3 } else { 2 }, c)], u) || has_bit(pieces[bb_index(4, c)], u)
        }),
    ensures
        attacked_by(pieces, all, sq, c, xray),
{
    let r = sq / 8;
    let f = sq % 8;
    let u = square_at(r + scale(n, dr), f + scale(n, df));
    let occ = if xray { all & !pieces[bb_index(5, opposite(c))] } else { all };
    let straight = dr == 0 || df == 0;
    let mask = if straight { ROOK_MASKS[sq] } else { BISHOP_MASKS[sq] };
    let m = mask & occ;
    assert(n <= 7) by {
        assert(on_board(r + scale(n, dr), f + scale(n, df)));
    }
    assert forall|k: int| 1 <= k < n implies !has_bit(m, #[trigger] square_at(r + scale(k, dr), f + scale(k, df))) by {
        let x = square_at(r + scale(k, dr), f + scale(k, df));
        assert(!has_bit(all, x));
        lemma_has_bit_and(mask, occ, x);
        lemma_has_bit_and(all, !pieces[bb_index(5, opposite(c))], x);
    }
    crate::magic_bitboard::lemma_slide_reaches(r, f, dr, df, m, n, 7);
    let step = dr * 8 + df;
    assert(crate::magic_bitboard::step_rank(step) == dr && crate::magic_bitboard::step_file(step) == df);
    assert(crate::magic_bitboard::ray_attack(sq, step, m, u));
    if straight {
        assert(rook_attack(sq, ROOK_MASKS[sq] & occ, u));
        assert(straight_threat(pieces, occ, sq, c));
    } else {
        assert(bishop_attack(sq, BISHOP_MASKS[sq] & occ, u));
        assert(diagonal_threat(pieces, occ, sq, c));
    }
}

/// A side with no pieces attacks no square.
pub proof fn lemma_no_pieces_no_attack(pieces: Seq<u64>, all: u64, sq: int, c: Color, xray: bool)
    requires
        forall|k: int| 0 <= k < 6 ==> #[trigger] pieces[bb_index(k, c)] == 0,
    ensures
        !attacked_by(pieces, all, sq, c, xray),
{
    assert(pieces[bb_index(0, c)] == 0 && pieces[bb_index(1, c)] == 0 && pieces[bb_index(2, c)] == 0);
    assert(pieces[bb_index(3, c)] == 0 && pieces[bb_index(4, c)] == 0 && pieces[bb_index(5, c)] == 0);
    assert forall|u: int| !has_bit(0u64, u) by {
        crate::bitboard::lemma_has_bit_zero(u);
    }
}

/// Castling moves the king two files and the rook over to the square the
/// king crossed: e1g1 leaves the king on g1 and the rook on f1 with e1 and
/// h1 empty, e1c1 the king on c1 and the rook on d1 with e1 and a1 empty,
/// and the same on the eighth rank for black.
pub proof fn lemma_make_castle_moves_rook(p: Position, mv: Move)
    requires
        move_fits(p, mv),
        mv.flag_bits() == 2 || mv.flag_bits() == 3,
        mv.from_sq() == (if p.active_color == Color::White { 4u8 } else { 60u8 }),
        mv.to_sq() == mv.from_sq() + (if mv.flag_bits() == 2 { 2int } else { -2int }),
        p.mailbox[mv.from_sq() as int] == Some(piece_of_kind(5, p.active_color)),
    ensures
        ({
            let q = make_position(p, mv).mailbox;
            let c = p.active_color;
            let king = Some(piece_of_kind(5, c));
            let rook = Some(piece_of_kind(3, c));
            &&& c == Color::White && mv.flag_bits() == 2 ==> q[6] == king && q[5] == rook && q[4] is None && q[7] is None
            &&& c == Color::White && mv.flag_bits() == 3 ==> q[2] == king && q[3] == rook && q[4] is None && q[0] is None
            &&& c == Color::Black && mv.flag_bits() == 2 ==> q[62] == king && q[61] == rook && q[60] is None && q[63] is None
            &&& c == Color::Black && mv.flag_bits() == 3 ==> q[58] == king && q[59] == rook && q[60] is None && q[56] is None
        }),
{
    let c = p.active_color;
    let code = mv.flag_bits();
    assert(!promotion_flag(code) && castle_flag(code));
    assert(placed_piece(p, mv) == piece_of_kind(5, c));
    assert(rook_from(c, code) != mv.from_sq() && rook_to(c, code) != mv.to_sq());
}

} // verus!
