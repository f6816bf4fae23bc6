use vstd::prelude::*;

verus! {

/// A move packed into 16 bits: bits 0-5 hold the origin square, bits 6-11 the
/// destination square and bits 12-15 the move flag.
#[derive(Debug, Clone, Copy, PartialEq, Eq, Structural)]
pub struct Move(u16);

/// The kind of a move, stored in the upper four bits of a `Move`.
#[derive(Debug, Clone, Copy, PartialEq, Eq, Structural)]
pub enum MoveFlag {
    QuietMove,
    DoublePawnPush,
    KingCastle,
    QueenCastle,
    Capture,
    EnPassant,
    PromoteN,
    PromoteB,
    PromoteR,
    PromoteQ,
    PromoteCaptureN,
    PromoteCaptureB,
    PromoteCaptureR,
    PromoteCaptureQ,
}

/// The four-bit code of each flag.
pub open spec fn flag_code(flag: MoveFlag) -> u16 {
    match flag {
        MoveFlag::QuietMove => 0,
        MoveFlag::DoublePawnPush => 1,
        MoveFlag::KingCastle => 2,
        MoveFlag::QueenCastle => 3,
        MoveFlag::Capture => 4,
        MoveFlag::EnPassant => 5,
        MoveFlag::PromoteN => 8,
        MoveFlag::PromoteB => 9,
        MoveFlag::PromoteR => 10,
        MoveFlag::PromoteQ => 11,
        MoveFlag::PromoteCaptureN => 12,
        MoveFlag::PromoteCaptureB => 13,
        MoveFlag::PromoteCaptureR => 14,
        MoveFlag::PromoteCaptureQ => 15,
    }
}

/// A four-bit code names a flag unless it is 6 or 7.
pub open spec fn is_flag_code(code: u16) -> bool {
    code < 16 && code != 6 && code != 7
}

impl MoveFlag {
    /// The four-bit code of this flag.
    pub fn code(&self) -> (c: u16)
        ensures
            c == flag_code(*self),
    {
        match self {
            MoveFlag::QuietMove => 0,
            MoveFlag::DoublePawnPush => 1,
            MoveFlag::KingCastle => 2,
            MoveFlag::QueenCastle => 3,
            MoveFlag::Capture => 4,
            MoveFlag::EnPassant => 5,
            MoveFlag::PromoteN => 8,
            MoveFlag::PromoteB => 9,
            MoveFlag::PromoteR => 10,
            MoveFlag::PromoteQ => 11,
            MoveFlag::PromoteCaptureN => 12,
            MoveFlag::PromoteCaptureB => 13,
            MoveFlag::PromoteCaptureR => 14,
            MoveFlag::PromoteCaptureQ => 15,
        }
    }
}

impl Move {
    /// The packed 16 bits of the move.
    pub closed spec fn bits(self) -> u16 {
        self.0
    }

    #[verifier::type_invariant]
    closed spec fn inv(self) -> bool {
        is_flag_code(self.0 >> 12)
    }

    /// Two moves are equal exactly when their bits are.
    pub proof fn lemma_bits_eq(a: Move, b: Move)
        ensures
            (a == b) <==> a.bits() == b.bits(),
    {
    }

    /// Origin square of the move.
    pub open spec fn from_sq(self) -> u8 {
        (self.bits() & 0x3F) as u8
    }

    /// Destination square of the move.
    pub open spec fn to_sq(self) -> u8 {
        ((self.bits() & 0xFC0) >> 6) as u8
    }

    /// Both squares of a move are on the board.
    pub broadcast proof fn lemma_squares(self)
        ensures
            #[trigger] self.from_sq() < 64,
            self.to_sq() < 64,
    {
        lemma_field_bits(self.bits());
    }

    /// Flag code of the move.
    pub open spec fn flag_bits(self) -> u16 {
        self.bits() >> 12
    }

    /// The move that packs `from`, `to` and `flag`.
    pub open spec fn pack(from: u8, to: u8, flag: MoveFlag) -> u16 {
        (from as u16 | (to as u16) << 6 | flag_code(flag) << 12) as u16
    }

    /// The move that packs `from`, `to` and `flag`, as a value.
    pub closed spec fn made(from: u8, to: u8, flag: MoveFlag) -> Move {
        Move(Move::pack(from, to, flag))
    }

    /// The squares and the flag of a packed move.
    pub proof fn lemma_made(from: u8, to: u8, flag: MoveFlag)
        requires
            from < 64,
            to < 64,
        ensures
            Move::made(from, to, flag).from_sq() == from,
            Move::made(from, to, flag).to_sq() == to,
            Move::made(from, to, flag).flag_bits() == flag_code(flag),
            Move::made(from, to, flag).bits() == Move::pack(from, to, flag),
    {
        let f = from as u16;
        let t = to as u16;
        let c = flag_code(flag);
        assert(c < 16);
        lemma_pack_bits(f, t, c);
    }

    /// A packed move keeps its flag whatever its origin byte.
    pub proof fn lemma_made_flag(from: u8, to: u8, flag: MoveFlag)
        requires
            to < 64,
        ensures
            Move::made(from, to, flag).flag_bits() == flag_code(flag),
    {
        lemma_pack_bits(from as u16, to as u16, flag_code(flag));
    }

    /// The null move: all bits zero.
    pub fn null() -> (m: Move)
        ensures
            m.bits() == 0,
    {
        proof {
            lemma_field_bits(0);
        }
        Move(0)
    }

    pub fn new(from: u8, to: u8, flag: MoveFlag) -> (m: Move)
        requires
            to < 64,
        ensures
            m.bits() == Move::pack(from, to, flag),
            from < 64 ==> m.from_sq() == from,
            from < 64 ==> m.to_sq() == to,
            m.flag_bits() == flag_code(flag),
            m == Move::made(from, to, flag),
    {
        let c = flag.code();
        let f = from as u16;
        let t = to as u16;
        let b = f | t << 6 | c << 12;
        proof {
            lemma_pack_bits(f, t, c);
        }
        Move(b)
    }
}


/// The fields of packed move bits: both squares are below 64, the null
/// move has flag code 0, and bit 15 marks the flag codes from 8 on.
proof fn lemma_field_bits(b: u16)
    by (bit_vector)
    ensures
        b & 0x3F < 64,
        (b & 0xFC0) >> 6 < 64,
        (0u16 >> 12u16) == 0,
        b & 0x8000 == 0 <==> b >> 12 < 8,
{
}

/// Packing an origin byte, a square and a flag code keeps the flag code,
/// and keeps both squares when the origin is one.
proof fn lemma_pack_bits(f: u16, t: u16, c: u16)
    by (bit_vector)
    requires
        f < 256,
        t < 64,
        c < 16,
    ensures
        (f | t << 6 | c << 12) >> 12 == c,
        f < 64 ==> (f | t << 6 | c << 12) & 0x3F == f,
        f < 64 ==> ((f | t << 6 | c << 12) & 0xFC0) >> 6 == t,
{
}

/// The flag that a four-bit code names.
pub open spec fn flag_of_code(code: u16) -> MoveFlag {
    if code == 0 { MoveFlag::QuietMove }
    else if code == 1 { MoveFlag::DoublePawnPush }
    else if code == 2 { MoveFlag::KingCastle }
    else if code == 3 { MoveFlag::QueenCastle }
    else if code == 4 { MoveFlag::Capture }
    else if code == 5 { MoveFlag::EnPassant }
    else if code == 8 { MoveFlag::PromoteN }
    else if code == 9 { MoveFlag::PromoteB }
    else if code == 10 { MoveFlag::PromoteR }
    else if code == 11 { MoveFlag::PromoteQ }
    else if code == 12 { MoveFlag::PromoteCaptureN }
    else if code == 13 { MoveFlag::PromoteCaptureB }
    else if code == 14 { MoveFlag::PromoteCaptureR }
    else { MoveFlag::PromoteCaptureQ }
}

/// Algebraic name of a square, file letter then rank digit; squares past 63
/// give the characters that follow 'h' and '8'.
pub open spec fn square_name(square: u8) -> Seq<char> {
    seq![(97 + square % 8) as char, (49 + square / 8) as char]
}

/// Letter of the piece a promotion flag promotes to.
pub open spec fn promotion_letter(flag: MoveFlag) -> Seq<char> {
    match flag {
        MoveFlag::PromoteN | MoveFlag::PromoteCaptureN => seq!['n'],
        MoveFlag::PromoteB | MoveFlag::PromoteCaptureB => seq!['b'],
        MoveFlag::PromoteR | MoveFlag::PromoteCaptureR => seq!['r'],
        MoveFlag::PromoteQ | MoveFlag::PromoteCaptureQ => seq!['q'],
        _ => seq![],
    }
}

/// Long algebraic notation of a move, as a UCI engine writes it.
pub open spec fn move_text(m: Move) -> Seq<char> {
    square_name(m.from_sq()) + square_name(m.to_sq()) + promotion_letter(flag_of_code(m.flag_bits()))
}

/// Appends a character to a string (`String::push`).
#[verifier::external_body]
pub(crate) fn push_char(s: &mut String, c: char)
    ensures
        final(s)@ == old(s)@.push(c),
{
    s.push(c);
}

/// Algebraic name of a square.
pub fn square_to_str(square: u8) -> (s: String)
    ensures
        s@ == square_name(square),
{
    let rank = square / 8;
    let file = square % 8;
    let rank_char = (49u8 + rank) as char;
    let file_char = (97u8 + file) as char;
    let mut s = String::new();
    push_char(&mut s, file_char);
    push_char(&mut s, rank_char);
    assert(s@ =~= square_name(square));
    s
}

impl Move {
    pub fn get_from(&self) -> (r: u8)
        ensures
            r == self.from_sq(),
            r < 64,
    {
        let b = self.0;
        proof {
            lemma_field_bits(b);
        }
        (b & 0x3F) as u8
    }

    pub fn get_to(&self) -> (r: u8)
        ensures
            r == self.to_sq(),
            r < 64,
    {
        let b = self.0;
        proof {
            lemma_field_bits(b);
        }
        ((b & 0xFC0) >> 6) as u8
    }

    pub fn get_flag(&self) -> (f: MoveFlag)
        ensures
            flag_code(f) == self.flag_bits(),
            f == flag_of_code(self.flag_bits()),
            is_flag_code(self.flag_bits()),
    {
        proof {
            use_type_invariant(self);
        }
        let code = self.0 >> 12;
        match code {
            0 => MoveFlag::QuietMove,
            1 => MoveFlag::DoublePawnPush,
            2 => MoveFlag::KingCastle,
            3 => MoveFlag::QueenCastle,
            4 => MoveFlag::Capture,
            5 => MoveFlag::EnPassant,
            8 => MoveFlag::PromoteN,
            9 => MoveFlag::PromoteB,
            10 => MoveFlag::PromoteR,
            11 => MoveFlag::PromoteQ,
            12 => MoveFlag::PromoteCaptureN,
            13 => MoveFlag::PromoteCaptureB,
            14 => MoveFlag::PromoteCaptureR,
            _ => MoveFlag::PromoteCaptureQ,
        }
    }

    /// Capture flags have bit 14 set.
    pub fn is_capture(&self) -> (r: bool)
        ensures
            r == (self.bits() & 0x4000 != 0),
    {
        self.0 & 0x4000 != 0
    }

    pub fn is_en_passant(&self) -> (r: bool)
        ensures
            r == (self.flag_bits() == 5),
    {
        self.get_flag() == MoveFlag::EnPassant
    }

    /// Promotion flags have bit 15 set.
    pub fn is_promotion(&self) -> (r: bool)
        ensures
            r == (self.bits() & 0x8000 != 0),
    {
        self.0 & 0x8000 != 0
    }

    pub fn is_present(&self) -> (r: bool)
        ensures
            r == (self.bits() != 0),
    {
        !self.is_null()
    }

    pub fn is_null(&self) -> (r: bool)
        ensures
            r == (self.bits() == 0),
    {
        self.0 == 0
    }

    /// Long algebraic notation of the move.
    pub fn to_string(&self) -> (s: String)
        ensures
            s@ == move_text(*self),
    {
        let from = self.get_from();
        let to = self.get_to();
        let mut s = String::new();
        push_char(&mut s, (97u8 + from % 8) as char);
        push_char(&mut s, (49u8 + from / 8) as char);
        push_char(&mut s, (97u8 + to % 8) as char);
        push_char(&mut s, (49u8 + to / 8) as char);
        if self.is_promotion() {
            match self.get_flag() {
                MoveFlag::PromoteN | MoveFlag::PromoteCaptureN => push_char(&mut s, 'n'),
                MoveFlag::PromoteB | MoveFlag::PromoteCaptureB => push_char(&mut s, 'b'),
                MoveFlag::PromoteR | MoveFlag::PromoteCaptureR => push_char(&mut s, 'r'),
                MoveFlag::PromoteQ | MoveFlag::PromoteCaptureQ => push_char(&mut s, 'q'),
                _ => {},
            }
        }
        proof {
            use_type_invariant(self);
            lemma_field_bits(self.bits());
        }
        assert(s@ =~= move_text(*self));
        s
    }
}

} // verus!
