use vstd::prelude::*;
use crate::board::{count_piece_below, Board, CastlingRights, Piece, Color, Position, char_piece, piece_index, pieces_match, mailbox_phase, phase_of, position_hash, lemma_put_match, lemma_last_piece_matches, lemma_phase_matches, lemma_piece_index, last_piece_at};
use crate::bitboard::sq_bit;
use crate::tables::Tables;

verus! {

/// What reading a text gives: a value, an error message, or a panic of the
/// reader.
pub enum Outcome<T> {
    Value(T),
    Error(&'static str),
    Panic,
}

/// Unicode white space, where `str::split_whitespace` splits a text.
pub open spec fn is_space(c: char) -> bool {
    let u = c as u32;
    (0x9 <= u <= 0xd) || u == 0x20 || u == 0x85 || u == 0xa0 || u == 0x1680 || (0x2000 <= u
        <= 0x200a) || u == 0x2028 || u == 0x2029 || u == 0x202f || u == 0x205f || u == 0x3000
}

/// Tells whether a character is Unicode white space.
pub fn is_space_char(c: char) -> (r: bool)
    ensures
        r == is_space(c),
{
    let u = c as u32;
    (0x9 <= u && u <= 0xd) || u == 0x20 || u == 0x85 || u == 0xa0 || u == 0x1680 || (0x2000 <= u
        && u <= 0x200a) || u == 0x2028 || u == 0x2029 || u == 0x202f || u == 0x205f || u == 0x3000
}

/// The words of a text: its maximal runs of characters that are not white
/// space, in order.
pub open spec fn words(s: Seq<char>) -> Seq<Seq<char>>
    decreases s.len(),
{
    if s.len() == 0 {
        seq![]
    } else {
        let w = words(s.drop_last());
        let c = s.last();
        if is_space(c) {
            w
        } else if s.len() >= 2 && !is_space(s[s.len() - 2]) {
            w.update(w.len() - 1, w.last().push(c))
        } else {
            w.push(seq![c])
        }
    }
}

/// A text that ends in a character other than white space has a word.
proof fn lemma_words_nonempty(s: Seq<char>)
    requires
        s.len() > 0,
        !is_space(s.last()),
    ensures
        words(s).len() > 0,
    decreases s.len(),
{
    if s.len() >= 2 && !is_space(s[s.len() - 2]) {
        assert(s.drop_last().last() == s[s.len() - 2]);
        lemma_words_nonempty(s.drop_last());
    }
}

pub open spec fn texts_view(v: Seq<Vec<char>>) -> Seq<Seq<char>> {
    v.map_values(|w: Vec<char>| w@)
}

/// The characters of a string, in order.
pub fn chars_of(s: &str) -> (v: Vec<char>)
    ensures
        v@ == s@,
{
    broadcast use vstd::string::axiom_spec_iter;

    let mut v: Vec<char> = Vec::new();
    for c in it: s.chars()
        invariant
            v@ == it.seq().take(it.index() as int),
    {
        proof {
            assert(it.seq().take(it.index() + 1) =~= it.seq().take(it.index() as int).push(c));
        }
        v.push(c);
    }
    assert(v@ =~= s@);
    v
}

/// Splits a text into its words, as `str::split_whitespace` does.
pub fn split_words(s: &Vec<char>) -> (r: Vec<Vec<char>>)
    ensures
        texts_view(r@) == words(s@),
{
    let mut r: Vec<Vec<char>> = Vec::new();
    let mut cur: Vec<char> = Vec::new();
    let mut i: usize = 0;
    while i < s.len()
        invariant
            i <= s.len(),
            words(s@.take(i as int)) == if cur.len() > 0 {
                texts_view(r@).push(cur@)
            } else {
                texts_view(r@)
            },
            cur.len() > 0 <==> (i > 0 && !is_space(s@[i - 1])),
        decreases s.len() - i,
    {
        let c = s[i];
        let ghost r0 = r@;
        let ghost cur0 = cur@;
        proof {
            let t = s@.take(i + 1);
            assert(t.drop_last() =~= s@.take(i as int));
            assert(t.last() == c);
            if i > 0 {
                assert(t[t.len() - 2] == s@[i - 1]);
            }
        }
        if is_space_char(c) {
            if cur.len() > 0 {
                r.push(cur);
                cur = Vec::new();
                proof {
                    assert(texts_view(r@) =~= texts_view(r0).push(cur0));
                }
            }
        } else {
            cur.push(c);
            proof {
                if cur0.len() > 0 {
                    let w = texts_view(r0).push(cur0);
                    assert(w.update(w.len() - 1, w.last().push(c)) =~= texts_view(r0).push(cur@));
                } else {
                    assert(cur@ =~= seq![c]);
                }
            }
        }
        i += 1;
    }
    let ghost r0 = r@;
    let ghost cur0 = cur@;
    if cur.len() > 0 {
        r.push(cur);
        proof {
            assert(texts_view(r@) =~= texts_view(r0).push(cur0));
        }
    }
    assert(s@.take(s@.len() as int) =~= s@);
    r
}

/// Where reading the piece placement field has got to.
pub enum Placement {
    /// Reading section `section` (rank 8 first) at file `file`, with the
    /// pieces placed so far.
    Placing { section: nat, file: nat, mailbox: Seq<Option<Piece>> },
    /// The field was refused with a message.
    Failed(&'static str),
    /// The reader's counters would overflow.
    Overflowed,
}

pub open spec fn empty_mailbox() -> Seq<Option<Piece>> {
    Seq::new(64, |i: int| None)
}

pub open spec fn is_digit_1_8(c: char) -> bool {
    0x31 <= (c as u32) <= 0x38
}

/// Reads one character of the piece placement field.
pub open spec fn placement_step(st: Placement, c: char) -> Placement {
    match st {
        Placement::Placing { section, file, mailbox } => {
            if c == '/' {
                if section + 1 > 7 {
                    Placement::Overflowed
                } else {
                    Placement::Placing { section: section + 1, file: 0, mailbox }
                }
            } else if is_digit_1_8(c) {
                let f = file + ((c as u32) - 0x30);
                if f > 255 {
                    Placement::Overflowed
                } else {
                    Placement::Placing { section, file: f as nat, mailbox }
                }
            } else if file >= 8 {
                Placement::Failed("fen rank field overflows 8 files")
            } else {
                match char_piece(c) {
                    None => Placement::Failed("invalid piece char"),
                    Some(p) => Placement::Placing {
                        section,
                        file: file + 1,
                        mailbox: mailbox.update((7 - section) * 8 + file, Some(p)),
                    },
                }
            }
        },
        _ => st,
    }
}

/// Reads a piece placement field: its sections, split at `/`, fill the
/// ranks from the eighth down; a digit skips that many files, a letter
/// places a piece.
pub open spec fn placement(s: Seq<char>) -> Placement
    decreases s.len(),
{
    if s.len() == 0 {
        Placement::Placing { section: 0, file: 0, mailbox: empty_mailbox() }
    } else {
        placement_step(placement(s.drop_last()), s.last())
    }
}

/// While placing, the ranks below the current one are empty, and so are
/// the squares of the current rank from the current file on.
pub open spec fn placement_inv(st: Placement) -> bool {
    match st {
        Placement::Placing { section, file, mailbox } => {
            &&& section <= 7
            &&& mailbox.len() == 64
            &&& forall|q: int|
                0 <= q < 64 && (#[trigger] mailbox[q]) is Some ==> (q / 8 > 7 - section || (q / 8
                    == 7 - section && q % 8 < file))
        },
        _ => true,
    }
}

pub proof fn lemma_placement_inv(s: Seq<char>)
    ensures
        placement_inv(placement(s)),
    decreases s.len(),
{
    if s.len() > 0 {
        lemma_placement_inv(s.drop_last());
        let st = placement(s.drop_last());
        let c = s.last();
        if let Placement::Placing { section, file, mailbox } = st {
            if c != '/' && !is_digit_1_8(c) && file < 8 {
                if let Some(p) = char_piece(c) {
                    let t = (7 - section) * 8 + file;
                    let m2 = mailbox.update(t, Some(p));
                    assert forall|q: int|
                        0 <= q < 64 && (#[trigger] m2[q]) is Some implies (q / 8 > 7 - section || (q
                        / 8 == 7 - section && q % 8 < file + 1)) by {
                        if q != t {
                            assert(mailbox[q] is Some);
                        }
                    }
                }
            }
        }
    }
}

/// A refusal or an overflow met on a prefix stays to the end.
pub proof fn lemma_placement_stuck(s: Seq<char>, i: int)
    requires
        0 <= i <= s.len(),
        !(placement(s.take(i)) is Placing),
    ensures
        placement(s) == placement(s.take(i)),
    decreases s.len() - i,
{
    if i < s.len() {
        assert(s.take(i + 1).drop_last() =~= s.take(i));
        lemma_placement_stuck(s, i + 1);
    } else {
        assert(s.take(i) =~= s);
    }
}

/// Castling rights of a castling field other than `-`: `K`, `Q`, `k`, `q`
/// add their right; any other character makes it invalid.
pub open spec fn castling_bits(s: Seq<char>) -> Option<u8>
    decreases s.len(),
{
    if s.len() == 0 {
        Some(0u8)
    } else {
        match castling_bits(s.drop_last()) {
            None => None,
            Some(b) => {
                let c = s.last();
                if c == 'K' {
                    Some(b | 1u8)
                } else if c == 'Q' {
                    Some(b | 2u8)
                } else if c == 'k' {
                    Some(b | 4u8)
                } else if c == 'q' {
                    Some(b | 8u8)
                } else {
                    None
                }
            },
        }
    }
}

/// Number of bytes of a character in UTF-8.
pub open spec fn char_width(c: char) -> nat {
    let u = c as u32;
    if u < 0x80 {
        1
    } else if u < 0x800 {
        2
    } else if u < 0x10000 {
        3
    } else {
        4
    }
}

/// Number of bytes of a text in UTF-8.
pub open spec fn utf8_len(s: Seq<char>) -> nat
    decreases s.len(),
{
    if s.len() == 0 {
        0
    } else {
        utf8_len(s.drop_last()) + char_width(s.last())
    }
}

/// Reads a square name such as `e3`: two bytes, a file letter `a`-`h`, a
/// rank digit `1`-`8`. A single two-byte character makes the reader panic.
pub open spec fn square_text(s: Seq<char>) -> Outcome<u8> {
    if utf8_len(s) != 2 {
        Outcome::Error("square string length must equal 2")
    } else if s.len() < 2 {
        Outcome::Panic
    } else {
        let f = s[0] as u32;
        let r = s[1] as u32;
        if !(0x61 <= f <= 0x68) {
            Outcome::Error("file char not in range a-h")
        } else if !(0x31 <= r <= 0x38) {
            Outcome::Error("rank char not in range 1-8")
        } else {
            Outcome::Value(((r - 0x31) * 8 + (f - 0x61)) as u8)
        }
    }
}

/// Reading the name of a square gives the square back.
pub proof fn lemma_square_name_round_trip(sq: u8)
    requires
        sq < 64,
    ensures
        square_text(crate::mv::square_name(sq)) == Outcome::Value(sq),
{
    let s = crate::mv::square_name(sq);
    let f = (97 + sq % 8) as char;
    let r = (49 + sq / 8) as char;
    assert(f as u32 == 97 + sq % 8);
    assert(r as u32 == 49 + sq / 8);
    assert(s.drop_last() =~= seq![f]);
    assert(seq![f].drop_last() =~= Seq::<char>::empty());
    assert(utf8_len(Seq::<char>::empty()) == 0);
    assert(seq![f].last() == f);
    assert(char_width(f) == 1);
    assert(utf8_len(seq![f]) == 1);
    assert(utf8_len(s) == 2);
}

/// An en passant square lies on the third or the sixth rank.
pub open spec fn en_passant_rank(sq: u8) -> bool {
    (16 <= sq <= 23) || (40 <= sq <= 47)
}

/// Reads the en passant field: `-` for none, else a square on the third or
/// sixth rank.
pub open spec fn en_passant_text(s: Seq<char>) -> Outcome<Option<u8>> {
    if s == seq!['-'] {
        Outcome::Value(None)
    } else {
        match square_text(s) {
            Outcome::Value(sq) => if en_passant_rank(sq) {
                Outcome::Value(Some(sq))
            } else {
                Outcome::Error("invalid fen en passant square")
            },
            Outcome::Error(m) => Outcome::Error(m),
            Outcome::Panic => Outcome::Panic,
        }
    }
}

/// Reads the castling field: `-` for none.
pub open spec fn castling_text(s: Seq<char>) -> Option<u8> {
    if s == seq!['-'] {
        Some(0u8)
    } else {
        castling_bits(s)
    }
}

/// What reading a FEN text gives. Only its first four fields are read: the
/// piece placement, the side to move (`w` or `b`), the castling rights and
/// the en passant square; the clocks are not read and the half move clock
/// is 0. A position whose game phase does not fit in a byte makes the
/// reader panic.
pub open spec fn fen_outcome(fen: Seq<char>) -> Outcome<Position> {
    let w = words(fen);
    if w.len() < 1 {
        Outcome::Error("missing piece placement field")
    } else if w.len() < 2 {
        Outcome::Error("missing active color field")
    } else if w.len() < 3 {
        Outcome::Error("missing castling rights field")
    } else if w.len() < 4 {
        Outcome::Error("missing en passant square")
    } else {
        match placement(w[0]) {
            Placement::Failed(m) => Outcome::Error(m),
            Placement::Overflowed => Outcome::Panic,
            Placement::Placing { mailbox, .. } => {
                if w[1] != seq!['w'] && w[1] != seq!['b'] {
                    Outcome::Error("invalid fen active color field")
                } else {
                    match castling_text(w[2]) {
                        None => Outcome::Error("invalid fen castling rights char"),
                        Some(castling) => match en_passant_text(w[3]) {
                            Outcome::Error(m) => Outcome::Error(m),
                            Outcome::Panic => Outcome::Panic,
                            Outcome::Value(en_passant) => if mailbox_phase(mailbox) > 255 {
                                Outcome::Panic
                            } else {
                                Outcome::Value(
                                    Position {
                                        mailbox,
                                        castling,
                                        en_passant,
                                        half_move_clock: 0,
                                        active_color: if w[1] == seq!['w'] {
                                            Color::White
                                        } else {
                                            Color::Black
                                        },
                                    },
                                )
                            },
                        },
                    }
                }
            },
        }
    }
}


/// Castling bits read from a field hold at most the four rights.
proof fn lemma_castling_bits_range(s: Seq<char>)
    ensures
        castling_bits(s) matches Some(b) ==> b <= 15,
    decreases s.len(),
{
    if s.len() > 0 {
        lemma_castling_bits_range(s.drop_last());
        if let Some(b) = castling_bits(s.drop_last()) {
            assert(b <= 15 ==> (b | 1u8) <= 15 && (b | 2u8) <= 15 && (b | 4u8) <= 15 && (b | 8u8) <= 15) by (bit_vector);
        }
    }
}

/// A position read from a FEN text has at most the four castling rights, an
/// en passant square on the third or sixth rank if any, a half move clock of
/// 0, and White to move exactly when the second field is `w`.
pub proof fn lemma_fen_fields(fen: Seq<char>)
    ensures
        fen_outcome(fen) matches Outcome::Value(p) ==> {
            &&& p.castling <= 15
            &&& (p.en_passant matches Some(e) ==> (16 <= e <= 23) || (40 <= e <= 47))
            &&& p.half_move_clock == 0
            &&& (p.active_color == Color::White <==> words(fen)[1] == seq!['w'])
        },
{
    let w = words(fen);
    if w.len() >= 4 {
        lemma_castling_bits_range(w[2]);
    }
}

/// A refused castling field stays refused whatever follows.
proof fn lemma_castling_stuck(s: Seq<char>, i: int)
    requires
        0 <= i <= s.len(),
        castling_bits(s.take(i)) is None,
    ensures
        castling_bits(s) is None,
    decreases s.len() - i,
{
    if i < s.len() {
        assert(s.take(i + 1).drop_last() =~= s.take(i));
        lemma_castling_stuck(s, i + 1);
    } else {
        assert(s.take(i) =~= s);
    }
}

proof fn lemma_utf8_len_mono(s: Seq<char>, i: int, j: int)
    requires
        0 <= i <= j <= s.len(),
    ensures
        utf8_len(s.take(i)) <= utf8_len(s.take(j)),
    decreases j - i,
{
    if i < j {
        assert(s.take(j).drop_last() =~= s.take(j - 1));
        lemma_utf8_len_mono(s, i, j - 1);
    }
}

/// The UTF-8 length of a text, or 3 when it is longer than that.
fn utf8_len_capped(s: &Vec<char>) -> (n: usize)
    ensures
        n == if utf8_len(s@) > 3 { 3 } else { utf8_len(s@) },
{
    let mut n: usize = 0;
    let mut i: usize = 0;
    while i < s.len()
        invariant
            i <= s.len(),
            n == if utf8_len(s@.take(i as int)) > 3 { 3 } else { utf8_len(s@.take(i as int)) },
        decreases s.len() - i,
    {
        let u = s[i] as u32;
        let w: usize = if u < 0x80 {
            1
        } else if u < 0x800 {
            2
        } else if u < 0x10000 {
            3
        } else {
            4
        };
        proof {
            assert(s@.take(i + 1).drop_last() =~= s@.take(i as int));
            lemma_utf8_len_mono(s@, i as int, i + 1);
        }
        n = if n + w > 3 { 3 } else { n + w };
        i += 1;
    }
    assert(s@.take(s@.len() as int) =~= s@);
    n
}

/// Reads a square name given as characters; see `square_text`.
pub fn chars_to_square(s: &Vec<char>) -> (r: Result<u8, &'static str>)
    requires
        !(square_text(s@) is Panic),
    ensures
        match square_text(s@) {
            Outcome::Value(q) => r == Ok::<u8, &'static str>(q),
            Outcome::Error(m) => r == Err::<u8, &'static str>(m),
            Outcome::Panic => false,
        },
{
    if utf8_len_capped(s) != 2 {
        return Err("square string length must equal 2");
    }
    let file_char = s[0];
    let rank_char = s[1];
    let f = file_char as u32;
    if !(0x61 <= f && f <= 0x68) {
        return Err("file char not in range a-h");
    }
    let file = (f - 0x61) as u8;
    let r = rank_char as u32;
    if !(0x31 <= r && r <= 0x38) {
        return Err("rank char not in range 1-8");
    }
    let rank = (r - 0x31) as u8;
    Ok(rank * 8 + file)
}

/// Reads a square name such as `e3`; see `square_text`.
pub fn str_to_square(s: &str) -> (r: Result<u8, &'static str>)
    requires
        !(square_text(s@) is Panic),
    ensures
        match square_text(s@) {
            Outcome::Value(q) => r == Ok::<u8, &'static str>(q),
            Outcome::Error(m) => r == Err::<u8, &'static str>(m),
            Outcome::Panic => false,
        },
{
    let v = chars_of(s);
    chars_to_square(&v)
}

/// Whether a text is the one character `c`.
fn is_single(w: &Vec<char>, c: char) -> (r: bool)
    ensures
        r == (w@ == seq![c]),
{
    if w.len() == 1 && w[0] == c {
        assert(w@ =~= seq![c]);
        true
    } else {
        false
    }
}

impl Board {
    /// Places the pieces of a piece placement field on the bitboards.
    fn place_pieces(&mut self, w: &Vec<char>) -> (r: Result<(), &'static str>)
        requires
            forall|i: int| 0 <= i < 12 ==> old(self).pieces[i] == 0,
            !(placement(w@) is Overflowed),
        ensures
            match placement(w@) {
                Placement::Placing { mailbox, .. } => r is Ok && pieces_match(final(self).pieces, mailbox),
                Placement::Failed(m) => r == Err::<(), &'static str>(m),
                Placement::Overflowed => false,
            },
            final(self).mailbox == old(self).mailbox,
            final(self).hash_key == old(self).hash_key,
            final(self).same_state(old(self)),
    {
        let mut section: u8 = 0;
        let mut file: u8 = 0;
        let ghost mut mb = empty_mailbox();
        proof {
            assert forall|i: int, q: int| 0 <= i < 12 && 0 <= q < 64 implies #[trigger] crate::bitboard::has_bit(self.pieces[i], q) == (mb[q] == Some(crate::board::piece_of(i))) by {
                crate::bitboard::lemma_has_bit_zero(q);
            }
        }
        let mut i: usize = 0;
        while i < w.len()
            invariant
                i <= w.len(),
                placement(w@.take(i as int)) == (Placement::Placing { section: section as nat, file: file as nat, mailbox: mb }),
                pieces_match(self.pieces, mb),
                !(placement(w@) is Overflowed),
                self.mailbox == old(self).mailbox,
                self.hash_key == old(self).hash_key,
                self.same_state(old(self)),
            decreases w.len() - i,
        {
            let c = w[i];
            proof {
                lemma_placement_inv(w@.take(i as int));
                assert(w@.take(i + 1).drop_last() =~= w@.take(i as int));
                assert(w@.take(i + 1).last() == c);
            }
            if c == '/' {
                proof {
                    if section + 1 > 7 {
                        lemma_placement_stuck(w@, i + 1);
                    }
                }
                section = section + 1;
                file = 0;
            } else if 0x31 <= (c as u32) && (c as u32) <= 0x38 {
                let d = ((c as u32) - 0x30) as u8;
                proof {
                    if file + d > 255 {
                        lemma_placement_stuck(w@, i + 1);
                    }
                }
                file = file + d;
            } else {
                if file >= 8 {
                    proof {
                        lemma_placement_stuck(w@, i + 1);
                    }
                    return Err("fen rank field overflows 8 files");
                }
                let piece = match Piece::from_char(c) {
                    Ok(p) => p,
                    Err(e) => {
                        proof {
                            lemma_placement_stuck(w@, i + 1);
                        }
                        return Err(e);
                    },
                };
                let square = (7 - section) * 8 + file;
                if square >= 64 {
                    return Err("fen rank or file fields overflow 8 files");
                }
                let ghost old_pieces = self.pieces;
                self.set_piece_bit(piece, square);
                proof {
                    let q = square as int;
                    assert(q / 8 == 7 - section && q % 8 == file);
                    assert(mb[q] is None);
                    lemma_put_match(old_pieces, self.pieces, mb, piece, q);
                    mb = mb.update(q, Some(piece));
                }
                file = file + 1;
            }
            i += 1;
        }
        assert(w@.take(w@.len() as int) =~= w@);
        Ok(())
    }

    /// Adds the castling rights of a castling field other than `-`.
    fn read_castling(&mut self, w: &Vec<char>) -> (r: Result<(), &'static str>)
        requires
            old(self).castling_rights.0 == 0,
        ensures
            match castling_bits(w@) {
                Some(b) => r is Ok && final(self).castling_rights.0 == b,
                None => r == Err::<(), &'static str>("invalid fen castling rights char"),
            },
            final(self).castling_rights.0 < 16,
            final(self).pieces == old(self).pieces,
            final(self).mailbox == old(self).mailbox,
            final(self).hash_key == old(self).hash_key,
            final(self).history_ply == old(self).history_ply,
            final(self).en_passant_square == old(self).en_passant_square,
            final(self).half_move_clock == old(self).half_move_clock,
            final(self).phase_value == old(self).phase_value,
            final(self).active_color == old(self).active_color,
            final(self).white_pieces == old(self).white_pieces,
            final(self).black_pieces == old(self).black_pieces,
            final(self).all_pieces == old(self).all_pieces,
    {
        let mut i: usize = 0;
        while i < w.len()
            invariant
                i <= w.len(),
                castling_bits(w@.take(i as int)) == Some(self.castling_rights.0),
                self.castling_rights.0 < 16,
                self.pieces == old(self).pieces,
                self.mailbox == old(self).mailbox,
                self.hash_key == old(self).hash_key,
                self.history_ply == old(self).history_ply,
                self.en_passant_square == old(self).en_passant_square,
                self.half_move_clock == old(self).half_move_clock,
                self.phase_value == old(self).phase_value,
                self.active_color == old(self).active_color,
                self.white_pieces == old(self).white_pieces,
                self.black_pieces == old(self).black_pieces,
                self.all_pieces == old(self).all_pieces,
            decreases w.len() - i,
        {
            let c = w[i];
            proof {
                assert(w@.take(i + 1).drop_last() =~= w@.take(i as int));
                assert(w@.take(i + 1).last() == c);
            }
            let b = self.castling_rights.0;
            assert(b < 16 ==> (b | 1u8) < 16 && (b | 2u8) < 16 && (b | 4u8) < 16 && (b | 8u8) < 16) by (bit_vector);
            match c {
                'K' => self.castling_rights.put(CastlingRights::WHITE_KINGSIDE),
                'Q' => self.castling_rights.put(CastlingRights::WHITE_QUEENSIDE),
                'k' => self.castling_rights.put(CastlingRights::BLACK_KINGSIDE),
                'q' => self.castling_rights.put(CastlingRights::BLACK_QUEENSIDE),
                _ => {
                    proof {
                        lemma_castling_stuck(w@, i + 1);
                    }
                    return Err("invalid fen castling rights char");
                },
            }
            i += 1;
        }
        assert(w@.take(w@.len() as int) =~= w@);
        Ok(())
    }
}


/// The pieces of the starting position.
pub open spec fn start_mailbox() -> Seq<Option<Piece>> {
    Seq::new(
        64,
        |q: int|
            if q < 8 {
                Some(back_rank_piece(q, Color::White))
            } else if q < 16 {
                Some(Piece::WhitePawn)
            } else if q < 48 {
                None
            } else if q < 56 {
                Some(Piece::BlackPawn)
            } else {
                Some(back_rank_piece(q - 56, Color::Black))
            },
    )
}

/// The piece that starts on file `f` of its side's back rank.
pub open spec fn back_rank_piece(f: int, c: Color) -> Piece {
    let white = c == Color::White;
    if f == 0 || f == 7 {
        if white { Piece::WhiteRook } else { Piece::BlackRook }
    } else if f == 1 || f == 6 {
        if white { Piece::WhiteKnight } else { Piece::BlackKnight }
    } else if f == 2 || f == 5 {
        if white { Piece::WhiteBishop } else { Piece::BlackBishop }
    } else if f == 3 {
        if white { Piece::WhiteQueen } else { Piece::BlackQueen }
    } else {
        if white { Piece::WhiteKing } else { Piece::BlackKing }
    }
}

/// The starting position: white to move, all four castling rights.
pub open spec fn starting_position() -> Position {
    Position {
        mailbox: start_mailbox(),
        castling: 15,
        en_passant: None,
        half_move_clock: 0,
        active_color: Color::White,
    }
}

/// Phase weight of a square's content, 0 for an empty square.
pub open spec fn weight_of(v: Option<Piece>) -> nat {
    match v {
        Some(p) => crate::board::phase_weight(p) as nat,
        None => 0,
    }
}

/// Sum of the phase weights of the first `n` squares.
pub open spec fn weight_below(mb: Seq<Option<Piece>>, n: int) -> nat
    decreases n,
{
    if n <= 0 {
        0
    } else {
        weight_below(mb, n - 1) + weight_of(mb[n - 1])
    }
}

/// Game phase of the first `n` squares, counted piece by piece.
pub open spec fn phase_below(mb: Seq<Option<Piece>>, n: int) -> nat {
    count_piece_below(mb, Piece::WhiteKnight, n) + count_piece_below(mb, Piece::WhiteBishop, n)
        + 2 * count_piece_below(mb, Piece::WhiteRook, n) + 4 * count_piece_below(mb, Piece::WhiteQueen, n)
        + count_piece_below(mb, Piece::BlackKnight, n) + count_piece_below(mb, Piece::BlackBishop, n)
        + 2 * count_piece_below(mb, Piece::BlackRook, n) + 4 * count_piece_below(mb, Piece::BlackQueen, n)
}

proof fn lemma_phase_below(mb: Seq<Option<Piece>>, n: int)
    requires
        0 <= n,
    ensures
        phase_below(mb, n) == weight_below(mb, n),
    decreases n,
{
    if n > 0 {
        lemma_phase_below(mb, n - 1);
    }
}

/// The game phase of a mailbox whose first square is not a queen fits in a
/// byte.
pub proof fn lemma_phase_fits(mb: Seq<Option<Piece>>)
    requires
        weight_of(mb[0]) <= 2,
    ensures
        mailbox_phase(mb) <= 255,
{
    assert forall|n: int| 1 <= n <= 64 implies weight_below(mb, n) <= 4 * n - 2 by {
        lemma_weight_bound(mb, n);
    }
    lemma_phase_below(mb, 64);
}

proof fn lemma_weight_bound(mb: Seq<Option<Piece>>, n: int)
    requires
        1 <= n,
        weight_of(mb[0]) <= 2,
    ensures
        weight_below(mb, n) <= 4 * n - 2,
    decreases n,
{
    assert(weight_below(mb, 0) == 0);
    if n > 1 {
        lemma_weight_bound(mb, n - 1);
    }
    assert(weight_of(mb[n - 1]) <= 4);
}

/// The order in which reading the starting FEN places the piece of a
/// square: rank 8, rank 7, rank 2, rank 1, each from file a; 64 for a square
/// it leaves empty.
pub open spec fn start_order(q: int) -> int {
    if q >= 56 {
        q - 56
    } else if q >= 48 {
        q - 40
    } else if 8 <= q < 16 {
        q + 8
    } else if q < 8 {
        q + 24
    } else {
        64
    }
}

/// The starting pieces that reading the starting FEN has placed after
/// `j` pieces.
pub open spec fn start_partial(j: int) -> Seq<Option<Piece>> {
    Seq::new(64, |q: int| if start_order(q) < j { start_mailbox()[q] } else { None })
}

/// A run of characters other than white space, put after white space or at
/// the start, is one more word.
proof fn lemma_words_push_word(s: Seq<char>, w: Seq<char>)
    requires
        w.len() > 0,
        forall|i: int| 0 <= i < w.len() ==> !is_space(#[trigger] w[i]),
        s.len() == 0 || is_space(s.last()),
    ensures
        words(s + w) =~~= words(s).push(w),
    decreases w.len(),
{
    if w.len() == 1 {
        assert((s + w).drop_last() =~= s);
    } else {
        lemma_words_push_word(s, w.drop_last());
        assert((s + w).drop_last() =~= s + w.drop_last());
        assert(w.drop_last().push(w.last()) =~= w);
    }
}

/// White space at the end adds no word.
proof fn lemma_words_push_space(s: Seq<char>)
    ensures
        words(s.push(' ')) =~~= words(s),
{
    assert(s.push(' ').drop_last() =~= s);
}

/// The words of the starting FEN text.
proof fn lemma_starting_words()
    ensures
        words(seq!['r', 'n', 'b', 'q', 'k', 'b', 'n', 'r', '/', 'p', 'p', 'p', 'p', 'p', 'p', 'p', 'p', '/', '8', '/', '8', '/', '8', '/', '8', '/', 'P', 'P', 'P', 'P', 'P', 'P', 'P', 'P', '/', 'R', 'N', 'B', 'Q', 'K', 'B', 'N', 'R', ' ', 'w', ' ', 'K', 'Q', 'k', 'q', ' ', '-', ' ', '0', ' ', '1']) =~~= seq![seq!['r', 'n', 'b', 'q', 'k', 'b', 'n', 'r', '/', 'p', 'p', 'p', 'p', 'p', 'p', 'p', 'p', '/', '8', '/', '8', '/', '8', '/', '8', '/', 'P', 'P', 'P', 'P', 'P', 'P', 'P', 'P', '/', 'R', 'N', 'B', 'Q', 'K', 'B', 'N', 'R'], seq!['w'], seq!['K', 'Q', 'k', 'q'], seq!['-'], seq!['0'], seq!['1']],
{
    let p = seq!['r', 'n', 'b', 'q', 'k', 'b', 'n', 'r', '/', 'p', 'p', 'p', 'p', 'p', 'p', 'p', 'p', '/', '8', '/', '8', '/', '8', '/', '8', '/', 'P', 'P', 'P', 'P', 'P', 'P', 'P', 'P', '/', 'R', 'N', 'B', 'Q', 'K', 'B', 'N', 'R'];
    let e = Seq::<char>::empty();
    assert(words(e) =~~= Seq::<Seq<char>>::empty());
    lemma_words_push_word(e, p);
    assert(e + p =~= p);
    let t1 = p.push(' ');
    lemma_words_push_space(p);
    lemma_words_push_word(t1, seq!['w']);
    let t2 = (t1 + seq!['w']).push(' ');
    lemma_words_push_space(t1 + seq!['w']);
    lemma_words_push_word(t2, seq!['K', 'Q', 'k', 'q']);
    let t3 = (t2 + seq!['K', 'Q', 'k', 'q']).push(' ');
    lemma_words_push_space(t2 + seq!['K', 'Q', 'k', 'q']);
    lemma_words_push_word(t3, seq!['-']);
    let t4 = (t3 + seq!['-']).push(' ');
    lemma_words_push_space(t3 + seq!['-']);
    lemma_words_push_word(t4, seq!['0']);
    let t5 = (t4 + seq!['0']).push(' ');
    lemma_words_push_space(t4 + seq!['0']);
    lemma_words_push_word(t5, seq!['1']);
    assert(t5 + seq!['1'] =~= seq!['r', 'n', 'b', 'q', 'k', 'b', 'n', 'r', '/', 'p', 'p', 'p', 'p', 'p', 'p', 'p', 'p', '/', '8', '/', '8', '/', '8', '/', '8', '/', 'P', 'P', 'P', 'P', 'P', 'P', 'P', 'P', '/', 'R', 'N', 'B', 'Q', 'K', 'B', 'N', 'R', ' ', 'w', ' ', 'K', 'Q', 'k', 'q', ' ', '-', ' ', '0', ' ', '1']);
}

/// Reading a run of pieces of the starting position onto its rank fills the
/// next squares in reading order.
proof fn lemma_place_start_run(s: Seq<char>, w: Seq<char>, section: nat, file: nat, k: int)
    requires
        placement(s) == (Placement::Placing { section, file, mailbox: start_partial(k) }),
        section <= 7,
        file + w.len() <= 8,
        0 <= k,
        k + w.len() <= 32,
        forall|i: int| 0 <= i < w.len() ==> {
            &&& #[trigger] w[i] != '/'
            &&& !is_digit_1_8(w[i])
            &&& char_piece(w[i]) == start_mailbox()[(7 - section) * 8 + file + i]
            &&& start_order((7 - section) * 8 + file + i) == k + i
        },
    ensures
        placement(s + w) == (Placement::Placing { section, file: (file + w.len()) as nat, mailbox: start_partial(k + w.len()) }),
    decreases w.len(),
{
    if w.len() == 0 {
        assert(s + w =~= s);
    } else {
        let v = w.drop_last();
        assert forall|i: int| 0 <= i < v.len() implies {
            &&& #[trigger] v[i] != '/'
            &&& !is_digit_1_8(v[i])
            &&& char_piece(v[i]) == start_mailbox()[(7 - section) * 8 + file + i]
            &&& start_order((7 - section) * 8 + file + i) == k + i
        } by {
            assert(v[i] == w[i]);
        }
        lemma_place_start_run(s, v, section, file, k);
        assert((s + w).drop_last() =~= s + v);
        assert((s + w).last() == w[v.len() as int]);
        let q = (7 - section) * 8 + file + v.len();
        let c = w[v.len() as int];
        assert(char_piece(c) == start_mailbox()[q] && start_order(q) == k + v.len());
        assert(start_mailbox()[q] is Some);
        assert(placement(s + w) == placement_step(placement(s + v), c));
        assert(start_partial(k + v.len()).update(q, start_mailbox()[q]) =~= start_partial(k + w.len()));
    }
}

/// Reading a rank separator or a digit moves on without placing a piece.
proof fn lemma_place_mark(s: Seq<char>, c: char)
    requires
        placement(s) is Placing,
    ensures
        placement(s.push(c)) == placement_step(placement(s), c),
{
    assert(s.push(c).drop_last() =~= s);
}

/// Reading the starting placement field places the starting pieces.
proof fn lemma_starting_placement()
    ensures
        placement(seq!['r', 'n', 'b', 'q', 'k', 'b', 'n', 'r', '/', 'p', 'p', 'p', 'p', 'p', 'p', 'p', 'p', '/', '8', '/', '8', '/', '8', '/', '8', '/', 'P', 'P', 'P', 'P', 'P', 'P', 'P', 'P', '/', 'R', 'N', 'B', 'Q', 'K', 'B', 'N', 'R']) == (Placement::Placing { section: 7, file: 8, mailbox: start_mailbox() }),
{
    let e = Seq::<char>::empty();
    assert(start_partial(0) =~= empty_mailbox());
    let r8 = seq!['r', 'n', 'b', 'q', 'k', 'b', 'n', 'r'];
    let r7 = seq!['p', 'p', 'p', 'p', 'p', 'p', 'p', 'p'];
    let r2 = seq!['P', 'P', 'P', 'P', 'P', 'P', 'P', 'P'];
    let r1 = seq!['R', 'N', 'B', 'Q', 'K', 'B', 'N', 'R'];
    lemma_place_start_run(e, r8, 0, 0, 0);
    let s1 = e + r8;
    lemma_place_mark(s1, '/');
    let s2 = s1.push('/');
    lemma_place_start_run(s2, r7, 1, 0, 8);
    let t = s2 + r7;
    lemma_place_mark(t, '/');
    lemma_place_mark(t.push('/'), '8');
    lemma_place_mark(t.push('/').push('8'), '/');
    lemma_place_mark(t.push('/').push('8').push('/'), '8');
    lemma_place_mark(t.push('/').push('8').push('/').push('8'), '/');
    lemma_place_mark(t.push('/').push('8').push('/').push('8').push('/'), '8');
    lemma_place_mark(t.push('/').push('8').push('/').push('8').push('/').push('8'), '/');
    lemma_place_mark(t.push('/').push('8').push('/').push('8').push('/').push('8').push('/'), '8');
    let s3 = t.push('/').push('8').push('/').push('8').push('/').push('8').push('/').push('8');
    lemma_place_mark(s3, '/');
    let s4 = s3.push('/');
    lemma_place_start_run(s4, r2, 6, 0, 16);
    let s5 = s4 + r2;
    lemma_place_mark(s5, '/');
    let s6 = s5.push('/');
    lemma_place_start_run(s6, r1, 7, 0, 24);
    assert(s6 + r1 =~= seq!['r', 'n', 'b', 'q', 'k', 'b', 'n', 'r', '/', 'p', 'p', 'p', 'p', 'p', 'p', 'p', 'p', '/', '8', '/', '8', '/', '8', '/', '8', '/', 'P', 'P', 'P', 'P', 'P', 'P', 'P', 'P', '/', 'R', 'N', 'B', 'Q', 'K', 'B', 'N', 'R']);
    assert(start_partial(32) =~= start_mailbox());
}

/// Reading the starting FEN gives the starting position.
pub proof fn lemma_starting_fen()
    ensures
        fen_outcome("rnbqkbnr/pppppppp/8/8/8/8/PPPPPPPP/RNBQKBNR w KQkq - 0 1"@) == Outcome::Value(starting_position()),
{
    reveal_strlit("rnbqkbnr/pppppppp/8/8/8/8/PPPPPPPP/RNBQKBNR w KQkq - 0 1");
    assert("rnbqkbnr/pppppppp/8/8/8/8/PPPPPPPP/RNBQKBNR w KQkq - 0 1"@ =~= seq!['r', 'n', 'b', 'q', 'k', 'b', 'n', 'r', '/', 'p', 'p', 'p', 'p', 'p', 'p', 'p', 'p', '/', '8', '/', '8', '/', '8', '/', '8', '/', 'P', 'P', 'P', 'P', 'P', 'P', 'P', 'P', '/', 'R', 'N', 'B', 'Q', 'K', 'B', 'N', 'R', ' ', 'w', ' ', 'K', 'Q', 'k', 'q', ' ', '-', ' ', '0', ' ', '1']);
    lemma_starting_words();
    lemma_starting_placement();
    let w = words(seq!['r', 'n', 'b', 'q', 'k', 'b', 'n', 'r', '/', 'p', 'p', 'p', 'p', 'p', 'p', 'p', 'p', '/', '8', '/', '8', '/', '8', '/', '8', '/', 'P', 'P', 'P', 'P', 'P', 'P', 'P', 'P', '/', 'R', 'N', 'B', 'Q', 'K', 'B', 'N', 'R', ' ', 'w', ' ', 'K', 'Q', 'k', 'q', ' ', '-', ' ', '0', ' ', '1']);
    assert(w[1] =~= seq!['w']);
    assert(w[2] =~= seq!['K', 'Q', 'k', 'q']);
    assert(w[3] =~= seq!['-']);
    assert(w[2] != seq!['-']) by {
        assert(w[2].len() != 1);
    }
    assert(castling_bits(seq!['K', 'Q', 'k', 'q']) == Some(15u8)) by {
        assert(seq!['K'].drop_last() =~= Seq::<char>::empty());
        assert(seq!['K', 'Q'].drop_last() =~= seq!['K']);
        assert(seq!['K', 'Q', 'k'].drop_last() =~= seq!['K', 'Q']);
        assert(seq!['K', 'Q', 'k', 'q'].drop_last() =~= seq!['K', 'Q', 'k']);
        assert(castling_bits(Seq::<char>::empty()) == Some(0u8));
        assert((0u8 | 1u8) == 1u8 && (1u8 | 2u8) == 3u8 && (3u8 | 4u8) == 7u8 && (7u8 | 8u8) == 15u8) by (bit_vector);
        assert(castling_bits(seq!['K']) == Some(1u8));
        assert(castling_bits(seq!['K', 'Q']) == Some(3u8));
        assert(castling_bits(seq!['K', 'Q', 'k']) == Some(7u8));
    }
    lemma_phase_fits(start_mailbox());
}

/// Reads a piece placement field onto a mailbox, as `placement` does; the
/// mailbox and the outcome say what was read.
fn scan_placement(w: &Vec<char>) -> (r: (u8, [Option<Piece>; 64]))
    ensures
        r.0 == 0 ==> (placement(w@) matches Placement::Placing { mailbox, .. } && r.1@ == mailbox),
        r.0 == 1 ==> placement(w@) is Failed,
        r.0 == 2 ==> placement(w@) is Overflowed,
        r.0 <= 2,
{
    let mut section: u8 = 0;
    let mut file: u8 = 0;
    let mut mailbox: [Option<Piece>; 64] = [None; 64];
    proof {
        assert(mailbox@ =~= empty_mailbox());
    }
    let mut i: usize = 0;
    while i < w.len()
        invariant
            i <= w.len(),
            placement(w@.take(i as int)) == (Placement::Placing { section: section as nat, file: file as nat, mailbox: mailbox@ }),
        decreases w.len() - i,
    {
        let c = w[i];
        proof {
            lemma_placement_inv(w@.take(i as int));
            assert(w@.take(i + 1).drop_last() =~= w@.take(i as int));
            assert(w@.take(i + 1).last() == c);
        }
        if c == '/' {
            if section + 1 > 7 {
                proof {
                    lemma_placement_stuck(w@, i + 1);
                }
                return (2, mailbox);
            }
            section = section + 1;
            file = 0;
        } else if 0x31 <= (c as u32) && (c as u32) <= 0x38 {
            let d = ((c as u32) - 0x30) as u8;
            if file as u32 + d as u32 > 255 {
                proof {
                    lemma_placement_stuck(w@, i + 1);
                }
                return (2, mailbox);
            }
            file = file + d;
        } else {
            if file >= 8 {
                proof {
                    lemma_placement_stuck(w@, i + 1);
                }
                return (1, mailbox);
            }
            match Piece::from_char(c) {
                Ok(piece) => {
                    let square = (7 - section) * 8 + file;
                    mailbox[square as usize] = Some(piece);
                    file = file + 1;
                },
                Err(_) => {
                    proof {
                        lemma_placement_stuck(w@, i + 1);
                    }
                    return (1, mailbox);
                },
            }
        }
        i += 1;
    }
    assert(w@.take(w@.len() as int) =~= w@);
    (0, mailbox)
}

/// Tells whether reading a FEN text makes the reader panic (see
/// `fen_outcome`): where `Board::parse_fen` may not be called.
pub fn fen_would_panic(fen: &str) -> (r: bool)
    ensures
        r == (fen_outcome(fen@) is Panic),
{
    let text = chars_of(fen);
    fen_text_would_panic(&text)
}

/// `fen_would_panic` on the characters of a text.
pub fn fen_text_would_panic(text: &Vec<char>) -> (r: bool)
    ensures
        r == (fen_outcome(text@) is Panic),
{
    let fields = split_words(text);
    proof {
        assert(texts_view(fields@).len() == fields@.len());
    }
    if fields.len() < 4 {
        return false;
    }
    let ghost w = words(text@);
    proof {
        assert(w[0] == fields@[0]@);
        assert(w[1] == fields@[1]@);
        assert(w[2] == fields@[2]@);
        assert(w[3] == fields@[3]@);
    }
    let (outcome, mailbox) = scan_placement(&fields[0]);
    if outcome == 2 {
        return true;
    }
    if outcome == 1 {
        return false;
    }
    if !is_single(&fields[1], 'w') && !is_single(&fields[1], 'b') {
        return false;
    }
    if !is_single(&fields[2], '-') {
        let mut rights = Board::new();
        if rights.read_castling(&fields[2]).is_err() {
            return false;
        }
    }
    let ep = &fields[3];
    if !is_single(ep, '-') {
        let n = utf8_len_capped(ep);
        if n == 2 && ep.len() < 2 {
            return true;
        }
        if n != 2 {
            return false;
        }
        match chars_to_square(ep) {
            Err(_) => {
                return false;
            },
            Ok(sq) => {
                if !((16 <= sq && sq <= 23) || (40 <= sq && sq <= 47)) {
                    return false;
                }
            },
        }
    }
    let mut phase: u32 = 0;
    let mut q: usize = 0;
    while q < 64
        invariant
            q <= 64,
            phase == weight_below(mailbox@, q as int),
            phase <= 4 * q,
        decreases 64 - q,
    {
        let wgt: u32 = match mailbox[q] {
            Some(p) => Piece::get_phase_value(p) as u32,
            None => 0,
        };
        proof {
            if let Some(p) = mailbox@[q as int] {
                assert(crate::board::phase_weight(p) <= 4);
            }
        }
        phase = phase + wgt;
        q += 1;
    }
    proof {
        lemma_phase_below(mailbox@, 64);
    }
    phase > 255
}

impl Board {
    /// Sets the board to the position of a FEN text, of which only the first
    /// four fields are read (see `fen_outcome`). On an error the board holds
    /// no mailbox, hash key or history.
    pub fn parse_fen(&mut self, tables: &Tables, fen: &str) -> (r: Result<(), &'static str>)
        requires
            !(fen_outcome(fen@) is Panic),
        ensures
            match fen_outcome(fen@) {
                Outcome::Value(p) => {
                    &&& r is Ok
                    &&& final(self).wf()
                    &&& final(self).hash_ok(tables.zobrist)
                    &&& final(self)@ == p
                    &&& final(self).history_ply == 0
                },
                Outcome::Error(m) => {
                    &&& r == Err::<(), &'static str>(m)
                    &&& final(self).mailbox@ == empty_mailbox()
                    &&& final(self).hash_key == 0
                    &&& final(self).history_ply == 0
                    &&& final(self).en_passant_square is None
                    &&& final(self).half_move_clock == 0
                    &&& final(self).phase_value == 0
                },
                Outcome::Panic => false,
            },
    {
        let text = chars_of(fen);
        self.parse_fen_text(tables, &text)
    }

    /// `parse_fen` on the characters of a text.
    pub fn parse_fen_text(&mut self, tables: &Tables, text: &Vec<char>) -> (r: Result<(), &'static str>)
        requires
            !(fen_outcome(text@) is Panic),
        ensures
            match fen_outcome(text@) {
                Outcome::Value(p) => {
                    &&& r is Ok
                    &&& final(self).wf()
                    &&& final(self).hash_ok(tables.zobrist)
                    &&& final(self)@ == p
                    &&& final(self).history_ply == 0
                },
                Outcome::Error(m) => {
                    &&& r == Err::<(), &'static str>(m)
                    &&& final(self).mailbox@ == empty_mailbox()
                    &&& final(self).hash_key == 0
                    &&& final(self).history_ply == 0
                    &&& final(self).en_passant_square is None
                    &&& final(self).half_move_clock == 0
                    &&& final(self).phase_value == 0
                },
                Outcome::Panic => false,
            },
    {
        self.reset();
        proof {
            assert(self.mailbox@ =~= empty_mailbox());
        }
        let fields = split_words(text);
        proof {
            assert(texts_view(fields@).len() == fields@.len());
        }
        if fields.len() < 1 {
            return Err("missing piece placement field");
        }
        if fields.len() < 2 {
            return Err("missing active color field");
        }
        if fields.len() < 3 {
            return Err("missing castling rights field");
        }
        if fields.len() < 4 {
            return Err("missing en passant square");
        }
        let ghost w = words(text@);
        proof {
            assert(w[0] == fields@[0]@);
            assert(w[1] == fields@[1]@);
            assert(w[2] == fields@[2]@);
            assert(w[3] == fields@[3]@);
        }
        let piece_placement = &fields[0];
        let active_color = &fields[1];
        let castling_rights = &fields[2];
        let en_passant_square = &fields[3];
        self.place_pieces(piece_placement)?;
        let ghost mb = placement(w[0])->mailbox;
        if is_single(active_color, 'w') {
            self.active_color = Color::White;
        } else if is_single(active_color, 'b') {
            self.active_color = Color::Black;
        } else {
            return Err("invalid fen active color field");
        }
        if !is_single(castling_rights, '-') {
            self.read_castling(castling_rights)?;
        }
        if !is_single(en_passant_square, '-') {
            let square = chars_to_square(en_passant_square)?;
            if !((16 <= square && square <= 23) || (40 <= square && square <= 47)) {
                return Err("invalid fen en passant square");
            }
            self.en_passant_square = Some(square);
        } else {
            self.en_passant_square = None;
        }
        let mailbox = self.generate_mailbox()?;
        proof {
            lemma_placement_inv(w[0]);
            assert forall|q: int| 0 <= q < 64 implies #[trigger] mailbox@[q] == mb[q] by {
                lemma_last_piece_matches(self.pieces, mb, q, 12);
                if let Some(p) = mb[q] {
                    lemma_piece_index(p);
                }
            }
            assert(mailbox@ =~= mb);
        }
        self.mailbox = mailbox;
        self.hash_key = self.generate_hash_key(&tables.zobrist);
        proof {
            lemma_phase_matches(self.pieces, mb);
        }
        self.phase_value = self.generate_phase_value();
        self.set_general_bitboards();
        Ok(())
    }

    /// The board of the starting position.
    pub fn new_starting_board(tables: &Tables) -> (r: Result<Board, &'static str>)
        ensures
            r matches Ok(b) && b.wf() && b.hash_ok(tables.zobrist) && b@ == starting_position() && b.history_ply == 0,
    {
        let mut board = Board::new();
        let fen = "rnbqkbnr/pppppppp/8/8/8/8/PPPPPPPP/RNBQKBNR w KQkq - 0 1";
        proof {
            lemma_starting_fen();
        }
        board.parse_fen(tables, fen)?;
        Ok(board)
    }
}

} // verus!
