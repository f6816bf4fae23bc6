use vstd::prelude::*;

verus! {

// ---------------------------------------------------------------------------
// Board geometry. Squares are numbered 0..64, a1 = 0, h1 = 7, a8 = 56.
// ---------------------------------------------------------------------------

/// Rank (row) of a square, 0 for the first rank.
pub open spec fn rank_of(sq: int) -> int {
    sq / 8
}

/// File (column) of a square, 0 for the a-file.
pub open spec fn file_of(sq: int) -> int {
    sq % 8
}

/// Whether a rank/file pair lies on the board.
pub open spec fn on_board(rank: int, file: int) -> bool {
    0 <= rank < 8 && 0 <= file < 8
}

/// The square at a rank and a file.
pub open spec fn square_at(rank: int, file: int) -> int {
    rank * 8 + file
}

/// `j` taken with the sign of `d` (`d` is a step of -1, 0 or 1).
pub open spec fn scale(j: int, d: int) -> int {
    if d > 0 {
        j
    } else if d < 0 {
        -j
    } else {
        0
    }
}

/// Whether bit `sq` of a bitboard is set.
pub open spec fn has_bit(bb: u64, sq: int) -> bool {
    0 <= sq < 64 && (bb >> (sq as u64)) & 1 == 1
}

/// The bitboard with only square `sq` set.
pub open spec fn sq_bit(sq: int) -> u64 {
    (1u64 << (sq as u64)) as u64
}

/// The square one step of (`dr`, `df`) away from `sq`, as a bitboard, or the
/// empty bitboard when that step leaves the board.
pub open spec fn step_bit(sq: int, dr: int, df: int) -> u64 {
    if on_board(rank_of(sq) + dr, file_of(sq) + df) {
        sq_bit(square_at(rank_of(sq) + dr, file_of(sq) + df))
    } else {
        0
    }
}

/// Squares on a common rank, file or diagonal.
pub open spec fn aligned(s: int, e: int) -> bool {
    ||| rank_of(s) == rank_of(e)
    ||| file_of(s) == file_of(e)
    ||| rank_of(s) - file_of(s) == rank_of(e) - file_of(e)
    ||| rank_of(s) + file_of(s) == rank_of(e) + file_of(e)
}

/// `x` lies strictly between `a` and `b`.
pub open spec fn strictly_inside(a: int, x: int, b: int) -> bool {
    (a < x < b) || (b < x < a)
}

/// Square `t` lies strictly between `s` and `e` on the rank, file or diagonal
/// that joins them.
pub open spec fn between(s: int, e: int, t: int) -> bool {
    &&& 0 <= s < 64
    &&& 0 <= e < 64
    &&& 0 <= t < 64
    &&& {
        ||| (rank_of(s) == rank_of(e) && rank_of(t) == rank_of(s) && strictly_inside(
            file_of(s),
            file_of(t),
            file_of(e),
        ))
        ||| (file_of(s) == file_of(e) && file_of(t) == file_of(s) && strictly_inside(
            rank_of(s),
            rank_of(t),
            rank_of(e),
        ))
        ||| (rank_of(s) - file_of(s) == rank_of(e) - file_of(e) && rank_of(t) - file_of(t)
            == rank_of(s) - file_of(s) && strictly_inside(rank_of(s), rank_of(t), rank_of(e)))
        ||| (rank_of(s) + file_of(s) == rank_of(e) + file_of(e) && rank_of(t) + file_of(t)
            == rank_of(s) + file_of(s) && strictly_inside(rank_of(s), rank_of(t), rank_of(e)))
    }
}

/// Square `t` lies between `s` and `e`, or is `e` itself when `e` is a
/// different square aligned with `s`.
pub open spec fn between_end_inclusive(s: int, e: int, t: int) -> bool {
    between(s, e, t) || (0 <= s < 64 && 0 <= e < 64 && s != e && aligned(s, e) && t == e)
}

// ---------------------------------------------------------------------------
// Lemmas on single bits.
// ---------------------------------------------------------------------------

pub broadcast proof fn lemma_has_bit_or(a: u64, b: u64, s: int)
    ensures
        #[trigger] has_bit(a | b, s) == (has_bit(a, s) || has_bit(b, s)),
{
    if 0 <= s < 64 {
        let k = s as u64;
        assert(((a | b) >> k) & 1 == 1 <==> ((a >> k) & 1 == 1 || (b >> k) & 1 == 1))
            by (bit_vector);
    }
}

pub broadcast proof fn lemma_has_bit_and(a: u64, b: u64, s: int)
    ensures
        #[trigger] has_bit(a & b, s) == (has_bit(a, s) && has_bit(b, s)),
{
    if 0 <= s < 64 {
        let k = s as u64;
        assert(((a & b) >> k) & 1 == 1 <==> ((a >> k) & 1 == 1 && (b >> k) & 1 == 1))
            by (bit_vector);
    }
}

pub broadcast proof fn lemma_has_bit_not(a: u64, s: int)
    ensures
        #[trigger] has_bit(!a, s) == (0 <= s < 64 && !has_bit(a, s)),
{
    if 0 <= s < 64 {
        let k = s as u64;
        assert(k < 64 ==> (((!a) >> k) & 1 == 1 <==> !((a >> k) & 1 == 1))) by (bit_vector);
    }
}

pub broadcast proof fn lemma_has_bit_zero(s: int)
    ensures
        !#[trigger] has_bit(0u64, s),
{
    if 0 <= s < 64 {
        let k = s as u64;
        assert((0u64 >> k) & 1 == 0) by (bit_vector);
    }
}

pub broadcast proof fn lemma_has_bit_single(q: int, s: int)
    requires
        0 <= q < 64,
    ensures
        #[trigger] has_bit(sq_bit(q), s) == (q == s),
{
    let j = q as u64;
    if 0 <= s < 64 {
        let k = s as u64;
        assert(j < 64 && k < 64 ==> ((((1u64 << j) >> k) & 1 == 1) <==> j == k)) by (bit_vector);
    }
}

pub broadcast proof fn lemma_has_bit_shl(a: u64, n: u64, s: int)
    requires
        n < 64,
    ensures
        #[trigger] has_bit(a << n, s) == (0 <= s < 64 && s >= n && has_bit(a, s - n)),
{
    if 0 <= s < 64 {
        let k = s as u64;
        let m = if k >= n { (k - n) as u64 } else { 0u64 };
        assert(n < 64 && k < 64 && (k >= n ==> m == k - n) ==> (k >= n ==> ((((a << n) >> k) & 1 == 1) <==> ((a >> m) & 1 == 1)))
            && (k < n ==> ((a << n) >> k) & 1 == 0)) by (bit_vector);
    }
}

pub broadcast proof fn lemma_has_bit_shr(a: u64, n: u64, s: int)
    requires
        n < 64,
    ensures
        #[trigger] has_bit(a >> n, s) == (0 <= s < 64 && s + n < 64 && has_bit(a, s + n)),
{
    if 0 <= s < 64 {
        let k = s as u64;
        let m = (k + n) as u64;
        assert(n < 64 && k < 64 && m == k + n ==> (k + n < 64 ==> ((((a >> n) >> k) & 1 == 1) <==> ((a >> m) & 1 == 1)))
            && (k + n >= 64 ==> ((a >> n) >> k) & 1 == 0)) by (bit_vector);
    }
}

/// The square bit `1 << k` has exactly square `k`.
pub proof fn lemma_bit_u64(k: u64, s: int)
    requires
        k < 64,
    ensures
        has_bit(1u64 << k, s) == (s == k),
{
    lemma_has_bit_single(k as int, s);
}

/// Testing a square bit against a bitboard tests that square.
pub proof fn lemma_bit_test(k: u64, b: u64)
    requires
        k < 64,
    ensures
        ((1u64 << k) & b != 0) == has_bit(b, k as int),
{
    assert(k < 64 ==> (((1u64 << k) & b != 0) <==> ((b >> k) & 1 == 1))) by (bit_vector);
}

pub broadcast group group_bits {
    lemma_has_bit_or,
    lemma_has_bit_and,
    lemma_has_bit_not,
    lemma_has_bit_zero,
    lemma_has_bit_single,
    lemma_has_bit_shl,
    lemma_has_bit_shr,
}

/// Two bitboards with the same squares are equal.
pub proof fn lemma_bits_ext(a: u64, b: u64)
    requires
        forall|s: int| 0 <= s < 64 ==> has_bit(a, s) == has_bit(b, s),
    ensures
        a == b,
{
    assert forall|k: u64| k < 64 implies (a >> k) & 1 == (b >> k) & 1 by {
        assert(has_bit(a, k as int) == has_bit(b, k as int));
        assert(((a >> k) & 1 == 0 || (a >> k) & 1 == 1) && ((b >> k) & 1 == 0 || (b >> k) & 1 == 1)) by (bit_vector);
    }
    assert(a == b) by (bit_vector)
        requires
            (a >> 0u64) & 1 == (b >> 0u64) & 1,
            (a >> 1u64) & 1 == (b >> 1u64) & 1,
            (a >> 2u64) & 1 == (b >> 2u64) & 1,
            (a >> 3u64) & 1 == (b >> 3u64) & 1,
            (a >> 4u64) & 1 == (b >> 4u64) & 1,
            (a >> 5u64) & 1 == (b >> 5u64) & 1,
            (a >> 6u64) & 1 == (b >> 6u64) & 1,
            (a >> 7u64) & 1 == (b >> 7u64) & 1,
            (a >> 8u64) & 1 == (b >> 8u64) & 1,
            (a >> 9u64) & 1 == (b >> 9u64) & 1,
            (a >> 10u64) & 1 == (b >> 10u64) & 1,
            (a >> 11u64) & 1 == (b >> 11u64) & 1,
            (a >> 12u64) & 1 == (b >> 12u64) & 1,
            (a >> 13u64) & 1 == (b >> 13u64) & 1,
            (a >> 14u64) & 1 == (b >> 14u64) & 1,
            (a >> 15u64) & 1 == (b >> 15u64) & 1,
            (a >> 16u64) & 1 == (b >> 16u64) & 1,
            (a >> 17u64) & 1 == (b >> 17u64) & 1,
            (a >> 18u64) & 1 == (b >> 18u64) & 1,
            (a >> 19u64) & 1 == (b >> 19u64) & 1,
            (a >> 20u64) & 1 == (b >> 20u64) & 1,
            (a >> 21u64) & 1 == (b >> 21u64) & 1,
            (a >> 22u64) & 1 == (b >> 22u64) & 1,
            (a >> 23u64) & 1 == (b >> 23u64) & 1,
            (a >> 24u64) & 1 == (b >> 24u64) & 1,
            (a >> 25u64) & 1 == (b >> 25u64) & 1,
            (a >> 26u64) & 1 == (b >> 26u64) & 1,
            (a >> 27u64) & 1 == (b >> 27u64) & 1,
            (a >> 28u64) & 1 == (b >> 28u64) & 1,
            (a >> 29u64) & 1 == (b >> 29u64) & 1,
            (a >> 30u64) & 1 == (b >> 30u64) & 1,
            (a >> 31u64) & 1 == (b >> 31u64) & 1,
            (a >> 32u64) & 1 == (b >> 32u64) & 1,
            (a >> 33u64) & 1 == (b >> 33u64) & 1,
            (a >> 34u64) & 1 == (b >> 34u64) & 1,
            (a >> 35u64) & 1 == (b >> 35u64) & 1,
            (a >> 36u64) & 1 == (b >> 36u64) & 1,
            (a >> 37u64) & 1 == (b >> 37u64) & 1,
            (a >> 38u64) & 1 == (b >> 38u64) & 1,
            (a >> 39u64) & 1 == (b >> 39u64) & 1,
            (a >> 40u64) & 1 == (b >> 40u64) & 1,
            (a >> 41u64) & 1 == (b >> 41u64) & 1,
            (a >> 42u64) & 1 == (b >> 42u64) & 1,
            (a >> 43u64) & 1 == (b >> 43u64) & 1,
            (a >> 44u64) & 1 == (b >> 44u64) & 1,
            (a >> 45u64) & 1 == (b >> 45u64) & 1,
            (a >> 46u64) & 1 == (b >> 46u64) & 1,
            (a >> 47u64) & 1 == (b >> 47u64) & 1,
            (a >> 48u64) & 1 == (b >> 48u64) & 1,
            (a >> 49u64) & 1 == (b >> 49u64) & 1,
            (a >> 50u64) & 1 == (b >> 50u64) & 1,
            (a >> 51u64) & 1 == (b >> 51u64) & 1,
            (a >> 52u64) & 1 == (b >> 52u64) & 1,
            (a >> 53u64) & 1 == (b >> 53u64) & 1,
            (a >> 54u64) & 1 == (b >> 54u64) & 1,
            (a >> 55u64) & 1 == (b >> 55u64) & 1,
            (a >> 56u64) & 1 == (b >> 56u64) & 1,
            (a >> 57u64) & 1 == (b >> 57u64) & 1,
            (a >> 58u64) & 1 == (b >> 58u64) & 1,
            (a >> 59u64) & 1 == (b >> 59u64) & 1,
            (a >> 60u64) & 1 == (b >> 60u64) & 1,
            (a >> 61u64) & 1 == (b >> 61u64) & 1,
            (a >> 62u64) & 1 == (b >> 62u64) & 1,
            (a >> 63u64) & 1 == (b >> 63u64) & 1,
    ;
}

/// A bitboard is empty exactly when it has no square.
pub proof fn lemma_zero_iff_empty(a: u64)
    ensures
        (a == 0) == (forall|s: int| 0 <= s < 64 ==> !has_bit(a, s)),
{
    broadcast use group_bits;
    if forall|s: int| 0 <= s < 64 ==> !has_bit(a, s) {
        lemma_bits_ext(a, 0);
    }
}

/// Two bitboards meet exactly when they share a square.
pub proof fn lemma_and_nonzero(x: u64, y: u64)
    ensures
        (x & y != 0) == (exists|u: int| #[trigger] has_bit(x, u) && has_bit(y, u)),
{
    lemma_zero_iff_empty(x & y);
    if x & y != 0 {
        let u = choose|u: int| 0 <= u < 64 && has_bit(x & y, u);
        lemma_has_bit_and(x, y, u);
    } else {
        assert forall|u: int| !(has_bit(x, u) && has_bit(y, u)) by {
            lemma_has_bit_and(x, y, u);
        }
    }
}

// ---------------------------------------------------------------------------
// Walking a set of squares from the lowest one up.
// ---------------------------------------------------------------------------

/// The lowest square of a non-empty bitboard.
pub open spec fn lowest_square(m: u64) -> int {
    vstd::std_specs::bits::u64_trailing_zeros(m) as int
}

/// Facts about the lowest square of a bitboard and about clearing it with
/// `m & (m - 1)`.
pub proof fn lemma_lowest_square(m: u64)
    requires
        m != 0,
    ensures
        0 <= lowest_square(m) < 64,
        has_bit(m, lowest_square(m)),
        forall|s: int| 0 <= s < lowest_square(m) ==> !has_bit(m, s),
        forall|s: int|
            #![trigger has_bit(m & ((m - 1) as u64), s)]
            has_bit(m & ((m - 1) as u64), s) == (has_bit(m, s) && s != lowest_square(m)),
        (m & ((m - 1) as u64)) < m,
{
    vstd::std_specs::bits::axiom_u64_trailing_zeros(m);
    let z = vstd::std_specs::bits::u64_trailing_zeros(m) as u64;
    assert(z < 64);
    assert forall|s: int| 0 <= s < lowest_square(m) implies !has_bit(m, s) by {
        let k = s as u64;
        assert((m >> k) & 1u64 == 0u64);
    }
    let w = (64 - z) as u64;
    assert(m << w == 0);
    assert forall|s: int| #![trigger has_bit(m & ((m - 1) as u64), s)]
        has_bit(m & ((m - 1) as u64), s) == (has_bit(m, s) && s != lowest_square(m)) by {
        if 0 <= s < 64 {
            let k = s as u64;
            assert(m != 0 && z < 64 && (m >> z) & 1 == 1 && w == 64 - z && m << w == 0 && k < 64
                ==> ((((m & ((m - 1) as u64)) >> k) & 1 == 1) <==> ((m >> k) & 1 == 1 && k != z)))
                by (bit_vector);
        }
    }
    assert(m != 0 ==> (m & ((m - 1) as u64)) < m) by (bit_vector);
}

/// Rank and file of a square built from a rank and a file.
pub broadcast proof fn lemma_square_at(r: int, f: int)
    requires
        on_board(r, f),
    ensures
        #![trigger square_at(r, f)]
        rank_of(square_at(r, f)) == r,
        file_of(square_at(r, f)) == f,
        0 <= square_at(r, f) < 64,
{
}

/// A square is rebuilt from its rank and file.
pub broadcast proof fn lemma_rank_file(s: int)
    requires
        0 <= s < 64,
    ensures
        #![trigger rank_of(s)]
        #![trigger file_of(s)]
        on_board(rank_of(s), file_of(s)),
        square_at(rank_of(s), file_of(s)) == s,
{
}

// ---------------------------------------------------------------------------
// Counting squares.
// ---------------------------------------------------------------------------

/// A mask without its lowest square.
pub open spec fn without_lowest(m: u64) -> u64 {
    m & ((m - 1) as u64)
}

/// Number of squares of a bitboard.
pub open spec fn popcount(m: u64) -> nat
    decreases m,
{
    if m == 0 {
        0
    } else {
        proof {
            lemma_lowest_square(m);
        }
        1 + popcount(without_lowest(m))
    }
}

/// Number of squares of a bitboard, by clearing the lowest one until none is
/// left.
pub fn count_squares(mask: u64) -> (n: u32)
    ensures
        n == popcount(mask),
{
    let mut m = mask;
    let mut n: u32 = 0;
    proof {
        lemma_popcount_bound(mask);
    }
    while m != 0
        invariant
            n + popcount(m) == popcount(mask),
            n + popcount(m) <= 64,
        decreases m,
    {
        proof {
            lemma_lowest_square(m);
            lemma_popcount_bound(m);
        }
        m &= m - 1;
        n += 1;
    }
    n
}

/// A bitboard has at most 64 squares, and no more than there are squares
/// from its lowest one up.
pub proof fn lemma_popcount_bound(m: u64)
    ensures
        popcount(m) <= 64,
        m != 0 ==> popcount(m) <= 64 - lowest_square(m),
    decreases m,
{
    if m != 0 {
        lemma_lowest_square(m);
        let r = without_lowest(m);
        lemma_popcount_bound(r);
        if r != 0 {
            lemma_lowest_square(r);
            assert(lowest_square(r) > lowest_square(m)) by {
                assert(has_bit(r, lowest_square(r)));
            }
        }
    }
}


/// The lowest square of a bitboard is a square it has with none below.
pub proof fn lemma_lowest_is(y: u64, z: int)
    requires
        has_bit(y, z),
        forall|s: int| 0 <= s < z ==> !has_bit(y, s),
    ensures
        y != 0,
        lowest_square(y) == z,
{
    if y == 0 {
        lemma_has_bit_zero(z);
    }
    lemma_lowest_square(y);
}

/// Clearing a square that a bitboard has removes one square from its count.
pub proof fn lemma_popcount_clear(x: u64, s: int)
    requires
        has_bit(x, s),
    ensures
        popcount(x) == popcount(x & !sq_bit(s)) + 1,
    decreases x,
{
    broadcast use group_bits;
    let y = x & !sq_bit(s);
    if x == 0 {
        lemma_has_bit_zero(s);
    }
    lemma_lowest_square(x);
    let z = lowest_square(x);
    let r = without_lowest(x);
    if s == z {
        assert forall|t: int| 0 <= t < 64 implies has_bit(y, t) == has_bit(r, t) by {
            lemma_has_bit_single(s, t);
        }
        lemma_bits_ext(y, r);
    } else {
        assert(has_bit(y, z)) by {
            lemma_has_bit_single(s, z);
        }
        lemma_lowest_is(y, z);
        lemma_lowest_square(y);
        let ry = without_lowest(y);
        assert forall|t: int| 0 <= t < 64 implies has_bit(ry, t) == has_bit(r & !sq_bit(s), t) by {
            lemma_has_bit_single(s, t);
        }
        lemma_bits_ext(ry, r & !sq_bit(s));
        assert(has_bit(r, s)) by {
            lemma_has_bit_single(s, s);
        }
        lemma_popcount_clear(r, s);
    }
}

/// Setting a square that a bitboard lacks adds one square to its count.
pub proof fn lemma_popcount_set(x: u64, s: int)
    requires
        0 <= s < 64,
        !has_bit(x, s),
    ensures
        popcount(x | sq_bit(s)) == popcount(x) + 1,
{
    broadcast use group_bits;
    let y = x | sq_bit(s);
    assert(has_bit(y, s));
    assert forall|t: int| 0 <= t < 64 implies has_bit(y & !sq_bit(s), t) == has_bit(x, t) by {
        lemma_has_bit_single(s, t);
    }
    lemma_bits_ext(y & !sq_bit(s), x);
    lemma_popcount_clear(y, s);
}

/// Exclusive or is associative and commutative, and undoes itself.
pub proof fn lemma_xor_facts(a: u64, b: u64, c: u64)
    by (bit_vector)
    ensures
        (a ^ b) ^ c == a ^ (b ^ c),
        a ^ b == b ^ a,
        a ^ 0 == a,
        a ^ a == 0,
{
}

// ---------------------------------------------------------------------------
// Constant bitboards.
// ---------------------------------------------------------------------------

pub const FILE_A: u64 = 0x0101010101010101;
pub const FILE_B: u64 = 0x0202020202020202;
pub const FILE_C: u64 = 0x0404040404040404;
pub const FILE_D: u64 = 0x0808080808080808;
pub const FILE_E: u64 = 0x1010101010101010;
pub const FILE_F: u64 = 0x2020202020202020;
pub const FILE_G: u64 = 0x4040404040404040;
pub const FILE_H: u64 = 0x8080808080808080;

pub const RANK_1: u64 = 0xFF;
pub const RANK_2: u64 = 0xFF00;
pub const RANK_3: u64 = 0xFF0000;
pub const RANK_4: u64 = 0xFF000000;
pub const RANK_5: u64 = 0xFF00000000;
pub const RANK_6: u64 = 0xFF0000000000;
pub const RANK_7: u64 = 0xFF000000000000;
pub const RANK_8: u64 = 0xFF00000000000000;

/// Squares between the king and the rook that must be empty to castle.
pub const WHITE_KINGSIDE_CASTLING: u64 = 0x60;
pub const WHITE_QUEENSIDE_CASTLING: u64 = 0xE;
pub const BLACK_KINGSIDE_CASTLING: u64 = 0x6000000000000000;
pub const BLACK_QUEENSIDE_CASTLING: u64 = 0xE00000000000000;

/// The castling rights that survive a move from or to a square: moving the
/// king or a rook, or capturing on a rook's home square, loses the matching
/// rights (bits: 1 white kingside, 2 white queenside, 4 black kingside, 8
/// black queenside).
pub open spec fn castling_mask(sq: int) -> u8 {
    if sq == 7 {
        0b1110
    } else if sq == 4 {
        0b1100
    } else if sq == 0 {
        0b1101
    } else if sq == 63 {
        0b1011
    } else if sq == 60 {
        0b0011
    } else if sq == 56 {
        0b0111
    } else {
        0b1111
    }
}

pub fn generate_castling_permutations() -> (t: [u8; 64])
    ensures
        forall|s: int| 0 <= s < 64 ==> #[trigger] t[s] == castling_mask(s),
{
    let mut castling_permutations = [0b1111u8; 64];
    castling_permutations[7] = 0b1110;
    castling_permutations[4] = 0b1100;
    castling_permutations[0] = 0b1101;
    castling_permutations[63] = 0b1011;
    castling_permutations[60] = 0b0011;
    castling_permutations[56] = 0b0111;
    castling_permutations
}

// ---------------------------------------------------------------------------
// Rays between two squares.
// ---------------------------------------------------------------------------

fn abs_i8(x: i8) -> (r: i8)
    requires
        x > -128,
    ensures
        r == (if x < 0 { -x } else { x as int }),
{
    if x < 0 {
        -x
    } else {
        x
    }
}

fn signum_i8(x: i8) -> (r: i8)
    ensures
        r == (if x > 0 {
            1int
        } else if x < 0 {
            -1int
        } else {
            0int
        }),
{
    if x > 0 {
        1
    } else if x < 0 {
        -1
    } else {
        0
    }
}

/// One more step along a line from `s` adds the square that the line had
/// reached to the squares strictly between.
proof fn lemma_between_step(rs: int, fs: int, sr: int, sf: int, k: int, t: int)
    requires
        -1 <= sr <= 1,
        -1 <= sf <= 1,
        sr != 0 || sf != 0,
        k >= 1,
        on_board(rs, fs),
        on_board(rs + scale(k + 1, sr), fs + scale(k + 1, sf)),
    ensures
        between(square_at(rs, fs), square_at(rs + scale(k + 1, sr), fs + scale(k + 1, sf)), t)
            == (between(square_at(rs, fs), square_at(rs + scale(k, sr), fs + scale(k, sf)), t)
            || t == square_at(rs + scale(k, sr), fs + scale(k, sf))),
{
    broadcast use lemma_square_at, lemma_rank_file;
    let c = square_at(rs + scale(k, sr), fs + scale(k, sf));
    assert(on_board(rs + scale(k, sr), fs + scale(k, sf)));
    if 0 <= t < 64 {
        let rt = rank_of(t);
        let ft = file_of(t);
        assert(t == square_at(rt, ft));
    }
}

/// Every square of a line segment whose ends are on the board is on the board.
proof fn lemma_line_on_board(rs: int, fs: int, sr: int, sf: int, k: int, big_k: int)
    requires
        -1 <= sr <= 1,
        -1 <= sf <= 1,
        0 <= k <= big_k,
        on_board(rs, fs),
        on_board(rs + scale(big_k, sr), fs + scale(big_k, sf)),
    ensures
        on_board(rs + scale(k, sr), fs + scale(k, sf)),
{
}

/// Squares of a line next to each other have nothing between them.
proof fn lemma_between_adjacent(rs: int, fs: int, sr: int, sf: int, t: int)
    requires
        -1 <= sr <= 1,
        -1 <= sf <= 1,
        sr != 0 || sf != 0,
        on_board(rs, fs),
        on_board(rs + sr, fs + sf),
    ensures
        !between(square_at(rs, fs), square_at(rs + sr, fs + sf), t),
{
    broadcast use lemma_square_at, lemma_rank_file;
}

/// A bitboard holds exactly the squares strictly between `x` and `y`.
pub open spec fn ray_matches(v: u64, x: int, y: int) -> bool {
    forall|q: int| #[trigger] has_bit(v, q) == between(x, y, q)
}

/// Pairs of squares whose table entry is final while row `start` is filled up
/// to column `end`: rows and columns before `start`, and the pairs of row and
/// column `start` before `end`.
spec fn pair_done(x: int, y: int, start: int, end: int) -> bool {
    x < start || y < start || (x == start && y < end) || (y == start && x < end)
}

pub fn generate_ray_table() -> (t: [[u64; 64]; 64])
    ensures
        forall|s: int, e: int, q: int|
            0 <= s < 64 && 0 <= e < 64 ==> #[trigger] has_bit(t[s][e], q) == between(s, e, q),
{
    broadcast use group_bits, lemma_square_at, lemma_rank_file;
    let mut ray_table = [[0u64; 64]; 64];
    let mut start_square: i8 = 0;
    while start_square < 64
        invariant
            0 <= start_square <= 64,
            forall|x: int, y: int|
                0 <= x < 64 && 0 <= y < 64 ==> {
                    if x < start_square || y < start_square {
                        ray_matches(#[trigger] ray_table[x][y], x, y)
                    } else {
                        ray_table[x][y] == 0
                    }
                },
        decreases 64 - start_square,
    {
        let start_square_rank = start_square / 8;
        let start_square_file = start_square % 8;
        let mut end_square: i8 = 0;
        while end_square < 64
            invariant
                0 <= start_square < 64,
                0 <= end_square <= 64,
                start_square_rank == rank_of(start_square as int),
                start_square_file == file_of(start_square as int),
                forall|x: int, y: int|
                    0 <= x < 64 && 0 <= y < 64 ==> {
                        if pair_done(x, y, start_square as int, end_square as int) {
                            ray_matches(#[trigger] ray_table[x][y], x, y)
                        } else {
                            ray_table[x][y] == 0
                        }
                    },
            decreases 64 - end_square,
        {
            if start_square == end_square {
                proof {
                    let x = start_square as int;
                    assert(ray_table[x][x] == 0);
                    assert forall|q: int| #[trigger] has_bit(ray_table[x][x], q) == between(x, x, q) by {
                        lemma_has_bit_zero(q);
                    }
                }
                end_square += 1;
                continue;
            }
            if ray_table[start_square as usize][end_square as usize] != 0 {
                proof {
                    let x = start_square as int;
                    let y = end_square as int;
                    assert(pair_done(x, y, x, y));
                    assert(y < x);
                    assert(ray_matches(ray_table[y][x], y, x));
                }
                end_square += 1;
                continue;
            }
            let end_square_rank = end_square / 8;
            let end_square_file = end_square % 8;
            let rank_diff = end_square_rank - start_square_rank;
            let file_diff = end_square_file - start_square_file;
            let is_bishop_ray = abs_i8(rank_diff) == abs_i8(file_diff);
            let is_rook_ray = rank_diff == 0 || file_diff == 0;
            if is_bishop_ray || is_rook_ray {
                let mut ray: u64 = 0;
                let step_rank = signum_i8(rank_diff);
                let step_file = signum_i8(file_diff);
                let mut current_rank = start_square_rank + step_rank;
                let mut current_file = start_square_file + step_file;
                let ghost s = start_square as int;
                let ghost e = end_square as int;
                let ghost rs = start_square_rank as int;
                let ghost fs = start_square_file as int;
                let ghost big_k: int = if rank_diff < 0 {
                    -rank_diff
                } else if rank_diff > 0 {
                    rank_diff as int
                } else if file_diff < 0 {
                    -file_diff
                } else {
                    file_diff as int
                };
                let ghost mut k: int = 1;
                proof {
                    assert(rank_diff == rank_of(e) - rs);
                    assert(file_diff == file_of(e) - fs);
                    assert(big_k >= 1);
                    assert(rank_of(e) == rs + scale(big_k, step_rank as int));
                    assert(file_of(e) == fs + scale(big_k, step_file as int));
                    assert(e == square_at(rs + scale(big_k, step_rank as int), fs + scale(big_k, step_file as int)));
                    lemma_line_on_board(rs, fs, step_rank as int, step_file as int, 1, big_k);
                    assert(s == square_at(rs, fs));
                    assert(scale(1, step_rank as int) == step_rank);
                    assert(scale(1, step_file as int) == step_file);
                    assert forall|q: int| #[trigger] has_bit(ray, q) == between(s, square_at(rs + scale(k, step_rank as int), fs + scale(k, step_file as int)), q) by {
                        lemma_between_adjacent(rs, fs, step_rank as int, step_file as int, q);
                        lemma_has_bit_zero(q);
                        assert(!has_bit(ray, q));
                        assert(!between(s, square_at(rs + scale(k, step_rank as int), fs + scale(k, step_file as int)), q));
                    }
                }
                loop
                    invariant_except_break
                        1 <= k <= big_k,
                        current_rank == rs + scale(k, step_rank as int),
                        current_file == fs + scale(k, step_file as int),
                    invariant
                        rs == start_square_rank,
                        fs == start_square_file,
                        s == start_square,
                        e == end_square,
                        0 <= s < 64,
                        0 <= e < 64,
                        s != e,
                        rs == rank_of(s),
                        fs == file_of(s),
                        s == square_at(rs, fs),
                        -1 <= step_rank <= 1,
                        -1 <= step_file <= 1,
                        step_rank != 0 || step_file != 0,
                        e == square_at(rs + scale(big_k, step_rank as int), fs + scale(big_k, step_file as int)),
                        on_board(rs + scale(big_k, step_rank as int), fs + scale(big_k, step_file as int)),
                        forall|q: int| #[trigger] has_bit(ray, q) == between(s, square_at(rs + scale(k, step_rank as int), fs + scale(k, step_file as int)), q),
                        end_square_rank == rank_of(e),
                        end_square_file == file_of(e),
                    ensures
                        k == big_k,
                    decreases big_k - k,
                {
                    if current_rank == end_square_rank && current_file == end_square_file {
                        break;
                    }
                    proof {
                        lemma_line_on_board(rs, fs, step_rank as int, step_file as int, k, big_k);
                        lemma_line_on_board(rs, fs, step_rank as int, step_file as int, k + 1, big_k);
                    }
                    let current_sq = current_rank * 8 + current_file;
                    proof {
                        assert forall|q: int| #[trigger] has_bit(ray | (1u64 << (current_sq as u64)), q) == between(s, square_at(rs + scale(k + 1, step_rank as int), fs + scale(k + 1, step_file as int)), q) by {
                            lemma_between_step(rs, fs, step_rank as int, step_file as int, k, q);
                            assert(current_sq == square_at(rs + scale(k, step_rank as int), fs + scale(k, step_file as int)));
                            lemma_has_bit_single(current_sq as int, q);
                            lemma_has_bit_or(ray, 1u64 << (current_sq as u64), q);
                            assert(has_bit(ray, q) == between(s, square_at(rs + scale(k, step_rank as int), fs + scale(k, step_file as int)), q));
                            assert(has_bit(1u64 << (current_sq as u64), q) == (q == current_sq));
                        }
                        k = k + 1;
                    }
                    ray |= 1u64 << (current_sq as u64);
                    current_rank += step_rank;
                    current_file += step_file;
                }
                proof {
                    assert(square_at(rs + scale(k, step_rank as int), fs + scale(k, step_file as int)) == e);
                    assert(ray_matches(ray, s, e));
                    assert forall|q: int| #[trigger] has_bit(ray, q) == between(e, s, q) by {
                        assert(has_bit(ray, q) == between(s, e, q));
                    }
                }
                ray_table[start_square as usize][end_square as usize] = ray;
                ray_table[end_square as usize][start_square as usize] = ray;
            } else {
                proof {
                    let x = start_square as int;
                    let y = end_square as int;
                    assert(rank_diff == rank_of(y) - rank_of(x));
                    assert(file_diff == file_of(y) - file_of(x));
                    assert(!aligned(x, y));
                    assert(ray_table[x][y] == 0);
                    assert forall|q: int| #[trigger] has_bit(ray_table[x][y], q) == between(x, y, q) by {
                        lemma_has_bit_zero(q);
                    }
                    if !pair_done(y, x, x, y) {
                        assert(ray_table[y][x] == 0);
                    }
                    assert forall|q: int| #[trigger] has_bit(ray_table[y][x], q) == between(y, x, q) by {
                        if !pair_done(y, x, x, y) {
                            lemma_has_bit_zero(q);
                        } else {
                            assert(ray_matches(ray_table[y][x], y, x));
                        }
                    }
                }
            }
            end_square += 1;
        }
        start_square += 1;
    }
    ray_table
}

/// A bitboard holds exactly the squares between `x` and `y`, `y` included.
pub open spec fn ray_end_matches(v: u64, x: int, y: int) -> bool {
    forall|q: int| #[trigger] has_bit(v, q) == between_end_inclusive(x, y, q)
}

pub fn generate_ray_end_inclusive_table() -> (t: [[u64; 64]; 64])
    ensures
        forall|s: int, e: int| 0 <= s < 64 && 0 <= e < 64 ==> ray_end_matches(#[trigger] t[s][e], s, e),
{
    broadcast use group_bits, lemma_square_at, lemma_rank_file;
    let mut ray_table = [[0u64; 64]; 64];
    let mut start_square: i8 = 0;
    while start_square < 64
        invariant
            0 <= start_square <= 64,
            forall|x: int, y: int|
                0 <= x < 64 && 0 <= y < 64 ==> {
                    if x < start_square {
                        ray_end_matches(#[trigger] ray_table[x][y], x, y)
                    } else {
                        ray_table[x][y] == 0
                    }
                },
        decreases 64 - start_square,
    {
        let start_square_rank = start_square / 8;
        let start_square_file = start_square % 8;
        let mut end_square: i8 = 0;
        while end_square < 64
            invariant
                0 <= start_square < 64,
                0 <= end_square <= 64,
                start_square_rank == rank_of(start_square as int),
                start_square_file == file_of(start_square as int),
                forall|x: int, y: int|
                    0 <= x < 64 && 0 <= y < 64 ==> {
                        if x < start_square || (x == start_square && y < end_square) {
                            ray_end_matches(#[trigger] ray_table[x][y], x, y)
                        } else {
                            ray_table[x][y] == 0
                        }
                    },
            decreases 64 - end_square,
        {
            if start_square == end_square {
                proof {
                    let x = start_square as int;
                    assert forall|q: int| #[trigger] has_bit(ray_table[x][x], q) == between_end_inclusive(x, x, q) by {
                        lemma_has_bit_zero(q);
                    }
                }
                end_square += 1;
                continue;
            }
            let end_square_rank = end_square / 8;
            let end_square_file = end_square % 8;
            let rank_diff = end_square_rank - start_square_rank;
            let file_diff = end_square_file - start_square_file;
            let is_bishop_ray = abs_i8(rank_diff) == abs_i8(file_diff);
            let is_rook_ray = rank_diff == 0 || file_diff == 0;
            if is_bishop_ray || is_rook_ray {
                let mut ray: u64 = 0;
                let step_rank = signum_i8(rank_diff);
                let step_file = signum_i8(file_diff);
                let mut current_rank = start_square_rank + step_rank;
                let mut current_file = start_square_file + step_file;
                let ghost s = start_square as int;
                let ghost e = end_square as int;
                let ghost rs = start_square_rank as int;
                let ghost fs = start_square_file as int;
                let ghost big_k: int = if rank_diff < 0 {
                    -rank_diff
                } else if rank_diff > 0 {
                    rank_diff as int
                } else if file_diff < 0 {
                    -file_diff
                } else {
                    file_diff as int
                };
                let ghost mut k: int = 1;
                proof {
                    assert(rank_diff == rank_of(e) - rs);
                    assert(file_diff == file_of(e) - fs);
                    assert(rank_of(e) == rs + scale(big_k, step_rank as int));
                    assert(file_of(e) == fs + scale(big_k, step_file as int));
                    assert(e == square_at(rs + scale(big_k, step_rank as int), fs + scale(big_k, step_file as int)));
                    lemma_line_on_board(rs, fs, step_rank as int, step_file as int, 1, big_k);
                    assert(s == square_at(rs, fs));
                    assert(scale(1, step_rank as int) == step_rank);
                    assert(scale(1, step_file as int) == step_file);
                    assert forall|q: int| #[trigger] has_bit(ray, q) == between(s, square_at(rs + scale(k, step_rank as int), fs + scale(k, step_file as int)), q) by {
                        lemma_between_adjacent(rs, fs, step_rank as int, step_file as int, q);
                        lemma_has_bit_zero(q);
                    }
                }
                loop
                    invariant_except_break
                        1 <= k <= big_k,
                        current_rank == rs + scale(k, step_rank as int),
                        current_file == fs + scale(k, step_file as int),
                        forall|q: int| #[trigger] has_bit(ray, q) == between(s, square_at(rs + scale(k, step_rank as int), fs + scale(k, step_file as int)), q),
                    invariant
                        rs == start_square_rank,
                        fs == start_square_file,
                        s == start_square,
                        e == end_square,
                        0 <= s < 64,
                        0 <= e < 64,
                        s != e,
                        rs == rank_of(s),
                        fs == file_of(s),
                        s == square_at(rs, fs),
                        -1 <= step_rank <= 1,
                        -1 <= step_file <= 1,
                        step_rank != 0 || step_file != 0,
                        e == square_at(rs + scale(big_k, step_rank as int), fs + scale(big_k, step_file as int)),
                        on_board(rs + scale(big_k, step_rank as int), fs + scale(big_k, step_file as int)),
                        end_square_rank == rank_of(e),
                        end_square_file == file_of(e),
                    ensures
                        forall|q: int| #[trigger] has_bit(ray, q) == between_end_inclusive(s, e, q),
                    decreases big_k - k,
                {
                    proof {
                        lemma_line_on_board(rs, fs, step_rank as int, step_file as int, k, big_k);
                    }
                    let current_sq = current_rank * 8 + current_file;
                    let ghost old_ray = ray;
                    ray |= 1u64 << (current_sq as u64);
                    proof {
                        assert(current_sq == square_at(rs + scale(k, step_rank as int), fs + scale(k, step_file as int)));
                    }
                    if current_rank == end_square_rank && current_file == end_square_file {
                        proof {
                            assert(k == big_k);
                            assert(aligned(s, e));
                            assert forall|q: int| #[trigger] has_bit(ray, q) == between_end_inclusive(s, e, q) by {
                                lemma_has_bit_single(current_sq as int, q);
                                lemma_has_bit_or(old_ray, 1u64 << (current_sq as u64), q);
                                assert(has_bit(old_ray, q) == between(s, e, q));
                            }
                        }
                        break;
                    }
                    proof {
                        lemma_line_on_board(rs, fs, step_rank as int, step_file as int, k + 1, big_k);
                        assert forall|q: int| #[trigger] has_bit(ray, q) == between(s, square_at(rs + scale(k + 1, step_rank as int), fs + scale(k + 1, step_file as int)), q) by {
                            lemma_between_step(rs, fs, step_rank as int, step_file as int, k, q);
                            lemma_has_bit_single(current_sq as int, q);
                            lemma_has_bit_or(old_ray, 1u64 << (current_sq as u64), q);
                            assert(has_bit(old_ray, q) == between(s, square_at(rs + scale(k, step_rank as int), fs + scale(k, step_file as int)), q));
                        }
                        k = k + 1;
                    }
                    current_rank += step_rank;
                    current_file += step_file;
                }
                ray_table[start_square as usize][end_square as usize] = ray;
            } else {
                proof {
                    let x = start_square as int;
                    let y = end_square as int;
                    assert(rank_diff == rank_of(y) - rank_of(x));
                    assert(file_diff == file_of(y) - file_of(x));
                    assert(!aligned(x, y));
                    assert forall|q: int| #[trigger] has_bit(ray_table[x][y], q) == between_end_inclusive(x, y, q) by {
                        lemma_has_bit_zero(q);
                    }
                }
            }
            end_square += 1;
        }
        start_square += 1;
    }
    ray_table
}

/// The two ray tables: squares strictly between two squares, and the same
/// with the end square included.
pub struct RayTables {
    pub exclusive: [[u64; 64]; 64],
    pub end_inclusive: [[u64; 64]; 64],
}

impl RayTables {
    pub open spec fn wf(&self) -> bool {
        &&& forall|s: int, e: int| 0 <= s < 64 && 0 <= e < 64 ==> ray_matches(#[trigger] self.exclusive[s][e], s, e)
        &&& forall|s: int, e: int| 0 <= s < 64 && 0 <= e < 64 ==> ray_end_matches(#[trigger] self.end_inclusive[s][e], s, e)
    }

    pub fn new() -> (t: RayTables)
        ensures
            t.wf(),
    {
        RayTables { exclusive: generate_ray_table(), end_inclusive: generate_ray_end_inclusive_table() }
    }
}

/// The squares strictly between two squares on a common line; empty when the
/// squares are not aligned.
pub fn get_ray_between_exclusive(rays: &RayTables, start_square: u8, end_square: u8) -> (r: u64)
    requires
        rays.wf(),
        start_square < 64,
        end_square < 64,
    ensures
        forall|q: int| #[trigger] has_bit(r, q) == between(start_square as int, end_square as int, q),
{
    let r = rays.exclusive[start_square as usize][end_square as usize];
    assert(ray_matches(r, start_square as int, end_square as int));
    r
}

/// The squares between two squares on a common line, the end square
/// included; empty when the squares are not aligned.
pub fn get_ray_between_end_inclusive(rays: &RayTables, start_square: u8, end_square: u8) -> (r: u64)
    requires
        rays.wf(),
        start_square < 64,
        end_square < 64,
    ensures
        forall|q: int| #[trigger] has_bit(r, q) == between_end_inclusive(start_square as int, end_square as int, q),
{
    let r = rays.end_inclusive[start_square as usize][end_square as usize];
    assert(ray_end_matches(r, start_square as int, end_square as int));
    r
}

} // verus!
