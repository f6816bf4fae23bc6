use vstd::prelude::*;
use crate::bitboard::{
    has_bit, rank_of, file_of, on_board, square_at, group_bits, lemma_square_at, lemma_rank_file,
    lemma_has_bit_single, lemma_has_bit_or, lemma_has_bit_zero,
};

verus! {

/// A white pawn on `s` attacks `t`: one rank up, one file to either side.
pub open spec fn white_pawn_attack(s: int, t: int) -> bool {
    0 <= s < 64 && 0 <= t < 64 && rank_of(t) == rank_of(s) + 1 && (file_of(t) == file_of(s) - 1
        || file_of(t) == file_of(s) + 1)
}

/// A black pawn on `s` attacks `t`: one rank down, one file to either side.
pub open spec fn black_pawn_attack(s: int, t: int) -> bool {
    0 <= s < 64 && 0 <= t < 64 && rank_of(t) == rank_of(s) - 1 && (file_of(t) == file_of(s) - 1
        || file_of(t) == file_of(s) + 1)
}

pub open spec fn abs(x: int) -> int {
    if x < 0 {
        -x
    } else {
        x
    }
}

/// A knight on `s` attacks `t`: two squares one way and one the other.
pub open spec fn knight_attack(s: int, t: int) -> bool {
    &&& 0 <= s < 64
    &&& 0 <= t < 64
    &&& {
        ||| (abs(rank_of(t) - rank_of(s)) == 1 && abs(file_of(t) - file_of(s)) == 2)
        ||| (abs(rank_of(t) - rank_of(s)) == 2 && abs(file_of(t) - file_of(s)) == 1)
    }
}

/// A king on `s` attacks `t`: any neighbouring square.
pub open spec fn king_attack(s: int, t: int) -> bool {
    &&& 0 <= s < 64
    &&& 0 <= t < 64
    &&& s != t
    &&& abs(rank_of(t) - rank_of(s)) <= 1
    &&& abs(file_of(t) - file_of(s)) <= 1
}

/// The bitboard `v` holds exactly the squares `t` with `p(t)`.
pub open spec fn bits_are(v: u64, p: spec_fn(int) -> bool) -> bool {
    forall|t: int| #[trigger] has_bit(v, t) == p(t)
}

pub fn generate_white_pawn_attacks() -> (table: [u64; 64])
    ensures
        forall|s: int| 0 <= s < 64 ==> bits_are(#[trigger] table[s], |t: int| white_pawn_attack(s, t)),
{
    broadcast use group_bits, lemma_square_at, lemma_rank_file;
    let mut white_pawn_attacks = [0u64; 64];
    let mut square: usize = 0;
    while square < 64
        invariant
            square <= 64,
            forall|s: int| 0 <= s < square ==> bits_are(#[trigger] white_pawn_attacks[s], |t: int| white_pawn_attack(s, t)),
        decreases 64 - square,
    {
        let rank = square / 8;
        let file = square % 8;
        let mut attacks: u64 = 0;
        let ghost a0 = attacks;
        let ghost mut a1 = attacks;
        if rank < 7 {
            if file > 0 {
                attacks |= 1u64 << ((square + 7) as u64);
            }
            proof { a1 = attacks; }
            if file < 7 {
                attacks |= 1u64 << ((square + 9) as u64);
            }
        }
        proof {
            let s = square as int;
            assert forall|t: int| #[trigger] has_bit(attacks, t) == white_pawn_attack(s, t) by {
                lemma_has_bit_zero(t);
                if rank < 7 && file > 0 { lemma_has_bit_single(s + 7, t); lemma_has_bit_or(a0, 1u64 << ((square + 7) as u64), t); }
                if rank < 7 && file < 7 { lemma_has_bit_single(s + 9, t); lemma_has_bit_or(a1, 1u64 << ((square + 9) as u64), t); }
                if 0 <= t < 64 {
                    assert(t == square_at(rank_of(t), file_of(t)));
                }
            }
        }
        white_pawn_attacks[square] = attacks;
        square += 1;
    }
    white_pawn_attacks
}

pub fn generate_black_pawn_attacks() -> (table: [u64; 64])
    ensures
        forall|s: int| 0 <= s < 64 ==> bits_are(#[trigger] table[s], |t: int| black_pawn_attack(s, t)),
{
    broadcast use group_bits, lemma_square_at, lemma_rank_file;
    let mut black_pawn_attacks = [0u64; 64];
    let mut square: usize = 0;
    while square < 64
        invariant
            square <= 64,
            forall|s: int| 0 <= s < square ==> bits_are(#[trigger] black_pawn_attacks[s], |t: int| black_pawn_attack(s, t)),
        decreases 64 - square,
    {
        let rank = square / 8;
        let file = square % 8;
        let mut attacks: u64 = 0;
        let ghost a0 = attacks;
        let ghost mut a1 = attacks;
        if rank > 0 {
            if file > 0 {
                attacks |= 1u64 << ((square - 9) as u64);
            }
            proof { a1 = attacks; }
            if file < 7 {
                attacks |= 1u64 << ((square - 7) as u64);
            }
        }
        proof {
            let s = square as int;
            assert forall|t: int| #[trigger] has_bit(attacks, t) == black_pawn_attack(s, t) by {
                lemma_has_bit_zero(t);
                if rank > 0 && file > 0 { lemma_has_bit_single(s - 9, t); lemma_has_bit_or(a0, 1u64 << ((square - 9) as u64), t); }
                if rank > 0 && file < 7 { lemma_has_bit_single(s - 7, t); lemma_has_bit_or(a1, 1u64 << ((square - 7) as u64), t); }
                if 0 <= t < 64 {
                    assert(t == square_at(rank_of(t), file_of(t)));
                }
            }
        }
        black_pawn_attacks[square] = attacks;
        square += 1;
    }
    black_pawn_attacks
}

/// The squares that the first `i` of a list of offsets reach from a rank and
/// a file.
pub open spec fn reached_by(
    rank: int,
    file: int,
    dr: Seq<int>,
    df: Seq<int>,
    i: int,
    t: int,
) -> bool
    decreases i,
{
    if i <= 0 {
        false
    } else {
        reached_by(rank, file, dr, df, i - 1, t) || (on_board(rank + dr[i - 1], file + df[i - 1])
            && t == square_at(rank + dr[i - 1], file + df[i - 1]))
    }
}

pub open spec fn knight_rank_offsets() -> Seq<int> {
    seq![2, 1, -1, -2, -2, -1, 1, 2]
}

pub open spec fn knight_file_offsets() -> Seq<int> {
    seq![1, 2, 2, 1, -1, -2, -2, -1]
}

pub open spec fn king_rank_offsets() -> Seq<int> {
    seq![1, 1, 0, -1, -1, -1, 0, 1]
}

pub open spec fn king_file_offsets() -> Seq<int> {
    seq![0, 1, 1, 1, 0, -1, -1, -1]
}

proof fn lemma_knight_offsets(s: int, t: int)
    requires
        0 <= s < 64,
    ensures
        reached_by(rank_of(s), file_of(s), knight_rank_offsets(), knight_file_offsets(), 8, t)
            == knight_attack(s, t),
{
    broadcast use lemma_square_at, lemma_rank_file;
    reveal_with_fuel(reached_by, 9);
    if 0 <= t < 64 {
        assert(t == square_at(rank_of(t), file_of(t)));
    }
}

proof fn lemma_king_offsets(s: int, t: int)
    requires
        0 <= s < 64,
    ensures
        reached_by(rank_of(s), file_of(s), king_rank_offsets(), king_file_offsets(), 8, t)
            == king_attack(s, t),
{
    broadcast use lemma_square_at, lemma_rank_file;
    reveal_with_fuel(reached_by, 9);
    if 0 <= t < 64 {
        assert(t == square_at(rank_of(t), file_of(t)));
    }
}

/// Fills, for every square, the squares reached by one of eight offsets.
fn offset_attacks(rank_offsets: [i32; 8], file_offsets: [i32; 8]) -> (table: [u64; 64])
    requires
        forall|i: int| 0 <= i < 8 ==> -2 <= #[trigger] rank_offsets[i] <= 2,
        forall|i: int| 0 <= i < 8 ==> -2 <= #[trigger] file_offsets[i] <= 2,
    ensures
        forall|s: int| 0 <= s < 64 ==> bits_are(#[trigger] table[s], |t: int| reached_by(rank_of(s), file_of(s), rank_offsets@.map_values(|x: i32| x as int), file_offsets@.map_values(|x: i32| x as int), 8, t)),
{
    broadcast use group_bits, lemma_square_at, lemma_rank_file;
    let ghost dr = rank_offsets@.map_values(|x: i32| x as int);
    let ghost df = file_offsets@.map_values(|x: i32| x as int);
    let mut attack_table = [0u64; 64];
    let mut square: i32 = 0;
    while square < 64
        invariant
            0 <= square <= 64,
            dr == rank_offsets@.map_values(|x: i32| x as int),
            df == file_offsets@.map_values(|x: i32| x as int),
            forall|i: int| 0 <= i < 8 ==> -2 <= #[trigger] rank_offsets[i] <= 2,
            forall|i: int| 0 <= i < 8 ==> -2 <= #[trigger] file_offsets[i] <= 2,
            forall|s: int| 0 <= s < square ==> bits_are(#[trigger] attack_table[s], |t: int| reached_by(rank_of(s), file_of(s), dr, df, 8, t)),
        decreases 64 - square,
    {
        let rank = square / 8;
        let file = square % 8;
        let mut attacks: u64 = 0;
        let mut i: usize = 0;
        assert forall|t: int| #[trigger] has_bit(attacks, t) == reached_by(rank as int, file as int, dr, df, i as int, t) by {
            lemma_has_bit_zero(t);
        }
        while i < 8
            invariant
                0 <= square < 64,
                rank == rank_of(square as int),
                file == file_of(square as int),
                i <= 8,
                dr == rank_offsets@.map_values(|x: i32| x as int),
                df == file_offsets@.map_values(|x: i32| x as int),
                forall|j: int| 0 <= j < 8 ==> -2 <= #[trigger] rank_offsets[j] <= 2,
                forall|j: int| 0 <= j < 8 ==> -2 <= #[trigger] file_offsets[j] <= 2,
                forall|t: int| #[trigger] has_bit(attacks, t) == reached_by(rank as int, file as int, dr, df, i as int, t),
            decreases 8 - i,
        {
            let attack_rank = rank + rank_offsets[i];
            let attack_file = file + file_offsets[i];
            let ghost old_attacks = attacks;
            i += 1;
            if attack_rank < 0 || attack_rank >= 8 || attack_file < 0 || attack_file >= 8 {
                proof {
                    assert forall|t: int| #[trigger] has_bit(attacks, t) == reached_by(rank as int, file as int, dr, df, i as int, t) by {
                        assert(has_bit(attacks, t) == reached_by(rank as int, file as int, dr, df, i - 1, t));
                    }
                }
                continue;
            }
            let attack_square = attack_rank * 8 + attack_file;
            attacks |= 1u64 << (attack_square as u64);
            proof {
                assert forall|t: int| #[trigger] has_bit(attacks, t) == reached_by(rank as int, file as int, dr, df, i as int, t) by {
                    lemma_has_bit_single(attack_square as int, t);
                    lemma_has_bit_or(old_attacks, 1u64 << (attack_square as u64), t);
                    assert(has_bit(old_attacks, t) == reached_by(rank as int, file as int, dr, df, i - 1, t));
                }
            }
        }
        attack_table[square as usize] = attacks;
        square += 1;
    }
    attack_table
}

pub fn generate_knight_attacks() -> (table: [u64; 64])
    ensures
        forall|s: int| 0 <= s < 64 ==> bits_are(#[trigger] table[s], |t: int| knight_attack(s, t)),
{
    let rank_offsets: [i32; 8] = [2, 1, -1, -2, -2, -1, 1, 2];
    let file_offsets: [i32; 8] = [1, 2, 2, 1, -1, -2, -2, -1];
    assert(rank_offsets@.map_values(|x: i32| x as int) =~= knight_rank_offsets());
    assert(file_offsets@.map_values(|x: i32| x as int) =~= knight_file_offsets());
    let table = offset_attacks(rank_offsets, file_offsets);
    assert forall|s: int| 0 <= s < 64 implies bits_are(#[trigger] table[s], |t: int| knight_attack(s, t)) by {
        assert forall|t: int| #[trigger] has_bit(table[s], t) == knight_attack(s, t) by {
            lemma_knight_offsets(s, t);
        }
    }
    table
}

pub fn generate_king_attacks() -> (table: [u64; 64])
    ensures
        forall|s: int| 0 <= s < 64 ==> bits_are(#[trigger] table[s], |t: int| king_attack(s, t)),
{
    let rank_offsets: [i32; 8] = [1, 1, 0, -1, -1, -1, 0, 1];
    let file_offsets: [i32; 8] = [0, 1, 1, 1, 0, -1, -1, -1];
    assert(rank_offsets@.map_values(|x: i32| x as int) =~= king_rank_offsets());
    assert(file_offsets@.map_values(|x: i32| x as int) =~= king_file_offsets());
    let table = offset_attacks(rank_offsets, file_offsets);
    assert forall|s: int| 0 <= s < 64 implies bits_are(#[trigger] table[s], |t: int| king_attack(s, t)) by {
        assert forall|t: int| #[trigger] has_bit(table[s], t) == king_attack(s, t) by {
            lemma_king_offsets(s, t);
        }
    }
    table
}

/// The attack tables of the pieces that do not slide.
pub struct AttackTables {
    pub white_pawn: [u64; 64],
    pub black_pawn: [u64; 64],
    pub knight: [u64; 64],
    pub king: [u64; 64],
}

impl AttackTables {
    pub open spec fn wf(&self) -> bool {
        &&& forall|s: int| 0 <= s < 64 ==> bits_are(#[trigger] self.white_pawn[s], |t: int| white_pawn_attack(s, t))
        &&& forall|s: int| 0 <= s < 64 ==> bits_are(#[trigger] self.black_pawn[s], |t: int| black_pawn_attack(s, t))
        &&& forall|s: int| 0 <= s < 64 ==> bits_are(#[trigger] self.knight[s], |t: int| knight_attack(s, t))
        &&& forall|s: int| 0 <= s < 64 ==> bits_are(#[trigger] self.king[s], |t: int| king_attack(s, t))
    }

    pub fn new() -> (t: AttackTables)
        ensures
            t.wf(),
    {
        AttackTables {
            white_pawn: generate_white_pawn_attacks(),
            black_pawn: generate_black_pawn_attacks(),
            knight: generate_knight_attacks(),
            king: generate_king_attacks(),
        }
    }
}

} // verus!
