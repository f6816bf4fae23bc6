use vstd::prelude::*;

verus! {

/// The game phase of the opening position: every knight and bishop counts
/// 1, every rook 2, every queen 4.
pub const MAX_PHASE: u8 = 24;

/// Middle game value of a pawn, knight, bishop, rook and queen.
pub const MATERIAL_MG: [i32; 5] = [82, 337, 365, 477, 1025];

/// End game value of a pawn, knight, bishop, rook and queen.
pub const MATERIAL_EG: [i32; 5] = [94, 281, 297, 512, 936];

/// Middle game bonus of a pawn by square, from white's side, a1 first.
pub const PAWN_PSQT_MG: [i32; 64] = [
    0, 0, 0, 0, 0, 0, 0, 0,
    5, 10, 10, -20, -20, 10, 10, 5,
    5, -5, -10, 0, 0, -10, -5, 5,
    0, 0, 0, 20, 20, 0, 0, 0,
    5, 5, 10, 25, 25, 10, 5, 5,
    10, 10, 20, 30, 30, 20, 10, 10,
    50, 50, 50, 50, 50, 50, 50, 50,
    0, 0, 0, 0, 0, 0, 0, 0,
];

/// End game bonus of a pawn by square, from white's side, a1 first.
pub const PAWN_PSQT_EG: [i32; 64] = [
    0, 0, 0, 0, 0, 0, 0, 0,
    5, 10, 10, -20, -20, 10, 10, 5,
    5, -5, -10, 0, 0, -10, -5, 5,
    0, 0, 0, 20, 20, 0, 0, 0,
    5, 5, 10, 25, 25, 10, 5, 5,
    10, 10, 20, 30, 30, 20, 10, 10,
    50, 50, 50, 50, 50, 50, 50, 50,
    0, 0, 0, 0, 0, 0, 0, 0,
];

/// Middle game bonus of a knight by square, from white's side, a1 first.
pub const KNIGHT_PSQT_MG: [i32; 64] = [
    -50, -40, -30, -30, -30, -30, -40, -50,
    -40, -20, 0, 5, 5, 0, -20, -40,
    -30, 5, 10, 15, 15, 10, 5, -30,
    -30, 0, 15, 20, 20, 15, 0, -30,
    -30, 5, 15, 20, 20, 15, 5, -30,
    -30, 0, 10, 15, 15, 10, 0, -30,
    -40, -20, 0, 0, 0, 0, -20, -40,
    -50, -40, -30, -30, -30, -30, -40, -50,
];

/// End game bonus of a knight by square, from white's side, a1 first.
pub const KNIGHT_PSQT_EG: [i32; 64] = [
    -50, -40, -30, -30, -30, -30, -40, -50,
    -40, -20, 0, 5, 5, 0, -20, -40,
    -30, 5, 10, 15, 15, 10, 5, -30,
    -30, 0, 15, 20, 20, 15, 0, -30,
    -30, 5, 15, 20, 20, 15, 5, -30,
    -30, 0, 10, 15, 15, 10, 0, -30,
    -40, -20, 0, 0, 0, 0, -20, -40,
    -50, -40, -30, -30, -30, -30, -40, -50,
];

/// Middle game bonus of a bishop by square, from white's side, a1 first.
pub const BISHOP_PSQT_MG: [i32; 64] = [
    -20, -10, -10, -10, -10, -10, -10, -20,
    -10, 5, 0, 0, 0, 0, 5, -10,
    -10, 10, 10, 10, 10, 10, 10, -10,
    -10, 0, 10, 10, 10, 10, 0, -10,
    -10, 5, 5, 10, 10, 5, 5, -10,
    -10, 0, 5, 10, 10, 5, 0, -10,
    -10, 0, 0, 0, 0, 0, 0, -10,
    -20, -10, -10, -10, -10, -10, -10, -20,
];

/// End game bonus of a bishop by square, from white's side, a1 first.
pub const BISHOP_PSQT_EG: [i32; 64] = [
    -20, -10, -10, -10, -10, -10, -10, -20,
    -10, 5, 0, 0, 0, 0, 5, -10,
    -10, 10, 10, 10, 10, 10, 10, -10,
    -10, 0, 10, 10, 10, 10, 0, -10,
    -10, 5, 5, 10, 10, 5, 5, -10,
    -10, 0, 5, 10, 10, 5, 0, -10,
    -10, 0, 0, 0, 0, 0, 0, -10,
    -20, -10, -10, -10, -10, -10, -10, -20,
];

/// Middle game bonus of a rook by square, from white's side, a1 first.
pub const ROOK_PSQT_MG: [i32; 64] = [
    0, 0, 0, 5, 5, 0, 0, 0,
    -5, 0, 0, 0, 0, 0, 0, -5,
    -5, 0, 0, 0, 0, 0, 0, -5,
    -5, 0, 0, 0, 0, 0, 0, -5,
    -5, 0, 0, 0, 0, 0, 0, -5,
    -5, 0, 0, 0, 0, 0, 0, -5,
    5, 10, 10, 10, 10, 10, 10, 5,
    0, 0, 0, 0, 0, 0, 0, 0,
];

/// End game bonus of a rook by square, from white's side, a1 first.
pub const ROOK_PSQT_EG: [i32; 64] = [
    0, 0, 0, 5, 5, 0, 0, 0,
    -5, 0, 0, 0, 0, 0, 0, -5,
    -5, 0, 0, 0, 0, 0, 0, -5,
    -5, 0, 0, 0, 0, 0, 0, -5,
    -5, 0, 0, 0, 0, 0, 0, -5,
    -5, 0, 0, 0, 0, 0, 0, -5,
    5, 10, 10, 10, 10, 10, 10, 5,
    0, 0, 0, 0, 0, 0, 0, 0,
];

/// Middle game bonus of a queen by square, from white's side, a1 first.
pub const QUEEN_PSQT_MG: [i32; 64] = [
    -20, -10, -10, -5, -5, -10, -10, -20,
    -10, 0, 5, 0, 0, 0, 0, -10,
    -10, 5, 5, 5, 5, 5, 0, -10,
    0, 0, 5, 5, 5, 5, 0, -5,
    -5, 0, 5, 5, 5, 5, 0, -5,
    -10, 0, 5, 5, 5, 5, 0, -10,
    -10, 0, 0, 0, 0, 0, 0, -10,
    -20, -10, -10, -5, -5, -10, -10, -20,
];

/// End game bonus of a queen by square, from white's side, a1 first.
pub const QUEEN_PSQT_EG: [i32; 64] = [
    -20, -10, -10, -5, -5, -10, -10, -20,
    -10, 0, 5, 0, 0, 0, 0, -10,
    -10, 5, 5, 5, 5, 5, 0, -10,
    0, 0, 5, 5, 5, 5, 0, -5,
    -5, 0, 5, 5, 5, 5, 0, -5,
    -10, 0, 5, 5, 5, 5, 0, -10,
    -10, 0, 0, 0, 0, 0, 0, -10,
    -20, -10, -10, -5, -5, -10, -10, -20,
];

/// Middle game bonus of a king by square, from white's side, a1 first.
pub const KING_PSQT_MG: [i32; 64] = [
    20, 30, 10, 0, 0, 10, 30, 20,
    20, 20, 0, 0, 0, 0, 20, 20,
    -10, -20, -20, -20, -20, -20, -20, -10,
    -20, -30, -30, -40, -40, -30, -30, -20,
    -30, -40, -40, -50, -50, -40, -40, -30,
    -30, -40, -40, -50, -50, -40, -40, -30,
    -30, -40, -40, -50, -50, -40, -40, -30,
    -30, -40, -40, -50, -50, -40, -40, -30,
];

/// End game bonus of a king by square, from white's side, a1 first.
pub const KING_PSQT_EG: [i32; 64] = [
    -50, -30, -30, -30, -30, -30, -30, -50,
    -30, -30, 0, 0, 0, 0, -30, -30,
    -30, -10, 20, 30, 30, 20, -10, -30,
    -30, -10, 30, 40, 40, 30, -10, -30,
    -30, -10, 30, 40, 40, 30, -10, -30,
    -30, -10, 20, 30, 30, 20, -10, -30,
    -30, -20, -10, 0, 0, -10, -20, -30,
    -50, -40, -30, -20, -20, -30, -40, -50,
];

/// The middle game (`eg` false) or end game bonus of a piece kind (0 pawn
/// to 5 king) on a square index, from white's side.
pub open spec fn psqt(kind: int, index: int, eg: bool) -> int {
    if eg {
        if kind == 0 {
            PAWN_PSQT_EG[index] as int
        } else if kind == 1 {
            KNIGHT_PSQT_EG[index] as int
        } else if kind == 2 {
            BISHOP_PSQT_EG[index] as int
        } else if kind == 3 {
            ROOK_PSQT_EG[index] as int
        } else if kind == 4 {
            QUEEN_PSQT_EG[index] as int
        } else {
            KING_PSQT_EG[index] as int
        }
    } else {
        if kind == 0 {
            PAWN_PSQT_MG[index] as int
        } else if kind == 1 {
            KNIGHT_PSQT_MG[index] as int
        } else if kind == 2 {
            BISHOP_PSQT_MG[index] as int
        } else if kind == 3 {
            ROOK_PSQT_MG[index] as int
        } else if kind == 4 {
            QUEEN_PSQT_MG[index] as int
        } else {
            KING_PSQT_MG[index] as int
        }
    }
}

/// Every bonus lies between -50 and 50.
pub proof fn lemma_psqt_bound(kind: int, index: int, eg: bool)
    requires
        0 <= index < 64,
    ensures
        -50 <= psqt(kind, index, eg) <= 50,
{
    assert(forall|i: int| 0 <= i < 64 ==> -50 <= #[trigger] PAWN_PSQT_MG[i] <= 50);
    assert(forall|i: int| 0 <= i < 64 ==> -50 <= #[trigger] KNIGHT_PSQT_MG[i] <= 50);
    assert(forall|i: int| 0 <= i < 64 ==> -50 <= #[trigger] BISHOP_PSQT_MG[i] <= 50);
    assert(forall|i: int| 0 <= i < 64 ==> -50 <= #[trigger] ROOK_PSQT_MG[i] <= 50);
    assert(forall|i: int| 0 <= i < 64 ==> -50 <= #[trigger] QUEEN_PSQT_MG[i] <= 50);
    assert(forall|i: int| 0 <= i < 64 ==> -50 <= #[trigger] KING_PSQT_MG[i] <= 50);
    assert(forall|i: int| 0 <= i < 64 ==> -50 <= #[trigger] PAWN_PSQT_EG[i] <= 50);
    assert(forall|i: int| 0 <= i < 64 ==> -50 <= #[trigger] KNIGHT_PSQT_EG[i] <= 50);
    assert(forall|i: int| 0 <= i < 64 ==> -50 <= #[trigger] BISHOP_PSQT_EG[i] <= 50);
    assert(forall|i: int| 0 <= i < 64 ==> -50 <= #[trigger] ROOK_PSQT_EG[i] <= 50);
    assert(forall|i: int| 0 <= i < 64 ==> -50 <= #[trigger] QUEEN_PSQT_EG[i] <= 50);
    assert(forall|i: int| 0 <= i < 64 ==> -50 <= #[trigger] KING_PSQT_EG[i] <= 50);
}

/// The bonus of a piece kind on a square index.
pub fn psqt_entry(kind: usize, index: usize, eg: bool) -> (r: i32)
    requires
        kind < 6,
        index < 64,
    ensures
        r == psqt(kind as int, index as int, eg),
{
    if eg {
        match kind {
            0 => PAWN_PSQT_EG[index],
            1 => KNIGHT_PSQT_EG[index],
            2 => BISHOP_PSQT_EG[index],
            3 => ROOK_PSQT_EG[index],
            4 => QUEEN_PSQT_EG[index],
            _ => KING_PSQT_EG[index],
        }
    } else {
        match kind {
            0 => PAWN_PSQT_MG[index],
            1 => KNIGHT_PSQT_MG[index],
            2 => BISHOP_PSQT_MG[index],
            3 => ROOK_PSQT_MG[index],
            4 => QUEEN_PSQT_MG[index],
            _ => KING_PSQT_MG[index],
        }
    }
}

} // verus!
