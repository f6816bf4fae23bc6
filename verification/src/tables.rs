use vstd::prelude::*;
use crate::attacks::AttackTables;
use crate::bitboard::{RayTables, castling_mask, generate_castling_permutations};
use crate::magic_bitboard::{MagicTables, magics_consistent, masks_cover};
use crate::zobrist::{ZobristTable, generate_zobrist_table};

verus! {

/// Every precomputed table the board and the move generator read.
pub struct Tables {
    pub attacks: AttackTables,
    pub magic: MagicTables,
    pub rays: RayTables,
    pub zobrist: ZobristTable,
    pub castling_permutations: [u8; 64],
}

impl Tables {
    pub open spec fn wf(&self) -> bool {
        &&& self.attacks.wf()
        &&& self.magic.wf()
        &&& self.rays.wf()
        &&& self.zobrist.wf()
        &&& forall|s: int| 0 <= s < 64 ==> #[trigger] self.castling_permutations[s] == castling_mask(s)
    }

    /// Builds all tables; `None` when the magic constants do not make a
    /// perfect attack table, or a mask misses a square where a ray can be
    /// stopped.
    pub fn new() -> (res: Option<Tables>)
        ensures
            res is Some == (magics_consistent(false) && magics_consistent(true) && masks_cover(false) && masks_cover(true)),
            res matches Some(t) ==> t.wf(),
    {
        match MagicTables::new() {
            Some(magic) => Some(Tables {
                attacks: AttackTables::new(),
                magic,
                rays: RayTables::new(),
                zobrist: generate_zobrist_table(),
                castling_permutations: generate_castling_permutations(),
            }),
            None => None,
        }
    }
}

} // verus!
