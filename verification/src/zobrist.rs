use vstd::prelude::*;

verus! {

/// Random keys for Zobrist hashing: one per piece and square, one per set of
/// castling rights, one per en passant file, and one for white to move.
pub struct ZobristTable {
    pub piece_square: [[u64; 64]; 12],
    pub castling_rights: [u64; 16],
    pub en_passant: [u64; 8],
    pub active_color: u64,
}

/// One xorshift step.
pub open spec fn xorshift(x: u64) -> u64 {
    let a = x ^ (x << 13u64);
    let b = a ^ (a >> 7u64);
    b ^ (b << 17u64)
}

/// The seed of the key generator.
pub open spec fn zobrist_seed() -> u64 {
    31415926535
}

/// The state of the generator after `n` steps.
pub open spec fn rng_state(n: nat) -> u64
    decreases n,
{
    if n == 0 {
        zobrist_seed()
    } else {
        xorshift(rng_state((n - 1) as nat))
    }
}

struct ConstRng {
    state: u64,
}

impl ConstRng {
    fn next(&mut self) -> (r: u64)
        ensures
            final(self).state == xorshift(old(self).state),
            r == final(self).state,
    {
        self.state ^= self.state << 13;
        self.state ^= self.state >> 7;
        self.state ^= self.state << 17;
        self.state
    }
}

impl ZobristTable {
    /// Every key is the output of the generator at its place in the order
    /// pieces by squares, castling rights, en passant files, side to move.
    pub open spec fn wf(&self) -> bool {
        &&& forall|p: int, s: int| 0 <= p < 12 && 0 <= s < 64 ==> #[trigger] self.piece_square[p][s] == rng_state((p * 64 + s + 1) as nat)
        &&& forall|i: int| 0 <= i < 16 ==> #[trigger] self.castling_rights[i] == rng_state((768 + i + 1) as nat)
        &&& forall|j: int| 0 <= j < 8 ==> #[trigger] self.en_passant[j] == rng_state((784 + j + 1) as nat)
        &&& self.active_color == rng_state(793)
    }
}

pub fn generate_zobrist_table() -> (z: ZobristTable)
    ensures
        z.wf(),
{
    let mut rng = ConstRng { state: 31415926535 };
    let ghost mut n: nat = 0;
    let mut piece_square = [[0u64; 64]; 12];
    let mut piece: usize = 0;
    while piece < 12
        invariant
            piece <= 12,
            n == piece * 64,
            rng.state == rng_state(n),
            forall|p: int, s: int| 0 <= p < piece && 0 <= s < 64 ==> #[trigger] piece_square[p][s] == rng_state((p * 64 + s + 1) as nat),
        decreases 12 - piece,
    {
        let mut square: usize = 0;
        while square < 64
            invariant
                piece < 12,
                square <= 64,
                n == piece * 64 + square,
                rng.state == rng_state(n),
                forall|p: int, s: int| 0 <= p < piece && 0 <= s < 64 ==> #[trigger] piece_square[p][s] == rng_state((p * 64 + s + 1) as nat),
                forall|s: int| 0 <= s < square ==> #[trigger] piece_square[piece as int][s] == rng_state((piece * 64 + s + 1) as nat),
            decreases 64 - square,
        {
            let v = rng.next();
            proof {
                n = n + 1;
            }
            piece_square[piece][square] = v;
            square += 1;
        }
        piece += 1;
    }
    let mut castling_rights = [0u64; 16];
    let mut i: usize = 0;
    while i < 16
        invariant
            i <= 16,
            n == 768 + i,
            rng.state == rng_state(n),
            forall|k: int| 0 <= k < i ==> #[trigger] castling_rights[k] == rng_state((768 + k + 1) as nat),
        decreases 16 - i,
    {
        let v = rng.next();
        proof {
            n = n + 1;
        }
        castling_rights[i] = v;
        i += 1;
    }
    let mut en_passant = [0u64; 8];
    let mut j: usize = 0;
    while j < 8
        invariant
            j <= 8,
            n == 784 + j,
            rng.state == rng_state(n),
            forall|k: int| 0 <= k < j ==> #[trigger] en_passant[k] == rng_state((784 + k + 1) as nat),
        decreases 8 - j,
    {
        let v = rng.next();
        proof {
            n = n + 1;
        }
        en_passant[j] = v;
        j += 1;
    }
    let active_color = rng.next();
    ZobristTable { piece_square, castling_rights, en_passant, active_color }
}

} // verus!
