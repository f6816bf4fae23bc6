use vstd::prelude::*;
use crate::bitboard::{
    has_bit, rank_of, file_of, on_board, square_at, scale, group_bits, lemma_square_at,
    lemma_rank_file, lemma_has_bit_or, lemma_has_bit_zero, lemma_bit_u64, lemma_bit_test,
};
use crate::attacks::bits_are;
use crate::bitboard::{without_lowest, popcount, count_squares, lowest_square, lemma_lowest_square, sq_bit, lemma_has_bit_single, lemma_bits_ext, lemma_has_bit_and};
use vstd::arithmetic::power2::pow2;

verus! {

/// Rank part of a board step, `step` being one of ±1, ±7, ±8, ±9.
pub open spec fn step_rank(step: int) -> int {
    if step == 7 || step == 8 || step == 9 {
        1
    } else if step == -7 || step == -8 || step == -9 {
        -1
    } else {
        0
    }
}

/// File part of a board step.
pub open spec fn step_file(step: int) -> int {
    if step == 9 || step == -7 || step == 1 {
        1
    } else if step == 7 || step == -9 || step == -1 {
        -1
    } else {
        0
    }
}

/// Sliding from rank `r`, file `f` by (`dr`, `df`) reaches square `t`: every
/// square up to and including the first occupied one, or up to the edge.
pub open spec fn slide(r: int, f: int, dr: int, df: int, occ: u64, t: int, fuel: nat) -> bool
    decreases fuel,
{
    if fuel == 0 || !on_board(r + dr, f + df) {
        false
    } else {
        t == square_at(r + dr, f + df) || (!has_bit(occ, square_at(r + dr, f + df)) && slide(
            r + dr,
            f + df,
            dr,
            df,
            occ,
            t,
            (fuel - 1) as nat,
        ))
    }
}

/// A slider on `s` moving by `step` attacks `t` with the board occupied by
/// `occ`.
pub open spec fn ray_attack(s: int, step: int, occ: u64, t: int) -> bool {
    slide(rank_of(s), file_of(s), step_rank(step), step_file(step), occ, t, 7)
}

/// The squares reached along the first `i` of a list of steps.
pub open spec fn rays_attack(s: int, steps: Seq<int>, i: int, occ: u64, t: int) -> bool
    decreases i,
{
    if i <= 0 {
        false
    } else {
        rays_attack(s, steps, i - 1, occ, t) || ray_attack(s, steps[i - 1], occ, t)
    }
}

pub open spec fn bishop_steps() -> Seq<int> {
    seq![9, -7, -9, 7]
}

pub open spec fn rook_steps() -> Seq<int> {
    seq![8, 1, -8, -1]
}

/// A bishop on `s` attacks `t` along a diagonal, stopping at the first
/// occupied square.
pub open spec fn bishop_attack(s: int, occ: u64, t: int) -> bool {
    0 <= s < 64 && (ray_attack(s, 9, occ, t) || ray_attack(s, -7, occ, t) || ray_attack(
        s,
        -9,
        occ,
        t,
    ) || ray_attack(s, 7, occ, t))
}

/// A rook on `s` attacks `t` along a rank or a file, stopping at the first
/// occupied square.
pub open spec fn rook_attack(s: int, occ: u64, t: int) -> bool {
    0 <= s < 64 && (ray_attack(s, 8, occ, t) || ray_attack(s, 1, occ, t) || ray_attack(
        s,
        -8,
        occ,
        t,
    ) || ray_attack(s, -1, occ, t))
}

/// Whether the step `step` from square `c` stays on the board, as the attack
/// generators test it.
pub open spec fn step_stays(c: int, step: int) -> bool {
    on_board(rank_of(c) + step_rank(step), file_of(c) + step_file(step))
}

/// After `k` steps of a walk that stays on the board, fewer than eight steps
/// were taken, and after seven the next step leaves the board.
proof fn lemma_walk_bound(r: int, f: int, dr: int, df: int, k: int)
    requires
        -1 <= dr <= 1,
        -1 <= df <= 1,
        dr != 0 || df != 0,
        k >= 0,
        on_board(r, f),
        on_board(r + scale(k, dr), f + scale(k, df)),
    ensures
        k <= 7,
        k == 7 ==> !on_board(r + scale(k, dr) + dr, f + scale(k, df) + df),
{
}

/// One step of the walk: the squares a slide reaches are the next square,
/// and, when that square is empty, what the slide reaches from it.
proof fn lemma_slide_unfold(r: int, f: int, dr: int, df: int, occ: u64, t: int, fuel: nat)
    requires
        fuel > 0,
        on_board(r + dr, f + df),
    ensures
        slide(r, f, dr, df, occ, t, fuel) == (t == square_at(r + dr, f + df) || (!has_bit(
            occ,
            square_at(r + dr, f + df),
        ) && slide(r + dr, f + df, dr, df, occ, t, (fuel - 1) as nat))),
{
}

/// Walks the rays of `steps` from `square`, as the bishop and rook attack
/// generators do; `edge` tells, for a square and a step, whether the step
/// leaves the board.
proof fn lemma_walk_invariant_step(
    r0: int,
    f0: int,
    dr: int,
    df: int,
    occ: u64,
    k: int,
    t: int,
)
    requires
        -1 <= dr <= 1,
        -1 <= df <= 1,
        dr != 0 || df != 0,
        0 <= k,
        on_board(r0, f0),
        on_board(r0 + scale(k + 1, dr), f0 + scale(k + 1, df)),
    ensures
        k < 7,
        slide(r0 + scale(k, dr), f0 + scale(k, df), dr, df, occ, t, (7 - k) as nat) == (t
            == square_at(r0 + scale(k + 1, dr), f0 + scale(k + 1, df)) || (!has_bit(
            occ,
            square_at(r0 + scale(k + 1, dr), f0 + scale(k + 1, df)),
        ) && slide(
            r0 + scale(k + 1, dr),
            f0 + scale(k + 1, df),
            dr,
            df,
            occ,
            t,
            (7 - (k + 1)) as nat,
        ))),
{
    lemma_walk_bound(r0, f0, dr, df, k + 1);
    assert(r0 + scale(k, dr) + dr == r0 + scale(k + 1, dr));
    assert(f0 + scale(k, df) + df == f0 + scale(k + 1, df));
    lemma_slide_unfold(r0 + scale(k, dr), f0 + scale(k, df), dr, df, occ, t, (7 - k) as nat);
}

#[verifier::spinoff_prover]
#[verifier::rlimit(40)]
pub fn generate_bishop_attacks_mask(square: u8, blockers: u64) -> (attacks: u64)
    requires
        square < 64,
    ensures
        bits_are(attacks, |t: int| bishop_attack(square as int, blockers, t)),
{
    broadcast use lemma_square_at, lemma_rank_file;
    let mut bishop_attacks: u64 = 0;
    let bishop_directions: [i32; 4] = [9, -7, -9, 7];
    let ghost s = square as int;
    let ghost r0 = rank_of(s);
    let ghost f0 = file_of(s);
    assert(bishop_directions@.map_values(|x: i32| x as int) =~= bishop_steps());
    let mut i: usize = 0;
    assert forall|t: int| #[trigger] has_bit(bishop_attacks, t) == rays_attack(s, bishop_steps(), i as int, blockers, t) by {
        lemma_has_bit_zero(t);
    }
    while i < 4
        invariant
            0 <= i <= 4,
            s == square,
            0 <= s < 64,
            r0 == rank_of(s),
            f0 == file_of(s),
            bishop_directions@.map_values(|x: i32| x as int) == bishop_steps(),
            forall|t: int| #[trigger] has_bit(bishop_attacks, t) == rays_attack(s, bishop_steps(), i as int, blockers, t),
        decreases 4 - i,
    {
        let step = bishop_directions[i];
        let ghost dr = step_rank(step as int);
        let ghost df = step_file(step as int);
        assert(step == bishop_steps()[i as int]);
        let mut current_square: i32 = square as i32;
        let ghost mut k: int = 0;
        let ghost mut w: u64 = 0;
        let ghost prev = bishop_attacks;
        proof {
            assert(s == square_at(r0, f0));
            assert forall|t: int| #[trigger] has_bit(bishop_attacks, t) == (rays_attack(s, bishop_steps(), i as int, blockers, t) || has_bit(w, t)) by {
                lemma_has_bit_zero(t);
            }
            assert forall|t: int| #[trigger] ray_attack(s, step as int, blockers, t) == (has_bit(w, t) || slide(r0 + scale(k, dr), f0 + scale(k, df), dr, df, blockers, t, (7 - k) as nat)) by {
                lemma_has_bit_zero(t);
            }
        }
        loop
            invariant_except_break
                0 <= k,
                current_square == square_at(r0 + scale(k, dr), f0 + scale(k, df)),
                on_board(r0 + scale(k, dr), f0 + scale(k, df)),
                forall|t: int| #[trigger] ray_attack(s, step as int, blockers, t) == (has_bit(w, t) || slide(r0 + scale(k, dr), f0 + scale(k, df), dr, df, blockers, t, (7 - k) as nat)),
                forall|t: int| #[trigger] has_bit(bishop_attacks, t) == (rays_attack(s, bishop_steps(), i as int, blockers, t) || has_bit(w, t)),
            invariant
                0 <= i < 4,
                s == square,
                0 <= s < 64,
                r0 == rank_of(s),
                f0 == file_of(s),
                step == bishop_steps()[i as int],
                dr == step_rank(step as int),
                df == step_file(step as int),
            ensures
                forall|t: int| #[trigger] has_bit(bishop_attacks, t) == rays_attack(s, bishop_steps(), i + 1, blockers, t),
            decreases 7 - k,
        {
            proof {
                lemma_walk_bound(r0, f0, dr, df, k);
            }
            if step == 9 && (current_square >= 56 || current_square % 8 >= 7) {
                proof {
                    assert forall|t: int| #[trigger] has_bit(bishop_attacks, t) == rays_attack(s, bishop_steps(), i + 1, blockers, t) by {
                        assert(ray_attack(s, step as int, blockers, t) == has_bit(w, t));
                    }
                }
                break;
            }
            if step == -7 && (current_square <= 7 || current_square % 8 >= 7) {
                proof {
                    assert forall|t: int| #[trigger] has_bit(bishop_attacks, t) == rays_attack(s, bishop_steps(), i + 1, blockers, t) by {
                        assert(ray_attack(s, step as int, blockers, t) == has_bit(w, t));
                    }
                }
                break;
            }
            if step == -9 && (current_square <= 7 || current_square % 8 <= 0) {
                proof {
                    assert forall|t: int| #[trigger] has_bit(bishop_attacks, t) == rays_attack(s, bishop_steps(), i + 1, blockers, t) by {
                        assert(ray_attack(s, step as int, blockers, t) == has_bit(w, t));
                    }
                }
                break;
            }
            if step == 7 && (current_square >= 56 || current_square % 8 <= 0) {
                proof {
                    assert forall|t: int| #[trigger] has_bit(bishop_attacks, t) == rays_attack(s, bishop_steps(), i + 1, blockers, t) by {
                        assert(ray_attack(s, step as int, blockers, t) == has_bit(w, t));
                    }
                }
                break;
            }
            proof {
                assert(on_board(r0 + scale(k + 1, dr), f0 + scale(k + 1, df)));
            }
            current_square += step;
            let ghost old_attacks = bishop_attacks;
            let ghost old_w = w;
            bishop_attacks |= 1u64 << (current_square as u64);
            proof {
                w = w | (1u64 << (current_square as u64));
                assert(current_square == square_at(r0 + scale(k + 1, dr), f0 + scale(k + 1, df)));
                assert forall|t: int| #[trigger] has_bit(bishop_attacks, t) == (rays_attack(s, bishop_steps(), i as int, blockers, t) || has_bit(w, t)) by {
                    lemma_has_bit_or(old_attacks, 1u64 << (current_square as u64), t);
                    lemma_has_bit_or(old_w, 1u64 << (current_square as u64), t);
                    assert(has_bit(old_attacks, t) == (rays_attack(s, bishop_steps(), i as int, blockers, t) || has_bit(old_w, t)));
                }
            }
            if (1u64 << (current_square as u64)) & blockers != 0 {
                proof {
                    let c = current_square as int;
                    lemma_bit_test(current_square as u64, blockers);
                    assert forall|t: int| #[trigger] has_bit(bishop_attacks, t) == rays_attack(s, bishop_steps(), i + 1, blockers, t) by {
                        lemma_walk_invariant_step(r0, f0, dr, df, blockers, k, t);
                        lemma_bit_u64(current_square as u64, t);
                        lemma_has_bit_or(old_w, 1u64 << (current_square as u64), t);
                        assert(ray_attack(s, step as int, blockers, t) == (has_bit(old_w, t) || slide(r0 + scale(k, dr), f0 + scale(k, df), dr, df, blockers, t, (7 - k) as nat)));
                        assert(has_bit(blockers, c));
                    }
                }
                break;
            }
            proof {
                let c = current_square as int;
                lemma_bit_test(current_square as u64, blockers);
                assert forall|t: int| #[trigger] ray_attack(s, step as int, blockers, t) == (has_bit(w, t) || slide(r0 + scale(k + 1, dr), f0 + scale(k + 1, df), dr, df, blockers, t, (7 - (k + 1)) as nat)) by {
                    lemma_walk_invariant_step(r0, f0, dr, df, blockers, k, t);
                    lemma_bit_u64(current_square as u64, t);
                    lemma_has_bit_or(old_w, 1u64 << (current_square as u64), t);
                    assert(ray_attack(s, step as int, blockers, t) == (has_bit(old_w, t) || slide(r0 + scale(k, dr), f0 + scale(k, df), dr, df, blockers, t, (7 - k) as nat)));
                    assert(!has_bit(blockers, c));
                }
                k = k + 1;
            }
        }
        i += 1;
    }
    proof {
        reveal_with_fuel(rays_attack, 5);
    }
    bishop_attacks
}

#[verifier::spinoff_prover]
#[verifier::rlimit(40)]
pub fn generate_rook_attacks_mask(square: u8, blockers: u64) -> (attacks: u64)
    requires
        square < 64,
    ensures
        bits_are(attacks, |t: int| rook_attack(square as int, blockers, t)),
{
    broadcast use lemma_square_at, lemma_rank_file;
    let mut rook_attacks: u64 = 0;
    let rook_directions: [i32; 4] = [8, 1, -8, -1];
    let ghost s = square as int;
    let ghost r0 = rank_of(s);
    let ghost f0 = file_of(s);
    assert(rook_directions@.map_values(|x: i32| x as int) =~= rook_steps());
    let mut i: usize = 0;
    assert forall|t: int| #[trigger] has_bit(rook_attacks, t) == rays_attack(s, rook_steps(), i as int, blockers, t) by {
        lemma_has_bit_zero(t);
    }
    while i < 4
        invariant
            0 <= i <= 4,
            s == square,
            0 <= s < 64,
            r0 == rank_of(s),
            f0 == file_of(s),
            rook_directions@.map_values(|x: i32| x as int) == rook_steps(),
            forall|t: int| #[trigger] has_bit(rook_attacks, t) == rays_attack(s, rook_steps(), i as int, blockers, t),
        decreases 4 - i,
    {
        let step = rook_directions[i];
        let ghost dr = step_rank(step as int);
        let ghost df = step_file(step as int);
        assert(step == rook_steps()[i as int]);
        let mut current_square: i32 = square as i32;
        let ghost mut k: int = 0;
        let ghost mut w: u64 = 0;
        let ghost prev = rook_attacks;
        proof {
            assert(s == square_at(r0, f0));
            assert forall|t: int| #[trigger] has_bit(rook_attacks, t) == (rays_attack(s, rook_steps(), i as int, blockers, t) || has_bit(w, t)) by {
                lemma_has_bit_zero(t);
            }
            assert forall|t: int| #[trigger] ray_attack(s, step as int, blockers, t) == (has_bit(w, t) || slide(r0 + scale(k, dr), f0 + scale(k, df), dr, df, blockers, t, (7 - k) as nat)) by {
                lemma_has_bit_zero(t);
            }
        }
        loop
            invariant_except_break
                0 <= k,
                current_square == square_at(r0 + scale(k, dr), f0 + scale(k, df)),
                on_board(r0 + scale(k, dr), f0 + scale(k, df)),
                forall|t: int| #[trigger] ray_attack(s, step as int, blockers, t) == (has_bit(w, t) || slide(r0 + scale(k, dr), f0 + scale(k, df), dr, df, blockers, t, (7 - k) as nat)),
                forall|t: int| #[trigger] has_bit(rook_attacks, t) == (rays_attack(s, rook_steps(), i as int, blockers, t) || has_bit(w, t)),
            invariant
                0 <= i < 4,
                s == square,
                0 <= s < 64,
                r0 == rank_of(s),
                f0 == file_of(s),
                step == rook_steps()[i as int],
                dr == step_rank(step as int),
                df == step_file(step as int),
            ensures
                forall|t: int| #[trigger] has_bit(rook_attacks, t) == rays_attack(s, rook_steps(), i + 1, blockers, t),
            decreases 7 - k,
        {
            proof {
                lemma_walk_bound(r0, f0, dr, df, k);
            }
            if step == 8 && current_square >= 56 {
                proof {
                    assert forall|t: int| #[trigger] has_bit(rook_attacks, t) == rays_attack(s, rook_steps(), i + 1, blockers, t) by {
                        assert(ray_attack(s, step as int, blockers, t) == has_bit(w, t));
                    }
                }
                break;
            }
            if step == 1 && current_square % 8 >= 7 {
                proof {
                    assert forall|t: int| #[trigger] has_bit(rook_attacks, t) == rays_attack(s, rook_steps(), i + 1, blockers, t) by {
                        assert(ray_attack(s, step as int, blockers, t) == has_bit(w, t));
                    }
                }
                break;
            }
            if step == -8 && current_square <= 7 {
                proof {
                    assert forall|t: int| #[trigger] has_bit(rook_attacks, t) == rays_attack(s, rook_steps(), i + 1, blockers, t) by {
                        assert(ray_attack(s, step as int, blockers, t) == has_bit(w, t));
                    }
                }
                break;
            }
            if step == -1 && current_square % 8 <= 0 {
                proof {
                    assert forall|t: int| #[trigger] has_bit(rook_attacks, t) == rays_attack(s, rook_steps(), i + 1, blockers, t) by {
                        assert(ray_attack(s, step as int, blockers, t) == has_bit(w, t));
                    }
                }
                break;
            }
            proof {
                assert(on_board(r0 + scale(k + 1, dr), f0 + scale(k + 1, df)));
            }
            current_square += step;
            let ghost old_attacks = rook_attacks;
            let ghost old_w = w;
            rook_attacks |= 1u64 << (current_square as u64);
            proof {
                w = w | (1u64 << (current_square as u64));
                assert(current_square == square_at(r0 + scale(k + 1, dr), f0 + scale(k + 1, df)));
                assert forall|t: int| #[trigger] has_bit(rook_attacks, t) == (rays_attack(s, rook_steps(), i as int, blockers, t) || has_bit(w, t)) by {
                    lemma_has_bit_or(old_attacks, 1u64 << (current_square as u64), t);
                    lemma_has_bit_or(old_w, 1u64 << (current_square as u64), t);
                    assert(has_bit(old_attacks, t) == (rays_attack(s, rook_steps(), i as int, blockers, t) || has_bit(old_w, t)));
                }
            }
            if (1u64 << (current_square as u64)) & blockers != 0 {
                proof {
                    let c = current_square as int;
                    lemma_bit_test(current_square as u64, blockers);
                    assert forall|t: int| #[trigger] has_bit(rook_attacks, t) == rays_attack(s, rook_steps(), i + 1, blockers, t) by {
                        lemma_walk_invariant_step(r0, f0, dr, df, blockers, k, t);
                        lemma_bit_u64(current_square as u64, t);
                        lemma_has_bit_or(old_w, 1u64 << (current_square as u64), t);
                        assert(ray_attack(s, step as int, blockers, t) == (has_bit(old_w, t) || slide(r0 + scale(k, dr), f0 + scale(k, df), dr, df, blockers, t, (7 - k) as nat)));
                        assert(has_bit(blockers, c));
                    }
                }
                break;
            }
            proof {
                let c = current_square as int;
                lemma_bit_test(current_square as u64, blockers);
                assert forall|t: int| #[trigger] ray_attack(s, step as int, blockers, t) == (has_bit(w, t) || slide(r0 + scale(k + 1, dr), f0 + scale(k + 1, df), dr, df, blockers, t, (7 - (k + 1)) as nat)) by {
                    lemma_walk_invariant_step(r0, f0, dr, df, blockers, k, t);
                    lemma_bit_u64(current_square as u64, t);
                    lemma_has_bit_or(old_w, 1u64 << (current_square as u64), t);
                    assert(ray_attack(s, step as int, blockers, t) == (has_bit(old_w, t) || slide(r0 + scale(k, dr), f0 + scale(k, df), dr, df, blockers, t, (7 - k) as nat)));
                    assert(!has_bit(blockers, c));
                }
                k = k + 1;
            }
        }
        i += 1;
    }
    proof {
        reveal_with_fuel(rays_attack, 5);
    }
    rook_attacks
}

// ---------------------------------------------------------------------------
// Subsets of a mask, numbered by an index: bit `i` of the index tells whether
// the `i`-th lowest square of the mask is in the subset.
// ---------------------------------------------------------------------------

/// The subset of `mask` that `index` numbers.
pub open spec fn blocker_subset(mask: u64, index: nat) -> u64
    decreases mask,
{
    if mask == 0 {
        0
    } else {
        proof {
            lemma_lowest_square(mask);
        }
        (if index % 2 == 1 {
            sq_bit(lowest_square(mask))
        } else {
            0u64
        }) | blocker_subset(without_lowest(mask), index / 2)
    }
}

/// The number of a subset `s` of `mask`.
pub open spec fn subset_index(mask: u64, s: u64) -> nat
    decreases mask,
{
    if mask == 0 {
        0
    } else {
        proof {
            lemma_lowest_square(mask);
        }
        2 * subset_index(without_lowest(mask), s) + (if has_bit(s, lowest_square(mask)) {
            1nat
        } else {
            0nat
        })
    }
}

/// The squares of a numbered subset are squares of the mask; peeling the
/// lowest square of the mask peels the lowest index bit.
pub proof fn lemma_blocker_subset_bits(mask: u64, index: nat, t: int)
    requires
        mask != 0,
    ensures
        has_bit(blocker_subset(mask, index), t) == ((index % 2 == 1 && t == lowest_square(mask))
            || has_bit(blocker_subset(without_lowest(mask), index / 2), t)),
{
    lemma_lowest_square(mask);
    lemma_has_bit_or(
        if index % 2 == 1 {
            sq_bit(lowest_square(mask))
        } else {
            0u64
        },
        blocker_subset(without_lowest(mask), index / 2),
        t,
    );
    lemma_has_bit_single(lowest_square(mask), t);
    lemma_has_bit_zero(t);
}

/// A subset numbered by an index is within its mask.
pub proof fn lemma_blocker_subset_within(mask: u64, index: nat, t: int)
    ensures
        has_bit(blocker_subset(mask, index), t) ==> has_bit(mask, t),
    decreases mask,
{
    if mask == 0 {
        lemma_has_bit_zero(t);
    } else {
        lemma_lowest_square(mask);
        lemma_blocker_subset_bits(mask, index, t);
        lemma_blocker_subset_within(without_lowest(mask), index / 2, t);
    }
}

/// Numbering a subset and then taking the numbered subset gives the subset
/// back.
pub proof fn lemma_subset_roundtrip(mask: u64, s: u64)
    ensures
        blocker_subset(mask, subset_index(mask, s)) == s & mask,
        subset_index(mask, s) < pow2(popcount(mask)),
    decreases mask,
{
    vstd::arithmetic::power2::lemma_pow2_pos(popcount(mask));
    if mask == 0 {
        assert(s & 0 == 0) by (bit_vector);
        vstd::arithmetic::power2::lemma2_to64();
    } else {
        let rest = without_lowest(mask);
        lemma_lowest_square(mask);
        lemma_subset_roundtrip(rest, s);
        let q = subset_index(rest, s);
        let idx = subset_index(mask, s);
        assert(idx % 2 == (if has_bit(s, lowest_square(mask)) { 1nat } else { 0nat }));
        assert(idx / 2 == q);
        assert forall|t: int| 0 <= t < 64 implies has_bit(blocker_subset(mask, idx), t) == has_bit(s & mask, t) by {
            lemma_blocker_subset_bits(mask, idx, t);
            lemma_has_bit_and(s, mask, t);
            lemma_has_bit_and(s, rest, t);
        }
        lemma_bits_ext(blocker_subset(mask, idx), s & mask);
        vstd::arithmetic::power2::lemma_pow2_unfold(popcount(mask));
    }
}

pub fn create_blocker_permutation(mask: u64, index: usize) -> (blockers: u64)
    ensures
        blockers == blocker_subset(mask, index as nat),
{
    let mut blockers: u64 = 0;
    let mut temp_mask = mask;
    let mut i: u64 = 0;
    let x = index as u64;
    proof {
        assert(x >> 0u64 == x) by (bit_vector);
        assert forall|t: int| #[trigger] has_bit(blocker_subset(mask, index as nat), t) == (has_bit(blockers, t) || has_bit(blocker_subset(temp_mask, (x >> i) as nat), t)) by {
            lemma_has_bit_zero(t);
        }
    }
    while temp_mask != 0
        invariant
            x == index,
            i <= 64,
            forall|s: int| 0 <= s < i ==> !has_bit(temp_mask, s),
            forall|t: int| #[trigger] has_bit(blocker_subset(mask, index as nat), t) == (has_bit(blockers, t) || has_bit(blocker_subset(temp_mask, (x >> i) as nat), t)),
        decreases temp_mask,
    {
        proof {
            lemma_lowest_square(temp_mask);
        }
        let square = temp_mask.trailing_zeros() as u8;
        let ghost old_temp = temp_mask;
        let ghost old_blockers = blockers;
        temp_mask &= temp_mask - 1;
        let y = x >> i;
        proof {
            assert(i < 64);
            assert((y % 2 == 1) == ((x & (1u64 << i)) != 0) && y / 2 == x >> (i + 1) as u64) by (bit_vector)
                requires y == x >> i, i < 64;
        }
        if (x & (1u64 << i)) != 0 {
            blockers |= 1u64 << (square as u64);
        }
        proof {
            assert forall|t: int| #[trigger] has_bit(blocker_subset(mask, index as nat), t) == (has_bit(blockers, t) || has_bit(blocker_subset(temp_mask, (x >> (i + 1) as u64) as nat), t)) by {
                lemma_blocker_subset_bits(old_temp, y as nat, t);
                lemma_bit_u64(square as u64, t);
                lemma_has_bit_or(old_blockers, 1u64 << (square as u64), t);
            }
            assert forall|s: int| 0 <= s < i + 1 implies !has_bit(temp_mask, s) by {}
        }
        i += 1;
    }
    proof {
        assert forall|t: int| 0 <= t < 64 implies has_bit(blockers, t) == has_bit(blocker_subset(mask, index as nat), t) by {
            lemma_has_bit_zero(t);
        }
        lemma_bits_ext(blockers, blocker_subset(mask, index as nat));
    }
    blockers
}

// ---------------------------------------------------------------------------
// Magic tables. For each square: the mask of the squares whose occupancy
// matters, the magic factor, the shift and the offset of the square's part
// of the table.
// ---------------------------------------------------------------------------

pub const BISHOP_MASKS: [u64; 64] = [
    0x0040201008040200, 0x0000402010080400, 0x0000004020100a00, 0x0000000040221400,
    0x0000000002442800, 0x0000000204085000, 0x0000020408102000, 0x0002040810204000,
    0x0020100804020000, 0x0040201008040000, 0x00004020100a0000, 0x0000004022140000,
    0x0000000244280000, 0x0000020408500000, 0x0002040810200000, 0x0004081020400000,
    0x0010080402000200, 0x0020100804000400, 0x004020100a000a00, 0x0000402214001400,
    0x0000024428002800, 0x0002040850005000, 0x0004081020002000, 0x0008102040004000,
    0x0008040200020400, 0x0010080400040800, 0x0020100a000a1000, 0x0040221400142200,
    0x0002442800284400, 0x0004085000500800, 0x0008102000201000, 0x0010204000402000,
    0x0004020002040800, 0x0008040004081000, 0x00100a000a102000, 0x0022140014224000,
    0x0044280028440200, 0x0008500050080400, 0x0010200020100800, 0x0020400040201000,
    0x0002000204081000, 0x0004000408102000, 0x000a000a10204000, 0x0014001422400000,
    0x0028002844020000, 0x0050005008040200, 0x0020002010080400, 0x0040004020100800,
    0x0000020408102000, 0x0000040810204000, 0x00000a1020400000, 0x0000142240000000,
    0x0000284402000000, 0x0000500804020000, 0x0000201008040200, 0x0000402010080400,
    0x0002040810204000, 0x0004081020400000, 0x000a102040000000, 0x0014224000000000,
    0x0028440200000000, 0x0050080402000000, 0x0020100804020000, 0x0040201008040200,
];
pub const BISHOP_MAGIC_NUMBERS: [u64; 64] = [
    0xc002423212060200, 0x4010c10600820412, 0x1408008400838000, 0x0004404081081002,
    0x0041104080000420, 0x00c2882008010000, 0x100c020110a98180, 0x0001088084200210,
    0x0000200404481040, 0x0211202809490020, 0x00804800c9020000, 0x0200040435800004,
    0x0808041044122000, 0x100c020110a98180, 0x4002088805482080, 0x000a104201900880,
    0x6510802820013402, 0x0020040202220201, 0x04b40a8800421200, 0x4844004641020000,
    0x0180800400a00441, 0x8082000100410444, 0x42040202c1041001, 0x4601015202490c80,
    0x0220300004500201, 0x08010c0008900404, 0x0010220114040400, 0x0004040008410200,
    0x0073080409004008, 0x200082012101088c, 0x5404024085861082, 0x0882024008804800,
    0x4048080c4040c401, 0x0828141002040101, 0x2400209000080a60, 0x8400040400080211,
    0x1010220020020028, 0x401202a200050044, 0x0108024041009800, 0x0092004910614402,
    0x42040202c1041001, 0x140e021004800280, 0x0081084050000800, 0x0100060212002c00,
    0x0010400493040600, 0x0204100070401200, 0x4010c10600820412, 0x18100400a48000a0,
    0x100c020110a98180, 0x2800b20104200000, 0x000a104201900880, 0x0001080042021000,
    0x2900003006020000, 0x00c20408100900e4, 0xa02076840820a028, 0x4010c10600820412,
    0x0001088084200210, 0x000a104201900880, 0x8400000021280800, 0x0d00502801420221,
    0x0400924010020a20, 0x2280001082104908, 0x0000200404481040, 0xc002423212060200,
];
pub const BISHOP_SHIFTS: [u8; 64] = [
    58, 59, 59, 59, 59, 59, 59, 58, 59, 59, 59, 59, 59, 59, 59, 59,
    59, 59, 57, 57, 57, 57, 59, 59, 59, 59, 57, 55, 55, 57, 59, 59,
    59, 59, 57, 55, 55, 57, 59, 59, 59, 59, 57, 57, 57, 57, 59, 59,
    59, 59, 59, 59, 59, 59, 59, 59, 58, 59, 59, 59, 59, 59, 59, 58,
];
pub const BISHOP_OFFSETS: [usize; 64] = [
    0, 64, 96, 128, 160, 192, 224, 256,
    320, 352, 384, 416, 448, 480, 512, 544,
    576, 608, 640, 768, 896, 1024, 1152, 1184,
    1216, 1248, 1280, 1408, 1920, 2432, 2560, 2592,
    2624, 2656, 2688, 2816, 3328, 3840, 3968, 4000,
    4032, 4064, 4096, 4224, 4352, 4480, 4608, 4640,
    4672, 4704, 4736, 4768, 4800, 4832, 4864, 4896,
    4928, 4992, 5024, 5056, 5088, 5120, 5152, 5184,
];
pub const ROOK_MASKS: [u64; 64] = [
    0x000101010101017e, 0x000202020202027c, 0x000404040404047a, 0x0008080808080876,
    0x001010101010106e, 0x002020202020205e, 0x004040404040403e, 0x008080808080807e,
    0x0001010101017e00, 0x0002020202027c00, 0x0004040404047a00, 0x0008080808087600,
    0x0010101010106e00, 0x0020202020205e00, 0x0040404040403e00, 0x0080808080807e00,
    0x00010101017e0100, 0x00020202027c0200, 0x00040404047a0400, 0x0008080808760800,
    0x00101010106e1000, 0x00202020205e2000, 0x00404040403e4000, 0x00808080807e8000,
    0x000101017e010100, 0x000202027c020200, 0x000404047a040400, 0x0008080876080800,
    0x001010106e101000, 0x002020205e202000, 0x004040403e404000, 0x008080807e808000,
    0x0001017e01010100, 0x0002027c02020200, 0x0004047a04040400, 0x0008087608080800,
    0x0010106e10101000, 0x0020205e20202000, 0x0040403e40404000, 0x0080807e80808000,
    0x00017e0101010100, 0x00027c0202020200, 0x00047a0404040400, 0x0008760808080800,
    0x00106e1010101000, 0x00205e2020202000, 0x00403e4040404000, 0x00807e8080808000,
    0x007e010101010100, 0x007c020202020200, 0x007a040404040400, 0x0076080808080800,
    0x006e101010101000, 0x005e202020202000, 0x003e404040404000, 0x007e808080808000,
    0x7e01010101010100, 0x7c02020202020200, 0x7a04040404040400, 0x7608080808080800,
    0x6e10101010101000, 0x5e20202020202000, 0x3e40404040404000, 0x7e80808080808000,
];
pub const ROOK_MAGIC_NUMBERS: [u64; 64] = [
    0x02800020c0001880, 0x4040200240003000, 0x0980200188801000, 0x0080041800100280,
    0x1200100805200600, 0x8600100508040200, 0x170002000081000c, 0x0200002190440601,
    0x0800800240006086, 0x0224402000401000, 0x1858802000900080, 0x5128801004280180,
    0x000100500800a500, 0x0011000900228400, 0x8004001004010802, 0x8080800500044080,
    0x4420228000914002, 0x0010084000e00040, 0xc1010500200040b4, 0x4120808010010800,
    0x00080180288c0080, 0x4001010008620400, 0x0080540022080130, 0x0015060004008041,
    0x020020808004c009, 0x2a00400080200080, 0x4060001900210040, 0x0001100480080080,
    0x8218020040040040, 0x0011000900228400, 0x1000100400830a08, 0x003028820021004c,
    0x000122c004800084, 0x1210002000404004, 0x0084200145001100, 0x10100400c0400800,
    0x4200041101000800, 0x0106020080800400, 0x0221023024000198, 0x0000304386001904,
    0x1020902040008001, 0x1210002000404004, 0x0006402001010052, 0x0006020820120040,
    0x1022040008008080, 0x0442000450420008, 0x10011201080c0030, 0x04180484014a0001,
    0x8801104180022100, 0x0a04400023038100, 0x010010c060820200, 0x5128801004280180,
    0x000100500800a500, 0x10148c00803a0080, 0x8800081a1001b400, 0x8080800500044080,
    0x0421081080024021, 0x2101001280400021, 0x0423014014200009, 0x8120200d10000901,
    0x8021002800020411, 0x1c05000204000821, 0x110002300800a104, 0x000421a504004082,
];
pub const ROOK_SHIFTS: [u8; 64] = [
    52, 53, 53, 53, 53, 53, 53, 52, 53, 54, 54, 54, 54, 54, 54, 53,
    53, 54, 54, 54, 54, 54, 54, 53, 53, 54, 54, 54, 54, 54, 54, 53,
    53, 54, 54, 54, 54, 54, 54, 53, 53, 54, 54, 54, 54, 54, 54, 53,
    53, 54, 54, 54, 54, 54, 54, 53, 52, 53, 53, 53, 53, 53, 53, 52,
];
pub const ROOK_OFFSETS: [usize; 64] = [
    0, 4096, 6144, 8192, 10240, 12288, 14336, 16384,
    20480, 22528, 23552, 24576, 25600, 26624, 27648, 28672,
    30720, 32768, 33792, 34816, 35840, 36864, 37888, 38912,
    40960, 43008, 44032, 45056, 46080, 47104, 48128, 49152,
    51200, 53248, 54272, 55296, 56320, 57344, 58368, 59392,
    61440, 63488, 64512, 65536, 66560, 67584, 68608, 69632,
    71680, 73728, 74752, 75776, 76800, 77824, 78848, 79872,
    81920, 86016, 88064, 90112, 92160, 94208, 96256, 98304,
];

/// The square `k` steps from (`r`, `f`) by (`dr`, `df`) is in `mask`
/// whenever the square after it is on the board: an occupant there could
/// stop a slider before the edge.
pub open spec fn stop_in_mask(mask: u64, r: int, f: int, dr: int, df: int, k: int) -> bool {
    on_board(r + scale(k + 1, dr), f + scale(k + 1, df)) ==> has_bit(mask, square_at(r + scale(k, dr), f + scale(k, df)))
}

/// `mask` holds every square where a slider on `s` moving by `step` can be
/// stopped before the edge.
pub open spec fn ray_covered(mask: u64, s: int, step: int) -> bool {
    forall|k: int| 1 <= k <= 7 ==> #[trigger] stop_in_mask(mask, rank_of(s), file_of(s), step_rank(step), step_file(step), k)
}

/// The mask of a slider on `sq` holds every square where one of its rays
/// can be stopped before the edge.
pub open spec fn mask_covers(rook: bool, sq: int) -> bool {
    let m = magic_mask(rook, sq);
    if rook {
        ray_covered(m, sq, 8) && ray_covered(m, sq, 1) && ray_covered(m, sq, -8) && ray_covered(m, sq, -1)
    } else {
        ray_covered(m, sq, 9) && ray_covered(m, sq, -7) && ray_covered(m, sq, -9) && ray_covered(m, sq, 7)
    }
}

/// Every square's mask covers its rays.
pub open spec fn masks_cover(rook: bool) -> bool {
    forall|sq: int| 0 <= sq < 64 ==> #[trigger] mask_covers(rook, sq)
}

/// Sliding sees the same squares through an occupancy masked by a mask
/// that holds every square where the slide can be stopped before the edge.
proof fn lemma_slide_masked(r: int, f: int, dr: int, df: int, occ: u64, mask: u64, t: int, fuel: nat)
    requires
        -1 <= dr <= 1,
        -1 <= df <= 1,
        forall|k: int| 1 <= k <= fuel ==> #[trigger] stop_in_mask(mask, r, f, dr, df, k),
    ensures
        slide(r, f, dr, df, mask & occ, t, fuel) == slide(r, f, dr, df, occ, t, fuel),
    decreases fuel,
{
    if fuel > 0 && on_board(r + dr, f + df) {
        assert forall|k: int| 1 <= k <= fuel - 1 implies #[trigger] stop_in_mask(mask, r + dr, f + df, dr, df, k) by {
            assert(stop_in_mask(mask, r, f, dr, df, k + 1));
        }
        lemma_slide_masked(r + dr, f + df, dr, df, occ, mask, t, (fuel - 1) as nat);
        let y = square_at(r + dr, f + df);
        lemma_has_bit_and(mask, occ, y);
        assert(stop_in_mask(mask, r, f, dr, df, 1));
    }
}

/// Looking a slider's attacks up through a covering mask gives its attacks
/// on the full occupancy.
pub proof fn lemma_masked_attacks(rook: bool, s: int, occ: u64, t: int)
    requires
        0 <= s < 64,
        mask_covers(rook, s),
    ensures
        slider_attack(rook, s, magic_mask(rook, s) & occ, t) == slider_attack(rook, s, occ, t),
{
    let m = magic_mask(rook, s);
    let r = rank_of(s);
    let f = file_of(s);
    if rook {
        lemma_slide_masked(r, f, step_rank(8), step_file(8), occ, m, t, 7);
        lemma_slide_masked(r, f, step_rank(1), step_file(1), occ, m, t, 7);
        lemma_slide_masked(r, f, step_rank(-8), step_file(-8), occ, m, t, 7);
        lemma_slide_masked(r, f, step_rank(-1), step_file(-1), occ, m, t, 7);
    } else {
        lemma_slide_masked(r, f, step_rank(9), step_file(9), occ, m, t, 7);
        lemma_slide_masked(r, f, step_rank(-7), step_file(-7), occ, m, t, 7);
        lemma_slide_masked(r, f, step_rank(-9), step_file(-9), occ, m, t, 7);
        lemma_slide_masked(r, f, step_rank(7), step_file(7), occ, m, t, 7);
    }
}

pub const BISHOP_TABLE_SIZE: usize = 5248;
pub const ROOK_TABLE_SIZE: usize = 102400;

/// Attacks of a bishop (`rook` false) or of a rook (`rook` true).
pub open spec fn slider_attack(rook: bool, s: int, occ: u64, t: int) -> bool {
    if rook {
        rook_attack(s, occ, t)
    } else {
        bishop_attack(s, occ, t)
    }
}

pub open spec fn magic_mask(rook: bool, sq: int) -> u64 {
    if rook { ROOK_MASKS[sq] } else { BISHOP_MASKS[sq] }
}

pub open spec fn magic_number(rook: bool, sq: int) -> u64 {
    if rook { ROOK_MAGIC_NUMBERS[sq] } else { BISHOP_MAGIC_NUMBERS[sq] }
}

pub open spec fn magic_shift(rook: bool, sq: int) -> u8 {
    if rook { ROOK_SHIFTS[sq] } else { BISHOP_SHIFTS[sq] }
}

pub open spec fn magic_offset(rook: bool, sq: int) -> usize {
    if rook { ROOK_OFFSETS[sq] } else { BISHOP_OFFSETS[sq] }
}

/// The table slot of a blocker set: multiply by the magic factor, keep the
/// top bits, add the square's offset.
pub open spec fn magic_slot(rook: bool, sq: int, blockers: u64) -> int {
    (vstd::wrapping::u64_specs::wrapping_mul(blockers, magic_number(rook, sq)) >> magic_shift(
        rook,
        sq,
    )) as int + magic_offset(rook, sq) as int
}

/// The bitboard of the squares a slider attacks.
pub open spec fn attack_bits(rook: bool, sq: int, occ: u64) -> u64 {
    choose|v: u64| #[trigger] is_attack_bits(rook, sq, occ, v)
}

/// `v` holds exactly the squares a slider on `sq` attacks.
pub open spec fn is_attack_bits(rook: bool, sq: int, occ: u64, v: u64) -> bool {
    forall|t: int| #[trigger] has_bit(v, t) == slider_attack(rook, sq, occ, t)
}

/// A bitboard that holds the attacked squares is the attack bitboard.
pub proof fn lemma_attack_bits(rook: bool, sq: int, occ: u64, v: u64)
    requires
        bits_are(v, |t: int| slider_attack(rook, sq, occ, t)),
    ensures
        attack_bits(rook, sq, occ) == v,
{
    let w = attack_bits(rook, sq, occ);
    assert(is_attack_bits(rook, sq, occ, v));
    assert(is_attack_bits(rook, sq, occ, w));
    assert forall|t: int| 0 <= t < 64 implies has_bit(w, t) == has_bit(v, t) by {
        assert(has_bit(w, t) == slider_attack(rook, sq, occ, t));
        assert(has_bit(v, t) == slider_attack(rook, sq, occ, t));
    }
    lemma_bits_ext(w, v);
}

pub open spec fn table_size(rook: bool) -> usize {
    if rook { ROOK_TABLE_SIZE } else { BISHOP_TABLE_SIZE }
}

/// The blocker set numbered `p` for square `sq`.
pub open spec fn pair_blockers(rook: bool, sq: int, p: nat) -> u64 {
    blocker_subset(magic_mask(rook, sq), p)
}

/// The table slot of the blocker set numbered `p` for square `sq`.
pub open spec fn pair_slot(rook: bool, sq: int, p: nat) -> int {
    magic_slot(rook, sq, pair_blockers(rook, sq, p))
}

/// The attacks of the blocker set numbered `p` for square `sq`.
pub open spec fn pair_bits(rook: bool, sq: int, p: nat) -> u64 {
    attack_bits(rook, sq, pair_blockers(rook, sq, p))
}

/// `p` numbers a subset of the mask of `sq`.
pub open spec fn pair_valid(rook: bool, sq: int, p: nat) -> bool {
    0 <= sq < 64 && p < pow2(popcount(magic_mask(rook, sq)))
}

/// The mask of `sq` has as many squares as the shift leaves bits, and the
/// square's part of the table fits in the table.
pub open spec fn square_fits(rook: bool, sq: int) -> bool {
    &&& popcount(magic_mask(rook, sq)) == 64 - magic_shift(rook, sq)
    &&& magic_offset(rook, sq) + pow2((64 - magic_shift(rook, sq)) as nat) <= table_size(rook)
}

/// The magic constants make a perfect table: every square fits, and two
/// blocker sets that share a slot have the same attacks.
pub open spec fn magics_consistent(rook: bool) -> bool {
    &&& forall|sq: int| 0 <= sq < 64 ==> #[trigger] square_fits(rook, sq)
    &&& forall|sq1: int, p1: nat, sq2: int, p2: nat|
        pair_valid(rook, sq1, p1) && pair_valid(rook, sq2, p2) && #[trigger] pair_slot(rook, sq1, p1)
            == #[trigger] pair_slot(rook, sq2, p2) ==> pair_bits(rook, sq1, p1) == pair_bits(
            rook,
            sq2,
            p2,
        )
}

/// Every subset of every square's mask finds its attacks in the table.
pub open spec fn magic_table_ok(table: Seq<u64>, rook: bool) -> bool {
    forall|sq: int, p: nat|
        #![trigger pair_slot(rook, sq, p)]
        pair_valid(rook, sq, p) ==> {
            &&& 0 <= pair_slot(rook, sq, p) < table.len()
            &&& table[pair_slot(rook, sq, p)] == pair_bits(rook, sq, p)
            &&& is_attack_bits(rook, sq, pair_blockers(rook, sq, p), table[pair_slot(rook, sq, p)])
        }
}

/// The pairs of a square and a subset number already entered while filling
/// square `square` up to subset `pi`.
pub open spec fn pair_done(sq: int, p: nat, square: int, pi: int) -> bool {
    sq < square || (sq == square && p < pi)
}

/// The table so far holds the attacks of every entered pair, and every slot
/// marked written is the slot of an entered pair.
pub open spec fn fill_ok(rook: bool, table: Seq<u64>, written: Seq<bool>, square: int, pi: int) -> bool {
    &&& forall|sq: int, p: nat|
        #![trigger pair_slot(rook, sq, p)]
        pair_done(sq, p, square, pi) && pair_valid(rook, sq, p) ==> {
            &&& 0 <= pair_slot(rook, sq, p) < table.len()
            &&& written[pair_slot(rook, sq, p)]
            &&& table[pair_slot(rook, sq, p)] == pair_bits(rook, sq, p)
            &&& is_attack_bits(rook, sq, pair_blockers(rook, sq, p), table[pair_slot(rook, sq, p)])
        }
    &&& forall|i: int|
        0 <= i < written.len() && #[trigger] written[i] ==> exists|sq: int, p: nat|
            #![trigger pair_slot(rook, sq, p)]
            pair_done(sq, p, square, pi) && pair_valid(rook, sq, p) && pair_slot(rook, sq, p) == i
}

fn magic_entry(rook: bool, square: usize) -> (r: (u64, u64, u8, usize))
    requires
        square < 64,
    ensures
        r.0 == magic_mask(rook, square as int),
        r.1 == magic_number(rook, square as int),
        r.2 == magic_shift(rook, square as int),
        r.3 == magic_offset(rook, square as int),
{
    if rook {
        (ROOK_MASKS[square], ROOK_MAGIC_NUMBERS[square], ROOK_SHIFTS[square], ROOK_OFFSETS[square])
    } else {
        (BISHOP_MASKS[square], BISHOP_MAGIC_NUMBERS[square], BISHOP_SHIFTS[square], BISHOP_OFFSETS[square])
    }
}

fn slider_attacks_mask(rook: bool, square: u8, blockers: u64) -> (a: u64)
    requires
        square < 64,
    ensures
        is_attack_bits(rook, square as int, blockers, a),
{
    let a = if rook {
        generate_rook_attacks_mask(square, blockers)
    } else {
        generate_bishop_attacks_mask(square, blockers)
    };
    assert forall|t: int| #[trigger] has_bit(a, t) == slider_attack(rook, square as int, blockers, t) by {}
    a
}

proof fn lemma_shift_facts(rook: bool, sq: int)
    requires
        0 <= sq < 64,
    ensures
        52 <= magic_shift(rook, sq) <= 59,
        magic_offset(rook, sq) <= 98304,
{
    assert(forall|i: int| 0 <= i < 64 ==> 52 <= #[trigger] ROOK_SHIFTS[i] <= 59);
    assert(forall|i: int| 0 <= i < 64 ==> 52 <= #[trigger] BISHOP_SHIFTS[i] <= 59);
    assert(forall|i: int| 0 <= i < 64 ==> #[trigger] ROOK_OFFSETS[i] <= 98304);
    assert(forall|i: int| 0 <= i < 64 ==> #[trigger] BISHOP_OFFSETS[i] <= 98304);
}

/// Fills the attack table of bishops or rooks, checking on the way that the
/// magic constants make a perfect table.
fn fill_magic_table(rook: bool) -> (res: Option<Vec<u64>>)
    ensures
        res is Some == magics_consistent(rook),
        res matches Some(t) ==> t.len() == table_size(rook) && magic_table_ok(t@, rook),
{
    let size: usize = if rook { ROOK_TABLE_SIZE } else { BISHOP_TABLE_SIZE };
    let mut table: Vec<u64> = Vec::new();
    let mut written: Vec<bool> = Vec::new();
    let mut k: usize = 0;
    while k < size
        invariant
            k <= size,
            size == table_size(rook),
            table.len() == k,
            written.len() == k,
            forall|i: int| 0 <= i < k ==> !#[trigger] written[i],
        decreases size - k,
    {
        table.push(0);
        written.push(false);
        k += 1;
    }
    let mut square: usize = 0;
    while square < 64
        invariant
            square <= 64,
            size == table_size(rook),
            table.len() == size,
            written.len() == size,
            forall|sq: int| 0 <= sq < square ==> #[trigger] square_fits(rook, sq),
            fill_ok(rook, table@, written@, square as int, 0),
        decreases 64 - square,
    {
        let (mask, magic, shift, offset) = magic_entry(rook, square);
        proof {
            lemma_shift_facts(rook, square as int);
        }
        let blocker_bits: u8 = 64 - shift;
        if count_squares(mask) != blocker_bits as u32 {
            assert(!square_fits(rook, square as int));
            return None;
        }
        let num_permutations: usize = 1usize << blocker_bits;
        proof {
            vstd::bits::lemma_usize_pow2_no_overflow(blocker_bits as nat);
            vstd::bits::lemma_usize_shl_is_mul(1, blocker_bits as usize);
        }
        assert(num_permutations == pow2(blocker_bits as nat));
        proof {
            vstd::arithmetic::power2::lemma2_to64();
            if blocker_bits < 12 {
                vstd::arithmetic::power2::lemma_pow2_strictly_increases(blocker_bits as nat, 12);
            }
        }
        if offset + num_permutations > size {
            assert(!square_fits(rook, square as int));
            return None;
        }
        let mut permutation_index: usize = 0;
        assert(fill_ok(rook, table@, written@, square as int, permutation_index as int));
        while permutation_index < num_permutations
            invariant
                square < 64,
                size == table_size(rook),
                table.len() == size,
                written.len() == size,
                mask == magic_mask(rook, square as int),
                magic == magic_number(rook, square as int),
                shift == magic_shift(rook, square as int),
                offset == magic_offset(rook, square as int),
                52 <= shift <= 59,
                blocker_bits == 64 - shift,
                num_permutations == pow2(blocker_bits as nat),
                popcount(mask) == blocker_bits,
                offset + num_permutations <= size,
                permutation_index <= num_permutations,
                forall|sq: int| 0 <= sq < square ==> #[trigger] square_fits(rook, sq),
                fill_ok(rook, table@, written@, square as int, permutation_index as int),
            decreases num_permutations - permutation_index,
        {
            let blockers = create_blocker_permutation(mask, permutation_index);
            let attacks_mask = slider_attacks_mask(rook, square as u8, blockers);
            let hash_index = blockers.wrapping_mul(magic) >> shift;
            proof {
                let x = vstd::wrapping::u64_specs::wrapping_mul(blockers, magic);
                let bb = blocker_bits as u64;
                assert(x >> shift < 1u64 << bb) by (bit_vector)
                    requires 52 <= shift <= 59, bb == 64 - shift;
                vstd::bits::lemma_u64_pow2_no_overflow(blocker_bits as nat);
                vstd::bits::lemma_u64_shl_is_mul(1, bb);
            }
            let table_index = hash_index as usize + offset;
            let ghost p = permutation_index as nat;
            proof {
                assert(pair_valid(rook, square as int, p));
                assert(pair_slot(rook, square as int, p) == table_index);
                lemma_attack_bits(rook, square as int, blockers, attacks_mask);
                assert(pair_bits(rook, square as int, p) == attacks_mask);
            }
            if written[table_index] && table[table_index] != attacks_mask {
                proof {
                    let (sq2, p2) = choose|sq2: int, p2: nat|
                        #![trigger pair_slot(rook, sq2, p2)]
                        pair_done(sq2, p2, square as int, permutation_index as int) && pair_valid(rook, sq2, p2)
                            && pair_slot(rook, sq2, p2) == table_index;
                    assert(pair_slot(rook, sq2, p2) == pair_slot(rook, square as int, p));
                    assert(pair_bits(rook, sq2, p2) != pair_bits(rook, square as int, p));
                }
                return None;
            }
            let ghost old_table = table@;
            let ghost old_written = written@;
            table.set(table_index, attacks_mask);
            written.set(table_index, true);
            proof {
                let sq0 = square as int;
                let pi = permutation_index as int;
                assert forall|sq: int, q: nat|
                    #![trigger pair_slot(rook, sq, q)]
                    pair_done(sq, q, sq0, pi + 1) && pair_valid(rook, sq, q) implies {
                        &&& 0 <= pair_slot(rook, sq, q) < table@.len()
                        &&& written@[pair_slot(rook, sq, q)]
                        &&& table@[pair_slot(rook, sq, q)] == pair_bits(rook, sq, q)
                        &&& is_attack_bits(rook, sq, pair_blockers(rook, sq, q), table@[pair_slot(rook, sq, q)])
                    } by {
                    if pair_done(sq, q, sq0, pi) {
                        assert(old_written[pair_slot(rook, sq, q)]);
                        assert(old_table[pair_slot(rook, sq, q)] == pair_bits(rook, sq, q));
                    }
                }
                assert forall|i: int|
                    0 <= i < written@.len() && #[trigger] written@[i] implies exists|sq: int, q: nat|
                        #![trigger pair_slot(rook, sq, q)]
                        pair_done(sq, q, sq0, pi + 1) && pair_valid(rook, sq, q) && pair_slot(rook, sq, q) == i by {
                    if i == table_index {
                        assert(pair_done(sq0, p, sq0, pi + 1) && pair_valid(rook, sq0, p) && pair_slot(rook, sq0, p) == i);
                    } else {
                        assert(old_written[i]);
                        let (sq2, p2) = choose|sq2: int, p2: nat|
                            #![trigger pair_slot(rook, sq2, p2)]
                            pair_done(sq2, p2, sq0, pi) && pair_valid(rook, sq2, p2) && pair_slot(rook, sq2, p2) == i;
                        assert(pair_done(sq2, p2, sq0, pi + 1) && pair_valid(rook, sq2, p2) && pair_slot(rook, sq2, p2) == i);
                    }
                }
            }
            permutation_index += 1;
        }
        proof {
            let sq0 = square as int;
            assert(square_fits(rook, sq0));
            assert forall|sq: int, q: nat|
                #![trigger pair_slot(rook, sq, q)]
                pair_done(sq, q, sq0 + 1, 0) && pair_valid(rook, sq, q) implies {
                    &&& 0 <= pair_slot(rook, sq, q) < table@.len()
                    &&& written@[pair_slot(rook, sq, q)]
                    &&& table@[pair_slot(rook, sq, q)] == pair_bits(rook, sq, q)
                    &&& is_attack_bits(rook, sq, pair_blockers(rook, sq, q), table@[pair_slot(rook, sq, q)])
                } by {
                assert(pair_done(sq, q, sq0, num_permutations as int));
            }
            assert forall|i: int|
                0 <= i < written@.len() && #[trigger] written@[i] implies exists|sq: int, q: nat|
                    #![trigger pair_slot(rook, sq, q)]
                    pair_done(sq, q, sq0 + 1, 0) && pair_valid(rook, sq, q) && pair_slot(rook, sq, q) == i by {
                let (sq2, p2) = choose|sq2: int, p2: nat|
                    #![trigger pair_slot(rook, sq2, p2)]
                    pair_done(sq2, p2, sq0, num_permutations as int) && pair_valid(rook, sq2, p2) && pair_slot(rook, sq2, p2) == i;
                assert(pair_done(sq2, p2, sq0 + 1, 0));
            }
        }
        square += 1;
    }
    proof {
        assert forall|sq1: int, p1: nat, sq2: int, p2: nat|
            pair_valid(rook, sq1, p1) && pair_valid(rook, sq2, p2) && #[trigger] pair_slot(rook, sq1, p1)
                == #[trigger] pair_slot(rook, sq2, p2) implies pair_bits(rook, sq1, p1) == pair_bits(rook, sq2, p2) by {
            assert(pair_done(sq1, p1, 64, 0));
            assert(pair_done(sq2, p2, 64, 0));
        }
        assert forall|sq: int, q: nat|
            #![trigger pair_slot(rook, sq, q)]
            pair_valid(rook, sq, q) implies {
                &&& 0 <= pair_slot(rook, sq, q) < table@.len()
                &&& table@[pair_slot(rook, sq, q)] == pair_bits(rook, sq, q)
                &&& is_attack_bits(rook, sq, pair_blockers(rook, sq, q), table@[pair_slot(rook, sq, q)])
            } by {
            assert(pair_done(sq, q, 64, 0));
        }
    }
    Some(table)
}

pub fn generate_bishop_table() -> (res: Option<Vec<u64>>)
    ensures
        res is Some == magics_consistent(false),
        res matches Some(t) ==> t.len() == BISHOP_TABLE_SIZE && magic_table_ok(t@, false),
{
    fill_magic_table(false)
}

pub fn generate_rook_table() -> (res: Option<Vec<u64>>)
    ensures
        res is Some == magics_consistent(true),
        res matches Some(t) ==> t.len() == ROOK_TABLE_SIZE && magic_table_ok(t@, true),
{
    fill_magic_table(true)
}

/// The bishop and rook attack tables.
pub struct MagicTables {
    pub bishop: Vec<u64>,
    pub rook: Vec<u64>,
}

impl MagicTables {
    pub open spec fn wf(&self) -> bool {
        &&& magic_table_ok(self.bishop@, false)
        &&& magic_table_ok(self.rook@, true)
        &&& masks_cover(false)
        &&& masks_cover(true)
    }

    /// Builds both tables; `None` when the magic constants do not make a
    /// perfect table, or a mask misses a square where a ray can be stopped.
    pub fn new() -> (res: Option<MagicTables>)
        ensures
            res is Some == (magics_consistent(false) && magics_consistent(true) && masks_cover(false) && masks_cover(true)),
            res matches Some(t) ==> t.wf(),
    {
        if !masks_are_covering(false) || !masks_are_covering(true) {
            return None;
        }
        let bishop = generate_bishop_table();
        let rook = generate_rook_table();
        match (bishop, rook) {
            (Some(bishop), Some(rook)) => Some(MagicTables { bishop, rook }),
            _ => None,
        }
    }
}

/// Whether `mask` holds every square where a slider on `sq` moving by
/// (`dr`, `df`) can be stopped before the edge.
fn ray_is_covered(mask: u64, sq: u8, dr: i8, df: i8) -> (r: bool)
    requires
        sq < 64,
        -1 <= dr <= 1,
        -1 <= df <= 1,
    ensures
        r == (forall|k: int| 1 <= k <= 7 ==> #[trigger] stop_in_mask(mask, rank_of(sq as int), file_of(sq as int), dr as int, df as int, k)),
{
    let r0: i8 = (sq / 8) as i8;
    let f0: i8 = (sq % 8) as i8;
    let mut k: i8 = 1;
    while k <= 7
        invariant
            1 <= k <= 8,
            sq < 64,
            r0 == rank_of(sq as int),
            f0 == file_of(sq as int),
            -1 <= dr <= 1,
            -1 <= df <= 1,
            forall|j: int| 1 <= j < k ==> #[trigger] stop_in_mask(mask, r0 as int, f0 as int, dr as int, df as int, j),
        decreases 8 - k,
    {
        let sr: i8 = if dr > 0 { k } else if dr < 0 { -k } else { 0 };
        let sf: i8 = if df > 0 { k } else if df < 0 { -k } else { 0 };
        let nr: i8 = r0 + sr + dr;
        let nf: i8 = f0 + sf + df;
        if 0 <= nr && nr < 8 && 0 <= nf && nf < 8 {
            let rr: i8 = r0 + sr;
            let ff: i8 = f0 + sf;
            let sq_k: u64 = (rr * 8 + ff) as u64;
            proof {
                lemma_bit_test(sq_k, mask);
                assert(sq_k == square_at(r0 + scale(k as int, dr as int), f0 + scale(k as int, df as int)));
            }
            if (1u64 << sq_k) & mask == 0 {
                proof {
                    assert(!stop_in_mask(mask, r0 as int, f0 as int, dr as int, df as int, k as int));
                }
                return false;
            }
        }
        k += 1;
    }
    true
}

/// Whether the mask of a slider on `sq` covers its rays.
fn mask_is_covering(rook: bool, sq: u8) -> (r: bool)
    requires
        sq < 64,
    ensures
        r == mask_covers(rook, sq as int),
{
    let (mask, _, _, _) = magic_entry(rook, sq as usize);
    proof {
        assert(step_rank(8) == 1 && step_file(8) == 0 && step_rank(1) == 0 && step_file(1) == 1);
        assert(step_rank(-8) == -1 && step_file(-8) == 0 && step_rank(-1) == 0 && step_file(-1) == -1);
        assert(step_rank(9) == 1 && step_file(9) == 1 && step_rank(-7) == -1 && step_file(-7) == 1);
        assert(step_rank(-9) == -1 && step_file(-9) == -1 && step_rank(7) == 1 && step_file(7) == -1);
    }
    let (a, b, c, d) = if rook {
        (ray_is_covered(mask, sq, 1, 0), ray_is_covered(mask, sq, 0, 1), ray_is_covered(mask, sq, -1, 0), ray_is_covered(mask, sq, 0, -1))
    } else {
        (ray_is_covered(mask, sq, 1, 1), ray_is_covered(mask, sq, -1, 1), ray_is_covered(mask, sq, -1, -1), ray_is_covered(mask, sq, 1, -1))
    };
    proof {
        let m = magic_mask(rook, sq as int);
        if rook {
            assert(a == ray_covered(m, sq as int, 8));
            assert(b == ray_covered(m, sq as int, 1));
            assert(c == ray_covered(m, sq as int, -8));
            assert(d == ray_covered(m, sq as int, -1));
        } else {
            assert(a == ray_covered(m, sq as int, 9));
            assert(b == ray_covered(m, sq as int, -7));
            assert(c == ray_covered(m, sq as int, -9));
            assert(d == ray_covered(m, sq as int, 7));
        }
    }
    a && b && c && d
}

/// Whether the mask of every square covers its rays.
fn masks_are_covering(rook: bool) -> (r: bool)
    ensures
        r == masks_cover(rook),
{
    let mut sq: u8 = 0;
    while sq < 64
        invariant
            sq <= 64,
            forall|s: int| 0 <= s < sq ==> #[trigger] mask_covers(rook, s),
        decreases 64 - sq,
    {
        if !mask_is_covering(rook, sq) {
            return false;
        }
        sq += 1;
    }
    true
}

/// Looks up the attacks of a slider through the magic table.
fn lookup_attacks(table: &Vec<u64>, rook: bool, occupancy: u64, from: u8) -> (r: u64)
    requires
        magic_table_ok(table@, rook),
        from < 64,
    ensures
        is_attack_bits(rook, from as int, magic_mask(rook, from as int) & occupancy, r),
{
    let (mask, magic, shift, offset) = magic_entry(rook, from as usize);
    proof {
        lemma_shift_facts(rook, from as int);
    }
    let blockers = mask & occupancy;
    let hash_index = blockers.wrapping_mul(magic) >> shift;
    let ghost p = subset_index(mask, blockers);
    proof {
        lemma_subset_roundtrip(mask, blockers);
        assert((mask & occupancy) & mask == mask & occupancy) by (bit_vector);
        assert(pair_blockers(rook, from as int, p) == blockers);
        assert(pair_valid(rook, from as int, p));
        assert(pair_slot(rook, from as int, p) == hash_index + offset);
        let x = vstd::wrapping::u64_specs::wrapping_mul(blockers, magic);
        assert(x >> shift < 0x1000) by (bit_vector)
            requires 52 <= shift <= 59;
    }
    let table_index = hash_index as usize + offset;
    table[table_index]
}

/// Squares a bishop on `from` attacks, looked up with the occupancy of the
/// squares in the bishop mask of `from`.
pub fn get_bishop_attacks_mask(tables: &MagicTables, occupancy: u64, from: u8) -> (r: u64)
    requires
        tables.wf(),
        from < 64,
    ensures
        forall|t: int| #[trigger] has_bit(r, t) == bishop_attack(from as int, BISHOP_MASKS[from as int] & occupancy, t),
        forall|t: int| #[trigger] has_bit(r, t) == bishop_attack(from as int, occupancy, t),
{
    let r = lookup_attacks(&tables.bishop, false, occupancy, from);
    assert forall|t: int| #[trigger] has_bit(r, t) == bishop_attack(from as int, BISHOP_MASKS[from as int] & occupancy, t) by {
        assert(has_bit(r, t) == slider_attack(false, from as int, BISHOP_MASKS[from as int] & occupancy, t));
    }
    assert forall|t: int| #[trigger] has_bit(r, t) == bishop_attack(from as int, occupancy, t) by {
        assert(mask_covers(false, from as int));
        lemma_masked_attacks(false, from as int, occupancy, t);
    }
    r
}

/// Squares a rook on `from` attacks, looked up with the occupancy of the
/// squares in the rook mask of `from`.
pub fn get_rook_attacks_mask(tables: &MagicTables, occupancy: u64, from: u8) -> (r: u64)
    requires
        tables.wf(),
        from < 64,
    ensures
        forall|t: int| #[trigger] has_bit(r, t) == rook_attack(from as int, ROOK_MASKS[from as int] & occupancy, t),
        forall|t: int| #[trigger] has_bit(r, t) == rook_attack(from as int, occupancy, t),
{
    let r = lookup_attacks(&tables.rook, true, occupancy, from);
    assert forall|t: int| #[trigger] has_bit(r, t) == rook_attack(from as int, ROOK_MASKS[from as int] & occupancy, t) by {
        assert(has_bit(r, t) == slider_attack(true, from as int, ROOK_MASKS[from as int] & occupancy, t));
    }
    assert forall|t: int| #[trigger] has_bit(r, t) == rook_attack(from as int, occupancy, t) by {
        assert(mask_covers(true, from as int));
        lemma_masked_attacks(true, from as int, occupancy, t);
    }
    r
}

/// Squares a queen on `from` attacks: the bishop and the rook attacks.
pub fn get_queen_attacks_mask(tables: &MagicTables, occupancy: u64, from: u8) -> (r: u64)
    requires
        tables.wf(),
        from < 64,
    ensures
        forall|t: int| #[trigger] has_bit(r, t) == (bishop_attack(from as int, BISHOP_MASKS[from as int] & occupancy, t)
            || rook_attack(from as int, ROOK_MASKS[from as int] & occupancy, t)),
{
    let b = get_bishop_attacks_mask(tables, occupancy, from);
    let r = get_rook_attacks_mask(tables, occupancy, from);
    assert forall|t: int| #[trigger] has_bit(b | r, t) == (bishop_attack(from as int, BISHOP_MASKS[from as int] & occupancy, t)
            || rook_attack(from as int, ROOK_MASKS[from as int] & occupancy, t)) by {
        lemma_has_bit_or(b, r, t);
    }
    b | r
}

/// A slide reaches the square `n` steps away when the squares before it are
/// empty.
pub proof fn lemma_slide_reaches(r: int, f: int, dr: int, df: int, occ: u64, n: int, fuel: nat)
    requires
        -1 <= dr <= 1,
        -1 <= df <= 1,
        1 <= n <= fuel,
        on_board(r, f),
        on_board(r + scale(n, dr), f + scale(n, df)),
        forall|k: int| 1 <= k < n ==> !has_bit(occ, #[trigger] square_at(r + scale(k, dr), f + scale(k, df))),
    ensures
        slide(r, f, dr, df, occ, square_at(r + scale(n, dr), f + scale(n, df)), fuel),
    decreases n,
{
    assert(on_board(r + dr, f + df));
    if n > 1 {
        assert forall|k: int| 1 <= k < n - 1 implies !has_bit(occ, #[trigger] square_at(r + dr + scale(k, dr), f + df + scale(k, df))) by {
            assert(r + dr + scale(k, dr) == r + scale(k + 1, dr));
            assert(f + df + scale(k, df) == f + scale(k + 1, df));
            assert(!has_bit(occ, square_at(r + scale(k + 1, dr), f + scale(k + 1, df))));
        }
        assert(r + dr + scale(n - 1, dr) == r + scale(n, dr));
        assert(f + df + scale(n - 1, df) == f + scale(n, df));
        lemma_slide_reaches(r + dr, f + df, dr, df, occ, n - 1, (fuel - 1) as nat);
        assert(!has_bit(occ, square_at(r + scale(1, dr), f + scale(1, df))));
    }
}

} // verus!
