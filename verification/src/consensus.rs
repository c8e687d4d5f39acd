//! Proof-of-work consensus: hash-target verification, the mining loop, and
//! difficulty re-derivation from historical headers.
//!
//! Difficulty counts the leading zero bits a block hash must show. It is
//! recalculated every `ADJUSTMENT_INTERVAL_BLOCKS` blocks from the time the
//! last interval took, with the per-step change clamped to a factor of
//! `MAX_DIFFICULTY_CHANGE_FACTOR` in either direction and the result held
//! inside `[MIN_DIFFICULTY, MAX_DIFFICULTY]`. The ratio arithmetic is exact
//! (integer rationals, rounding half up).

use vstd::prelude::*;

use crate::chain::{block_hash, BlockHeader, HeaderV};
use crate::storage::{clean_block_at, stored_block_at, StorageManager};

verus! {

/// Target time for mining one block, in seconds.
pub const TARGET_BLOCK_TIME_SECS: u64 = 600;

/// Number of blocks after which difficulty is recalculated.
pub const ADJUSTMENT_INTERVAL_BLOCKS: u64 = 20;

/// Minimum difficulty (leading zero bits).
pub const MIN_DIFFICULTY: u32 = 4;

/// Maximum difficulty (leading zero bits).
pub const MAX_DIFFICULTY: u32 = 60;

/// Maximum factor by which difficulty can change in one adjustment.
pub const MAX_DIFFICULTY_CHANGE_FACTOR: u64 = 4;

/// The byte whose set bits are the top `d % 8` positions; meaningful when
/// `d % 8 != 0`.
pub open spec fn high_bits_mask(d: u32) -> u8 {
    0xffu8 << ((8 - d % 8) as u8)
}

/// A hash meets difficulty `d` when its first `d / 8` bytes are zero and
/// the top `d % 8` bits of the next byte are zero; `d == 0` accepts any
/// hash, and when the required bits end inside a byte the hash must be
/// long enough to show that byte.
pub open spec fn pow_ok(h: Seq<u8>, d: u32) -> bool {
    d == 0 || {
        let zb = (d / 8) as int;
        &&& forall|i: int| 0 <= i < zb && i < h.len() ==> h[i] == 0
        &&& (d % 8 != 0 ==> zb < h.len() && h[zb] & high_bits_mask(d) == 0)
    }
}

/// Verifies that a hash meets the required difficulty target.
pub fn verify_pow(hash: &crate::chain::Hash, difficulty: u32) -> (r: bool)
    ensures
        r == pow_ok(hash@, difficulty),
{
    if difficulty == 0 {
        return true;
    }
    let zb = difficulty / 8;
    let m: usize = if zb > 32 {
        32
    } else {
        zb as usize
    };
    let mut i: usize = 0;
    while i < m
        invariant
            0 <= i <= m <= 32,
            m == if (difficulty / 8) as int > 32 {
                32int
            } else {
                (difficulty / 8) as int
            },
            forall|j: int| 0 <= j < i ==> hash@[j] == 0,
        decreases m - i,
    {
        if hash[i] != 0 {
            return false;
        }
        i += 1;
    }
    if difficulty % 8 != 0 {
        if zb >= 32 {
            return false;
        }
        let sh = (8 - (difficulty % 8)) as u8;
        let mask = 0xffu8 << sh;
        if hash[zb as usize] & mask != 0 {
            return false;
        }
    }
    true
}

/// The header value with its nonce and difficulty fields replaced: the
/// shape of every candidate the mining loop hashes.
pub open spec fn header_with_nonce(h: HeaderV, difficulty: u32, nonce: u64) -> HeaderV {
    HeaderV { nonce, difficulty, ..h }
}

/// No nonce at all makes this header shape hash under the difficulty
/// target: the whole mining search is doomed to fail.
pub open spec fn nonce_space_exhausted(hv: HeaderV, d: u32) -> bool {
    forall|n: u64| !pow_ok(#[trigger] block_hash(header_with_nonce(hv, d, n)), d)
}

/// Searches for a nonce that makes the header hash meet `difficulty`,
/// counting up from the header's current nonce; the header's difficulty
/// field is set to `difficulty` first. The hit is the least satisfying
/// nonce at or above the starting one; an error comes back only when no
/// nonce in the remaining space satisfies the target.
pub fn mine(header: &mut BlockHeader, difficulty: u32) -> (r: Result<crate::chain::Hash, String>)
    ensures
        final(header).previous_hash == old(header).previous_hash,
        final(header).merkle_root == old(header).merkle_root,
        final(header).timestamp == old(header).timestamp,
        final(header).height == old(header).height,
        final(header).difficulty == difficulty,
        final(header).nonce >= old(header).nonce,
        r matches Ok(h) ==> h@ == block_hash(final(header)@) && pow_ok(h@, difficulty)
            && forall|n: u64|
            old(header).nonce <= n < final(header).nonce ==> !pow_ok(
                #[trigger] block_hash(header_with_nonce(old(header)@, difficulty, n)),
                difficulty,
            ),
        r is Err ==> forall|n: u64|
            n >= old(header).nonce ==> !pow_ok(
                #[trigger] block_hash(header_with_nonce(old(header)@, difficulty, n)),
                difficulty,
            ),
{
    header.difficulty = difficulty;
    loop
        invariant
            header.previous_hash == old(header).previous_hash,
            header.merkle_root == old(header).merkle_root,
            header.timestamp == old(header).timestamp,
            header.height == old(header).height,
            header.difficulty == difficulty,
            header.nonce >= old(header).nonce,
            forall|n: u64|
                old(header).nonce <= n < header.nonce ==> !pow_ok(
                    #[trigger] block_hash(header_with_nonce(old(header)@, difficulty, n)),
                    difficulty,
                ),
        decreases u64::MAX - header.nonce,
    {
        let h = header.calculate_hash();
        proof {
            assert(header@ =~= header_with_nonce(old(header)@, difficulty, header.nonce));
        }
        if verify_pow(&h, difficulty) {
            return Ok(h);
        }
        match header.nonce.checked_add(1) {
            Some(next) => {
                header.nonce = next;
            },
            None => {
                proof {
                    assert forall|n: u64| n >= old(header).nonce implies !pow_ok(
                        #[trigger] block_hash(header_with_nonce(old(header)@, difficulty, n)),
                        difficulty,
                    ) by {
                        if n == u64::MAX {
                            assert(header.nonce == u64::MAX);
                        }
                    }
                }
                return Err("Nonce overflow during mining".to_owned());
            },
        }
    }
}

/// Clamps a difficulty value into `[MIN_DIFFICULTY, MAX_DIFFICULTY]`.
pub open spec fn clamp_difficulty(x: int) -> u32 {
    if x < MIN_DIFFICULTY as int {
        MIN_DIFFICULTY
    } else if x > MAX_DIFFICULTY as int {
        MAX_DIFFICULTY
    } else {
        x as u32
    }
}

/// The recalculated difficulty after an interval that took `actual`
/// seconds against a target of `TARGET_BLOCK_TIME_SECS *
/// ADJUSTMENT_INTERVAL_BLOCKS`: the target/actual ratio, clamped to
/// `[1/MAX_DIFFICULTY_CHANGE_FACTOR, MAX_DIFFICULTY_CHANGE_FACTOR]`, scales
/// the current difficulty; the product is rounded half up and clamped. A
/// zero interval yields a conservative one-step increase.
pub open spec fn difficulty_refit(cur: u32, actual: u64) -> u32 {
    let target = (TARGET_BLOCK_TIME_SECS * ADJUSTMENT_INTERVAL_BLOCKS) as int;
    let f = MAX_DIFFICULTY_CHANGE_FACTOR as int;
    if actual == 0 {
        clamp_difficulty(cur as int + 1)
    } else if (actual as int) * f < target {
        clamp_difficulty(cur as int * f)
    } else if target * f < actual as int {
        clamp_difficulty((2 * (cur as int) + f) / (2 * f))
    } else {
        clamp_difficulty((2 * (cur as int) * target + actual as int) / (2 * (actual as int)))
    }
}

/// Clamps a difficulty value into the allowed range.
pub fn clamp_difficulty_exec(x: u64) -> (r: u32)
    ensures
        r == clamp_difficulty(x as int),
{
    if x < MIN_DIFFICULTY as u64 {
        MIN_DIFFICULTY
    } else if x > MAX_DIFFICULTY as u64 {
        MAX_DIFFICULTY
    } else {
        x as u32
    }
}

/// Recalculates the difficulty from the current one and the seconds the
/// just-completed interval actually took, in exact integer arithmetic.
pub fn difficulty_update(cur: u32, actual: u64) -> (r: u32)
    ensures
        r == difficulty_refit(cur, actual),
{
    let target: u64 = TARGET_BLOCK_TIME_SECS * ADJUSTMENT_INTERVAL_BLOCKS;
    let f: u64 = MAX_DIFFICULTY_CHANGE_FACTOR;
    if actual == 0 {
        clamp_difficulty_exec(cur as u64 + 1)
    } else if actual < target / f {
        proof {
            assert((actual as int) * (f as int) < target as int) by (nonlinear_arith)
                requires
                    actual < target / f,
                    target == 12000,
                    f == 4,
            ;
        }
        clamp_difficulty_exec(cur as u64 * f)
    } else if target * f < actual {
        proof {
            assert(!((actual as int) * (f as int) < target as int)) by (nonlinear_arith)
                requires
                    actual >= target / f,
                    target == 12000,
                    f == 4,
            ;
        }
        clamp_difficulty_exec((2 * (cur as u64) + f) / (2 * f))
    } else {
        proof {
            assert(!((actual as int) * (f as int) < target as int)) by (nonlinear_arith)
                requires
                    actual >= target / f,
                    target == 12000,
                    f == 4,
            ;
            assert(2 * (cur as int) * (target as int) + actual as int <= 0xffff_ffff_ffff_ffff)
                by (nonlinear_arith)
                requires
                    cur <= 0xffff_ffffu32,
                    target == 12000,
                    actual <= target * 4,
            ;
        }
        clamp_difficulty_exec((2 * (cur as u64) * target + actual) / (2 * actual))
    }
}


/// Saturating subtraction: a prior block's clock being ahead yields zero.
pub open spec fn sat_sub(a: u64, b: u64) -> u64 {
    if a >= b {
        (a - b) as u64
    } else {
        0
    }
}

/// The difficulty owed by the block at height `h + 1`, derived from the
/// store: off an adjustment boundary it is the tip's difficulty; on a
/// boundary it is refitted from the time the last interval took, except
/// that an interval anchored on the genesis block is skipped. `None` when a
/// needed block cannot be read.
pub open spec fn expected_next_difficulty(m: Map<Seq<u8>, Seq<u8>>, h: u64) -> Option<u32> {
    match stored_block_at(m, h) {
        Option::None => Option::None,
        Option::Some(tip) => {
            if h % ADJUSTMENT_INTERVAL_BLOCKS != (ADJUSTMENT_INTERVAL_BLOCKS - 1) as u64 {
                Option::Some(tip.header.difficulty)
            } else if h == (ADJUSTMENT_INTERVAL_BLOCKS - 1) as u64 {
                Option::Some(tip.header.difficulty)
            } else {
                let s = (h - (ADJUSTMENT_INTERVAL_BLOCKS - 1)) as u64;
                match stored_block_at(m, s) {
                    Option::None => Option::None,
                    Option::Some(start) => Option::Some(
                        difficulty_refit(
                            tip.header.difficulty,
                            sat_sub(tip.header.timestamp, start.header.timestamp),
                        ),
                    ),
                }
            }
        },
    }
}

/// The reads the difficulty derivation performs at height `h` all hit
/// present, well-formed records.
pub open spec fn difficulty_inputs_clean(m: Map<Seq<u8>, Seq<u8>>, h: u64) -> bool {
    &&& clean_block_at(m, h)
    &&& (h % ADJUSTMENT_INTERVAL_BLOCKS == (ADJUSTMENT_INTERVAL_BLOCKS - 1) as u64 && h != (
    ADJUSTMENT_INTERVAL_BLOCKS - 1) as u64 ==> clean_block_at(
        m,
        (h - (ADJUSTMENT_INTERVAL_BLOCKS - 1)) as u64,
    ))
}

/// Derives the difficulty for the block at height `current_height + 1`
/// from the stored headers, as `expected_next_difficulty` states; it
/// succeeds exactly when the records it needs are present and well formed.
pub fn calculate_next_difficulty(current_height: u64, storage: &StorageManager) -> (r: Result<
    u32,
    String,
>)
    requires
        storage.wf(),
    ensures
        r matches Ok(d) ==> expected_next_difficulty(storage@, current_height) == Some(d),
        difficulty_inputs_clean(storage@, current_height) <==> r is Ok,
{
    let tip = match storage.get_block_by_height(current_height) {
        Ok(Some(b)) => b,
        Ok(None) => {
            return Err("current block not found in storage for the difficulty derivation".to_owned(
            ));
        },
        Err(_) => {
            return Err("storage error reading the current block for the difficulty derivation".to_owned(
            ));
        },
    };
    let current_difficulty = tip.header.difficulty;
    if current_height % ADJUSTMENT_INTERVAL_BLOCKS != ADJUSTMENT_INTERVAL_BLOCKS - 1 {
        return Ok(current_difficulty);
    }
    if current_height == ADJUSTMENT_INTERVAL_BLOCKS - 1 {
        return Ok(current_difficulty);
    }
    let interval_start = current_height - (ADJUSTMENT_INTERVAL_BLOCKS - 1);
    let start = match storage.get_block_by_height(interval_start) {
        Ok(Some(b)) => b,
        Ok(None) => {
            return Err("interval start block not found for the difficulty derivation".to_owned());
        },
        Err(_) => {
            return Err("storage error reading the interval start block for the difficulty derivation".to_owned(
            ));
        },
    };
    let actual = if tip.header.timestamp >= start.header.timestamp {
        tip.header.timestamp - start.header.timestamp
    } else {
        0
    };
    Ok(difficulty_update(current_difficulty, actual))
}


} // verus!
