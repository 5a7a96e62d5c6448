//! Keccak-f\[1600\] and the Keccak-256 digest as mathematics.
//!
//! A state is a sequence of 25 lanes of 64 bits; the lane at column `x` and
//! row `y` stands at index `x + 5 * y`.

use vstd::prelude::*;

verus! {

/// Round constants, one per round.
pub const RC: [u64; 24] = [
    0x0000000000000001,
    0x0000000000008082,
    0x800000000000808a,
    0x8000000080008000,
    0x000000000000808b,
    0x0000000080000001,
    0x8000000080008081,
    0x8000000000008009,
    0x000000000000008a,
    0x0000000000000088,
    0x0000000080008009,
    0x000000008000000a,
    0x000000008000808b,
    0x800000000000008b,
    0x8000000000008089,
    0x8000000000008003,
    0x8000000000008002,
    0x8000000000000080,
    0x000000000000800a,
    0x800000008000000a,
    0x8000000080008081,
    0x8000000000008080,
    0x0000000080000001,
    0x8000000080008008,
];

/// Rotation offsets, one per lane.
pub const RHO: [u32; 25] = [
    0, 1, 62, 28, 27,
    36, 44, 6, 55, 20,
    3, 10, 43, 25, 39,
    41, 45, 15, 21, 8,
    18, 2, 61, 56, 14,
];

/// `x` rotated left by `n` bits.
pub open spec fn rotl(x: u64, n: u32) -> u64 {
    if n == 0 {
        x
    } else {
        (x << n) | (x >> ((64 - n) as u32))
    }
}

/// The parity of column `x`.
pub open spec fn column(a: Seq<u64>, x: int) -> u64 {
    a[x] ^ a[x + 5] ^ a[x + 10] ^ a[x + 15] ^ a[x + 20]
}

/// What theta adds to every lane of column `x`.
pub open spec fn theta_mix(a: Seq<u64>, x: int) -> u64 {
    column(a, (x + 4) % 5) ^ rotl(column(a, (x + 1) % 5), 1)
}

/// Theta: each lane takes in the parities of two neighbouring columns.
#[verifier::opaque]
pub open spec fn theta(a: Seq<u64>) -> Seq<u64> {
    Seq::new(25, |i: int| a[i] ^ theta_mix(a, i % 5))
}

/// The index of the lane that pi moves to index `i`: `(x, y)` receives
/// `(x + 3 * y, x)`.
pub open spec fn pi_source(i: int) -> int {
    (i % 5 + 3 * (i / 5)) % 5 + 5 * (i % 5)
}

/// Rho and pi: each lane is rotated by its offset and moved to its new place.
#[verifier::opaque]
pub open spec fn rho_pi(a: Seq<u64>) -> Seq<u64> {
    Seq::new(25, |i: int| rotl(a[pi_source(i)], RHO[pi_source(i)]))
}

/// One lane of chi: the lane, and the two to its right in its row.
pub open spec fn chi_lane(here: u64, next: u64, after: u64) -> u64 {
    here ^ (!next & after)
}

/// Chi: each row is combined with itself, lane by lane.
#[verifier::opaque]
pub open spec fn chi(b: Seq<u64>) -> Seq<u64> {
    Seq::new(
        25,
        |i: int|
            chi_lane(b[i], b[(i % 5 + 1) % 5 + 5 * (i / 5)], b[(i % 5 + 2) % 5 + 5 * (i / 5)]),
    )
}

/// Iota: the first lane takes in the constant of round `r`.
pub open spec fn iota(a: Seq<u64>, r: int) -> Seq<u64> {
    a.update(0, a[0] ^ RC[r])
}

/// Round `r` of the permutation.
pub open spec fn keccak_round(a: Seq<u64>, r: int) -> Seq<u64> {
    iota(chi(rho_pi(theta(a))), r)
}

/// The first `n` rounds.
pub open spec fn keccak_rounds(a: Seq<u64>, n: nat) -> Seq<u64>
    decreases n,
{
    if n == 0 {
        a
    } else {
        keccak_round(keccak_rounds(a, (n - 1) as nat), n - 1)
    }
}

/// Keccak-f\[1600\]: all 24 rounds.
pub open spec fn keccak_f(a: Seq<u64>) -> Seq<u64> {
    keccak_rounds(a, 24)
}

/// Byte `k` of a lane, the least significant first.
pub open spec fn lane_byte(lane: u64, k: int) -> u8 {
    ((lane >> ((8 * k) as u32)) & 0xff) as u8
}

/// The lane whose bytes, the least significant first, are `b0` to `b7`.
pub open spec fn lane_of(b0: u8, b1: u8, b2: u8, b3: u8, b4: u8, b5: u8, b6: u8, b7: u8) -> u64 {
    (b0 as u64) | (b1 as u64) << 8 | (b2 as u64) << 16 | (b3 as u64) << 24 | (b4 as u64) << 32 | (
    b5 as u64) << 40 | (b6 as u64) << 48 | (b7 as u64) << 56
}

/// Lane `i` of a block of bytes.
pub open spec fn block_lane(block: Seq<u8>, i: int) -> u64 {
    lane_of(
        block[8 * i],
        block[8 * i + 1],
        block[8 * i + 2],
        block[8 * i + 3],
        block[8 * i + 4],
        block[8 * i + 5],
        block[8 * i + 6],
        block[8 * i + 7],
    )
}

/// A message shorter than a block of 136 bytes, padded to one: a 0x01 right
/// behind it, and the top bit of the last byte set.
pub open spec fn padded_block(data: Seq<u8>) -> Seq<u8> {
    Seq::new(
        136,
        |i: int|
            if i < data.len() {
                data[i]
            } else if i == data.len() {
                if i == 135 { 0x81u8 } else { 0x01u8 }
            } else if i == 135 {
                0x80u8
            } else {
                0u8
            },
    )
}

/// A state that takes in a block of 136 bytes: its first 17 lanes.
pub open spec fn taking_in(st: Seq<u64>, block: Seq<u8>) -> Seq<u64> {
    Seq::new(25, |i: int| if i < 17 { st[i] ^ block_lane(block, i) } else { st[i] })
}

/// The state after a message was absorbed: block by block, and the rest padded to
/// a last one, with the permutation behind each.
pub open spec fn sponge(st: Seq<u64>, data: Seq<u8>) -> Seq<u64>
    decreases data.len(),
{
    if data.len() < 136 {
        keccak_f(taking_in(st, padded_block(data)))
    } else {
        sponge(keccak_f(taking_in(st, data.take(136))), data.skip(136))
    }
}

/// The zero state.
pub open spec fn zero_state() -> Seq<u64> {
    Seq::new(25, |i: int| 0u64)
}

/// Keccak-256: the first 32 bytes of the state that absorbed the message.
pub open spec fn digest(data: Seq<u8>) -> Seq<u8> {
    Seq::new(32, |i: int| lane_byte(sponge(zero_state(), data)[i / 8], i % 8))
}

/// The state after the padded block was absorbed into the zero state.
pub open spec fn absorbed(data: Seq<u8>) -> Seq<u64> {
    Seq::new(25, |i: int| if i < 17 { block_lane(padded_block(data), i) } else { 0u64 })
}

/// The digest of a message shorter than 136 bytes: pad it to one block, absorb
/// that, permute once, and read the first 32 bytes of the state.
pub open spec fn block_digest(data: Seq<u8>) -> Seq<u8> {
    Seq::new(32, |i: int| lane_byte(keccak_f(absorbed(data))[i / 8], i % 8))
}

/// The digest of a message shorter than 136 bytes is that of its one block.
pub proof fn digest_of_one_block(data: Seq<u8>)
    requires
        data.len() < 136,
    ensures
        digest(data) == block_digest(data),
{
    let block = padded_block(data);
    assert forall|i: int| 0 <= i < 25 implies #[trigger] taking_in(zero_state(), block)[i]
        == absorbed(data)[i] by {
        let lane = block_lane(block, i);
        assert(0u64 ^ lane == lane) by (bit_vector);
    }
    assert(taking_in(zero_state(), block) =~= absorbed(data));
    assert(digest(data) =~= block_digest(data));
}

} // verus!
