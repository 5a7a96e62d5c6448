//! Specialized keccak for the mining preimage.
//!
//! The preimage is a fixed 64-byte single block: 12 zero bytes, the 20-byte
//! deployer, then the 32-byte salt. That means one keccak-f1600 permutation per
//! candidate with a state template that only changes in two lanes (the low 16
//! salt bytes). This module keeps a precomputed state template per deployer and
//! exposes the first 16 output bytes as a big-endian u128 whose top 72 bits are
//! the grindable tail.

use crate::b20;
use crate::keccak;
use vstd::prelude::*;

verus! {

/// Where pi moves the lane at each index: `(x, y)` goes to `(y, 2 * x + 3 * y)`.
pub const PI_DST: [usize; 25] = [
    0, 10, 20, 5, 15,
    16, 1, 11, 21, 6,
    7, 17, 2, 12, 22,
    23, 8, 18, 3, 13,
    14, 24, 9, 19, 4,
];

/// `x` rotated left by `n` bits.
pub fn rotate_left(x: u64, n: u32) -> (r: u64)
    requires
        n < 64,
    ensures
        r == keccak::rotl(x, n),
{
    if n == 0 {
        x
    } else {
        (x << n) | (x >> (64 - n))
    }
}

/// The table of destinations and the formula for sources are inverse to each other.
pub proof fn pi_tables_agree()
    ensures
        forall|i: int| 0 <= i < 25 ==> 0 <= #[trigger] keccak::pi_source(i) < 25,
        forall|i: int| 0 <= i < 25 ==> PI_DST[#[trigger] keccak::pi_source(i)] == i,
        forall|i: int| 0 <= i < 25 ==> 0 <= #[trigger] PI_DST[i] < 25,
        forall|i: int| 0 <= i < 25 ==> keccak::pi_source(#[trigger] PI_DST[i] as int) == i,
        forall|i: int| 0 <= i < 25 ==> #[trigger] keccak::RHO[i] < 64,
{
}

/// Theta, in place.
fn mix_columns(a: &mut [u64; 25])
    ensures
        final(a)@ == keccak::theta(old(a)@),
{
    reveal(keccak::theta);
    let ghost start = a@;
    let mut c: [u64; 5] = [0u64; 5];
    let mut x: usize = 0;
    while x < 5
        invariant
            x <= 5,
            a@ == start,
            forall|k: int| 0 <= k < x ==> c@[k] == keccak::column(start, k),
        decreases 5 - x,
    {
        c[x] = a[x] ^ a[x + 5] ^ a[x + 10] ^ a[x + 15] ^ a[x + 20];
        x = x + 1;
    }
    let mut d: [u64; 5] = [0u64; 5];
    x = 0;
    while x < 5
        invariant
            x <= 5,
            forall|k: int| 0 <= k < 5 ==> c@[k] == keccak::column(start, k),
            forall|k: int| 0 <= k < x ==> d@[k] == keccak::theta_mix(start, k),
        decreases 5 - x,
    {
        d[x] = c[(x + 4) % 5] ^ rotate_left(c[(x + 1) % 5], 1);
        x = x + 1;
    }
    let mut i: usize = 0;
    while i < 25
        invariant
            i <= 25,
            start.len() == 25,
            forall|k: int| 0 <= k < 5 ==> d@[k] == keccak::theta_mix(start, k),
            forall|k: int| 0 <= k < i ==> a@[k] == start[k] ^ keccak::theta_mix(start, k % 5),
            forall|k: int| i <= k < 25 ==> a@[k] == start[k],
        decreases 25 - i,
    {
        a[i] = a[i] ^ d[i % 5];
        i = i + 1;
    }
    assert(a@ =~= keccak::theta(start));
}

/// Rho and pi.
fn rotate_and_move(a: &[u64; 25]) -> (b: [u64; 25])
    ensures
        b@ == keccak::rho_pi(a@),
{
    proof {
        reveal(keccak::rho_pi);
        pi_tables_agree();
    }
    let mut b: [u64; 25] = [0u64; 25];
    let mut i: usize = 0;
    while i < 25
        invariant
            i <= 25,
            forall|k: int| 0 <= k < i ==> b@[#[trigger] PI_DST[k] as int] == keccak::rotl(a@[k], keccak::RHO[k]),
        decreases 25 - i,
    {
        proof {
            pi_tables_agree();
        }
        b[PI_DST[i]] = rotate_left(a[i], keccak::RHO[i]);
        i = i + 1;
    }
    assert forall|k: int| 0 <= k < 25 implies b@[k] == keccak::rho_pi(a@)[k] by {
        assert(PI_DST[keccak::pi_source(k)] == k);
    }
    assert(b@ =~= keccak::rho_pi(a@));
    b
}

/// Chi.
fn combine_rows(b: &[u64; 25], a: &mut [u64; 25])
    ensures
        final(a)@ == keccak::chi(b@),
{
    let mut y: usize = 0;
    while y < 5
        invariant
            y <= 5,
            forall|k: int| 0 <= k < 5 * y ==> a@[k] == keccak::chi(b@)[k],
        decreases 5 - y,
    {
        let mut x: usize = 0;
        while x < 5
            invariant
                x <= 5,
                y < 5,
                forall|k: int| 0 <= k < 5 * y + x ==> a@[k] == keccak::chi(b@)[k],
            decreases 5 - x,
        {
            reveal(keccak::chi);
            a[x + 5 * y] = b[x + 5 * y] ^ (!b[(x + 1) % 5 + 5 * y] & b[(x + 2) % 5 + 5 * y]);
            assert((x + 5 * y) % 5 == x && (x + 5 * y) / 5 == y);
            x = x + 1;
        }
        y = y + 1;
    }
    assert(a@ =~= keccak::chi(b@)) by {
        reveal(keccak::chi);
    }
}

/// Round `r` of the permutation, in place.
fn round(a: &mut [u64; 25], r: usize)
    requires
        r < 24,
    ensures
        final(a)@ == keccak::keccak_round(old(a)@, r as int),
{
    mix_columns(a);
    let b: [u64; 25] = rotate_and_move(a);
    combine_rows(&b, a);
    a[0] = a[0] ^ keccak::RC[r];
}

/// Portable keccak-f1600 permutation.
pub fn f1600(a: &mut [u64; 25])
    ensures
        final(a)@ == keccak::keccak_f(old(a)@),
{
    let ghost start = a@;
    let mut r: usize = 0;
    while r < 24
        invariant
            r <= 24,
            a@ == keccak::keccak_rounds(start, r as nat),
        decreases 24 - r,
    {
        round(a, r);
        r = r + 1;
    }
}

/// The bytes of a word, in reverse order.
pub open spec fn swapped(x: u64) -> u64 {
    keccak::lane_of(
        keccak::lane_byte(x, 7),
        keccak::lane_byte(x, 6),
        keccak::lane_byte(x, 5),
        keccak::lane_byte(x, 4),
        keccak::lane_byte(x, 3),
        keccak::lane_byte(x, 2),
        keccak::lane_byte(x, 1),
        keccak::lane_byte(x, 0),
    )
}

/// The bytes of a word, in reverse order.
pub fn swap_bytes(x: u64) -> (r: u64)
    ensures
        r == swapped(x),
{
    let r: u64 = (x << 56) | ((x & 0xff00) << 40) | ((x & 0xff_0000) << 24) | ((x & 0xff00_0000)
        << 8) | ((x >> 8) & 0xff00_0000) | ((x >> 24) & 0xff_0000) | ((x >> 40) & 0xff00) | (x
        >> 56);
    assert(r == keccak::lane_of(
        ((x >> 56u32) & 0xff) as u8,
        ((x >> 48u32) & 0xff) as u8,
        ((x >> 40u32) & 0xff) as u8,
        ((x >> 32u32) & 0xff) as u8,
        ((x >> 24u32) & 0xff) as u8,
        ((x >> 16u32) & 0xff) as u8,
        ((x >> 8u32) & 0xff) as u8,
        ((x >> 0u32) & 0xff) as u8,
    )) by (bit_vector)
        requires
            r == (x << 56) | ((x & 0xff00) << 40) | ((x & 0xff_0000) << 24) | ((x & 0xff00_0000)
                << 8) | ((x >> 8) & 0xff00_0000) | ((x >> 24) & 0xff_0000) | ((x >> 40) & 0xff00)
                | (x >> 56),
    ;
    r
}

/// The state that absorbs the preimage of a deployer and the zero salt.
pub open spec fn template_of(deployer: Seq<u8>) -> Seq<u64> {
    keccak::absorbed(b20::preimage(deployer, 0))
}

/// The first 16 bytes of a state, the most significant first.
pub open spec fn window_of(st: Seq<u64>) -> u128 {
    ((swapped(st[0]) as u128) << 64) | (swapped(st[1]) as u128)
}

/// The salt in the two lanes that hold it.
pub open spec fn salted(template: Seq<u64>, salt: u128) -> Seq<u64> {
    template.update(6, swapped((salt >> 64) as u64)).update(7, swapped(salt as u64))
}

/// The window of a deployer and a salt: the salted template, permuted.
pub open spec fn tail_window(deployer: Seq<u8>, salt: u128) -> u128 {
    window_of(keccak::keccak_f(salted(template_of(deployer), salt)))
}

/// Bytes 48 to 63 of a preimage, which hold the salt, as two lanes.
proof fn salt_lane_bytes(salt: u128)
    ensures
        swapped((salt >> 64) as u64) == keccak::lane_of(
            ((salt >> 120u32) & 0xff) as u8,
            ((salt >> 112u32) & 0xff) as u8,
            ((salt >> 104u32) & 0xff) as u8,
            ((salt >> 96u32) & 0xff) as u8,
            ((salt >> 88u32) & 0xff) as u8,
            ((salt >> 80u32) & 0xff) as u8,
            ((salt >> 72u32) & 0xff) as u8,
            ((salt >> 64u32) & 0xff) as u8,
        ),
        swapped(salt as u64) == keccak::lane_of(
            ((salt >> 56u32) & 0xff) as u8,
            ((salt >> 48u32) & 0xff) as u8,
            ((salt >> 40u32) & 0xff) as u8,
            ((salt >> 32u32) & 0xff) as u8,
            ((salt >> 24u32) & 0xff) as u8,
            ((salt >> 16u32) & 0xff) as u8,
            ((salt >> 8u32) & 0xff) as u8,
            ((salt >> 0u32) & 0xff) as u8,
        ),
{
    let (hi, lo) = ((salt >> 64) as u64, salt as u64);
    assert(((hi >> 56u32) & 0xff) as u8 == ((salt >> 120u32) & 0xff) as u8 && ((hi >> 48u32)
        & 0xff) as u8 == ((salt >> 112u32) & 0xff) as u8 && ((hi >> 40u32) & 0xff) as u8 == ((salt
        >> 104u32) & 0xff) as u8 && ((hi >> 32u32) & 0xff) as u8 == ((salt >> 96u32) & 0xff) as u8
        && ((hi >> 24u32) & 0xff) as u8 == ((salt >> 88u32) & 0xff) as u8 && ((hi >> 16u32)
        & 0xff) as u8 == ((salt >> 80u32) & 0xff) as u8 && ((hi >> 8u32) & 0xff) as u8 == ((salt
        >> 72u32) & 0xff) as u8 && ((hi >> 0u32) & 0xff) as u8 == ((salt >> 64u32) & 0xff) as u8)
        by (bit_vector)
        requires
            hi == (salt >> 64) as u64,
    ;
    assert(((lo >> 56u32) & 0xff) as u8 == ((salt >> 56u32) & 0xff) as u8 && ((lo >> 48u32)
        & 0xff) as u8 == ((salt >> 48u32) & 0xff) as u8 && ((lo >> 40u32) & 0xff) as u8 == ((salt
        >> 40u32) & 0xff) as u8 && ((lo >> 32u32) & 0xff) as u8 == ((salt >> 32u32) & 0xff) as u8
        && ((lo >> 24u32) & 0xff) as u8 == ((salt >> 24u32) & 0xff) as u8 && ((lo >> 16u32)
        & 0xff) as u8 == ((salt >> 16u32) & 0xff) as u8 && ((lo >> 8u32) & 0xff) as u8 == ((salt
        >> 8u32) & 0xff) as u8 && ((lo >> 0u32) & 0xff) as u8 == ((salt >> 0u32) & 0xff) as u8)
        by (bit_vector)
        requires
            lo == salt as u64,
    ;
}

/// Writing the salt into the template gives the state that absorbs the preimage.
pub proof fn template_takes_any_salt(deployer: Seq<u8>, salt: u128)
    requires
        deployer.len() == 20,
    ensures
        salted(template_of(deployer), salt) == keccak::absorbed(b20::preimage(deployer, salt)),
{
    let pre = b20::preimage(deployer, salt);
    let zero = b20::preimage(deployer, 0);
    let block = keccak::padded_block(pre);
    salt_lane_bytes(salt);
    assert(zero.len() == 64 && pre.len() == 64);
    assert(forall|i: int| 0 <= i < 48 ==> zero[i] == pre[i]);
    assert forall|i: int| 0 <= i < 25 implies #[trigger] salted(template_of(deployer), salt)[i]
        == keccak::absorbed(pre)[i] by {
        if i == 6 {
            assert(forall|k: int|
                48 <= k < 56 ==> block[k] == ((salt >> ((8 * (63 - k)) as u32)) & 0xff) as u8);
        } else if i == 7 {
            assert(forall|k: int|
                56 <= k < 64 ==> block[k] == ((salt >> ((8 * (63 - k)) as u32)) & 0xff) as u8);
        } else if i < 17 {
            assert(forall|k: int|
                8 * i <= k < 8 * i + 8 ==> block[k] == keccak::padded_block(zero)[k]);
        }
    }
    assert(salted(template_of(deployer), salt) =~= keccak::absorbed(pre));
}

/// The bytes of a lane put together are the bytes it was put together from.
proof fn lane_bytes_come_back(b0: u8, b1: u8, b2: u8, b3: u8, b4: u8, b5: u8, b6: u8, b7: u8)
    ensures
        ({
            let lane = keccak::lane_of(b0, b1, b2, b3, b4, b5, b6, b7);
            &&& keccak::lane_byte(lane, 0) == b0
            &&& keccak::lane_byte(lane, 1) == b1
            &&& keccak::lane_byte(lane, 2) == b2
            &&& keccak::lane_byte(lane, 3) == b3
            &&& keccak::lane_byte(lane, 4) == b4
            &&& keccak::lane_byte(lane, 5) == b5
            &&& keccak::lane_byte(lane, 6) == b6
            &&& keccak::lane_byte(lane, 7) == b7
        }),
{
    let lane = keccak::lane_of(b0, b1, b2, b3, b4, b5, b6, b7);
    assert(((lane >> 0u32) & 0xff) as u8 == b0 && ((lane >> 8u32) & 0xff) as u8 == b1 && ((lane
        >> 16u32) & 0xff) as u8 == b2 && ((lane >> 24u32) & 0xff) as u8 == b3 && ((lane >> 32u32)
        & 0xff) as u8 == b4 && ((lane >> 40u32) & 0xff) as u8 == b5 && ((lane >> 48u32) & 0xff) as u8
        == b6 && ((lane >> 56u32) & 0xff) as u8 == b7) by (bit_vector)
        requires
            lane == keccak::lane_of(b0, b1, b2, b3, b4, b5, b6, b7),
    ;
}

/// The bytes of a swapped word are those of the word, in reverse order.
proof fn swapped_bytes(x: u64)
    ensures
        forall|k: int|
            0 <= k < 8 ==> #[trigger] keccak::lane_byte(swapped(x), k) == keccak::lane_byte(
                x,
                7 - k,
            ),
{
    lane_bytes_come_back(
        keccak::lane_byte(x, 7),
        keccak::lane_byte(x, 6),
        keccak::lane_byte(x, 5),
        keccak::lane_byte(x, 4),
        keccak::lane_byte(x, 3),
        keccak::lane_byte(x, 2),
        keccak::lane_byte(x, 1),
        keccak::lane_byte(x, 0),
    );
}

/// The big-endian bytes of a window are the first bytes of the state.
pub proof fn window_bytes(st: Seq<u64>)
    ensures
        forall|k: int|
            0 <= k < 16 ==> #[trigger] b20::be_bytes(window_of(st))[k] == keccak::lane_byte(
                st[k / 8],
                k % 8,
            ),
{
    let (a, b, w) = (st[0], st[1], window_of(st));
    let (sa, sb) = (swapped(a), swapped(b));
    swapped_bytes(a);
    swapped_bytes(b);
    assert(((w >> 120u32) & 0xff) as u8 == ((sa >> 56u32) & 0xff) as u8
        && ((w >> 112u32) & 0xff) as u8 == ((sa >> 48u32) & 0xff) as u8
        && ((w >> 104u32) & 0xff) as u8 == ((sa >> 40u32) & 0xff) as u8
        && ((w >> 96u32) & 0xff) as u8 == ((sa >> 32u32) & 0xff) as u8
        && ((w >> 88u32) & 0xff) as u8 == ((sa >> 24u32) & 0xff) as u8
        && ((w >> 80u32) & 0xff) as u8 == ((sa >> 16u32) & 0xff) as u8
        && ((w >> 72u32) & 0xff) as u8 == ((sa >> 8u32) & 0xff) as u8
        && ((w >> 64u32) & 0xff) as u8 == ((sa >> 0u32) & 0xff) as u8) by (bit_vector)
        requires
            w == ((sa as u128) << 64) | (sb as u128),
    ;
    assert(((w >> 56u32) & 0xff) as u8 == ((sb >> 56u32) & 0xff) as u8
        && ((w >> 48u32) & 0xff) as u8 == ((sb >> 48u32) & 0xff) as u8
        && ((w >> 40u32) & 0xff) as u8 == ((sb >> 40u32) & 0xff) as u8
        && ((w >> 32u32) & 0xff) as u8 == ((sb >> 32u32) & 0xff) as u8
        && ((w >> 24u32) & 0xff) as u8 == ((sb >> 24u32) & 0xff) as u8
        && ((w >> 16u32) & 0xff) as u8 == ((sb >> 16u32) & 0xff) as u8
        && ((w >> 8u32) & 0xff) as u8 == ((sb >> 8u32) & 0xff) as u8
        && ((w >> 0u32) & 0xff) as u8 == ((sb >> 0u32) & 0xff) as u8) by (bit_vector)
        requires
            w == ((sa as u128) << 64) | (sb as u128),
    ;
    assert forall|k: int| 0 <= k < 16 implies #[trigger] b20::be_bytes(w)[k] == keccak::lane_byte(
        st[k / 8],
        k % 8,
    ) by {
        let byte = ((w >> ((8 * (15 - k)) as u32)) & 0xff) as u8;
        assert(b20::be_bytes(w)[k] == byte);
        if k < 8 {
            assert(k / 8 == 0 && k % 8 == k);
            assert(byte == keccak::lane_byte(sa, 7 - k));
        } else {
            assert(k / 8 == 1 && k % 8 == k - 8);
            assert(byte == keccak::lane_byte(sb, 15 - k));
        }
    }
}

/// The window of the salted template, permuted, is the front of the digest.
pub proof fn window_is_the_digest_front(deployer: Seq<u8>, salt: u128)
    requires
        deployer.len() == 20,
    ensures
        b20::be_bytes(tail_window(deployer, salt))
            == keccak::digest(b20::preimage(deployer, salt)).take(16),
{
    let st = keccak::keccak_f(salted(template_of(deployer), salt));
    template_takes_any_salt(deployer, salt);
    keccak::digest_of_one_block(b20::preimage(deployer, salt));
    window_bytes(st);
    assert(b20::be_bytes(window_of(st)) =~= keccak::digest(
        b20::preimage(deployer, salt),
    ).take(16));
}

/// Per-deployer keccak state template.
pub struct TailKernel {
    /// Lanes 0..8 hold the padded preimage (salt lanes 6 and 7 left zero),
    /// lane 8 is the 0x01 domain pad, lane 16 carries the final 0x80.
    template: [u64; 25],
}

/// The deployer whose preimage a template holds: bytes 12 to 31 of its lanes.
pub open spec fn template_deployer(template: Seq<u64>) -> Seq<u8> {
    Seq::new(20, |i: int| keccak::lane_byte(template[(12 + i) / 8], (12 + i) % 8))
}

/// A template holds the deployer it was made for.
proof fn template_names_its_deployer(deployer: Seq<u8>)
    requires
        deployer.len() == 20,
    ensures
        template_deployer(template_of(deployer)) == deployer,
{
    let pre = b20::preimage(deployer, 0);
    let block = keccak::padded_block(pre);
    assert forall|i: int| 0 <= i < 20 implies #[trigger] template_deployer(
        template_of(deployer),
    )[i] == deployer[i] by {
        let l = (12 + i) / 8;
        assert(1 <= l < 4);
        lane_bytes_come_back(
            block[8 * l],
            block[8 * l + 1],
            block[8 * l + 2],
            block[8 * l + 3],
            block[8 * l + 4],
            block[8 * l + 5],
            block[8 * l + 6],
            block[8 * l + 7],
        );
        assert(12 + i == 8 * l + (12 + i) % 8);
        assert(block[12 + i] == deployer[i]);
    }
    assert(template_deployer(template_of(deployer)) =~= deployer);
}

impl TailKernel {
    /// The deployer that the kernel hashes for.
    pub closed spec fn deployer(&self) -> Seq<u8> {
        template_deployer(self.template@)
    }

    #[verifier::type_invariant]
    spec fn made_for_a_deployer(&self) -> bool {
        self.template@ == template_of(self.deployer())
    }

    /// A kernel for the salts of one deployer.
    pub fn new(deployer: &[u8; 20]) -> (kernel: TailKernel)
        ensures
            kernel.deployer() == deployer@,
    {
        let pre: [u8; 64] = b20::preimage_bytes(deployer, 0);
        let ghost block = keccak::padded_block(pre@);
        let mut template: [u64; 25] = [0u64; 25];
        let mut i: usize = 0;
        while i < 8
            invariant
                i <= 8,
                block == keccak::padded_block(pre@),
                forall|k: int| 0 <= k < i ==> template@[k] == keccak::block_lane(block, k),
                forall|k: int| 8 <= k < 25 ==> template@[k] == 0,
            decreases 8 - i,
        {
            template[i] = lane(&pre, 8 * i);
            i = i + 1;
        }
        template[8] = 0x01;  // keccak pad: 0x01 at byte 64
        template[16] = 0x8000_0000_0000_0000;  // final pad bit: 0x80 at byte 135
        proof {
            assert(keccak::lane_of(0, 0, 0, 0, 0, 0, 0, 0) == 0 && keccak::lane_of(
                1,
                0,
                0,
                0,
                0,
                0,
                0,
                0,
            ) == 1 && keccak::lane_of(0, 0, 0, 0, 0, 0, 0, 0x80) == 0x8000_0000_0000_0000)
                by (bit_vector);
            assert forall|k: int| 0 <= k < 25 implies template@[k] == template_of(deployer@)[k] by {
                if 8 <= k < 17 {
                    assert(block[64] == 1 && block[135] == 0x80);
                    assert(forall|j: int| 64 < j < 135 ==> #[trigger] block[j] == 0);
                }
            }
            assert(template@ =~= template_of(deployer@));
            template_names_its_deployer(deployer@);
        }
        TailKernel { template }
    }

    /// The state template: the preimage of the deployer and the zero salt, absorbed.
    pub fn template(&self) -> (t: &[u64; 25])
        ensures
            t@ == template_of(self.deployer()),
            self.deployer().len() == 20,
    {
        proof {
            use_type_invariant(self);
        }
        &self.template
    }

    /// Salt lanes for the state: the salt is a big-endian u128 in bytes 48..64
    /// of the preimage, i.e. lanes 6 and 7 in little-endian lane order.
    pub fn salt_lanes(salt: u128) -> (lanes: (u64, u64))
        ensures
            lanes == (swapped((salt >> 64) as u64), swapped(salt as u64)),
    {
        (swap_bytes((salt >> 64) as u64), swap_bytes(salt as u64))
    }

    /// First 16 digest bytes as a big-endian u128; bits 127..=56 are the
    /// 18-nibble grindable window.
    pub fn window(&self, salt: u128) -> (w: u128)
        ensures
            self.deployer().len() == 20,
            w == tail_window(self.deployer(), salt),
            b20::be_bytes(w) == keccak::digest(b20::preimage(self.deployer(), salt)).take(16),
    {
        proof {
            use_type_invariant(self);
        }
        let mut st: [u64; 25] = self.template;
        let lanes: (u64, u64) = Self::salt_lanes(salt);
        st[6] = lanes.0;
        st[7] = lanes.1;
        f1600(&mut st);
        proof {
            window_is_the_digest_front(self.deployer(), salt);
        }
        ((swap_bytes(st[0]) as u128) << 64) | swap_bytes(st[1]) as u128
    }
}

/// Eight bytes from `at` on, as a lane.
fn lane(pre: &[u8; 64], at: usize) -> (l: u64)
    requires
        at <= 56,
    ensures
        l == keccak::lane_of(
            pre@[at as int],
            pre@[at + 1],
            pre@[at + 2],
            pre@[at + 3],
            pre@[at + 4],
            pre@[at + 5],
            pre@[at + 6],
            pre@[at + 7],
        ),
{
    (pre[at] as u64) | (pre[at + 1] as u64) << 8 | (pre[at + 2] as u64) << 16 | (pre[at + 3] as u64)
        << 24 | (pre[at + 4] as u64) << 32 | (pre[at + 5] as u64) << 40 | (pre[at + 6] as u64) << 48
        | (pre[at + 7] as u64) << 56
}

/// The top nine bytes of a window are the tail of the token's address.
pub proof fn window_top_bytes_are_the_tail(deployer: Seq<u8>, salt: u128)
    requires
        deployer.len() == 20,
    ensures
        b20::be_bytes(tail_window(deployer, salt)).take(9) == b20::tail_of(deployer, salt),
{
    window_is_the_digest_front(deployer, salt);
    assert(b20::be_bytes(tail_window(deployer, salt)).take(9) =~= b20::tail_of(deployer, salt));
}

} // verus!
