//! Keccak-f\[1600\] takes different states to different states: each of its steps does.

use crate::keccak;
use crate::kernel;
use crate::kernel::PI_DST;
use vstd::prelude::*;

verus! {

/// Five lanes in a ring, each of which is the one before it, and the one behind it
/// rotated by `n`.
spec fn is_ring(v: u64, w: u64, x: u64, y: u64, z: u64, n: u32) -> bool {
    &&& v == z ^ keccak::rotl(w, n)
    &&& w == v ^ keccak::rotl(x, n)
    &&& x == w ^ keccak::rotl(y, n)
    &&& y == x ^ keccak::rotl(z, n)
    &&& z == y ^ keccak::rotl(v, n)
}

/// A rotation goes through exclusive or.
proof fn rotation_spreads(x: u64, y: u64, n: u32)
    requires
        n < 64,
    ensures
        keccak::rotl(x ^ y, n) == keccak::rotl(x, n) ^ keccak::rotl(y, n),
{
    if n > 0 {
        let m: u32 = (64 - n) as u32;
        assert(((x ^ y) << n) | ((x ^ y) >> m) == ((x << n) | (x >> m)) ^ ((y << n) | (y >> m)))
            by (bit_vector)
            requires
                0 < n < 64,
                m == 64 - n,
        ;
    }
}

/// Rotating twice by a power of two rotates by the next one; by 32, not at all.
proof fn rotations_double(x: u64)
    ensures
        keccak::rotl(keccak::rotl(x, 1), 1) == keccak::rotl(x, 2),
        keccak::rotl(keccak::rotl(x, 2), 2) == keccak::rotl(x, 4),
        keccak::rotl(keccak::rotl(x, 4), 4) == keccak::rotl(x, 8),
        keccak::rotl(keccak::rotl(x, 8), 8) == keccak::rotl(x, 16),
        keccak::rotl(keccak::rotl(x, 16), 16) == keccak::rotl(x, 32),
        keccak::rotl(keccak::rotl(x, 32), 32) == keccak::rotl(x, 0),
{
    let r1 = (x << 1u32) | (x >> 63u32);
    let r2 = (x << 2u32) | (x >> 62u32);
    let r4 = (x << 4u32) | (x >> 60u32);
    let r8 = (x << 8u32) | (x >> 56u32);
    let r16 = (x << 16u32) | (x >> 48u32);
    let r32 = (x << 32u32) | (x >> 32u32);
    assert((r1 << 1u32) | (r1 >> 63u32) == r2 && (r2 << 2u32) | (r2 >> 62u32) == r4 && (r4 << 4u32)
        | (r4 >> 60u32) == r8 && (r8 << 8u32) | (r8 >> 56u32) == r16 && (r16 << 16u32) | (r16
        >> 48u32) == r32 && (r32 << 32u32) | (r32 >> 32u32) == x) by (bit_vector)
        requires
            r1 == (x << 1u32) | (x >> 63u32),
            r2 == (x << 2u32) | (x >> 62u32),
            r4 == (x << 4u32) | (x >> 60u32),
            r8 == (x << 8u32) | (x >> 56u32),
            r16 == (x << 16u32) | (x >> 48u32),
            r32 == (x << 32u32) | (x >> 32u32),
    ;
}

/// A lane's equation, with those of the two lanes in it put in: the mixed terms cancel.
proof fn mixed_terms_cancel(x: u64, xa: u64, xb: u64, aa: u64, ab: u64, bb: u64, n: u32)
    requires
        n == 1 || n == 2 || n == 4 || n == 8 || n == 16 || n == 32,
        x == xa ^ keccak::rotl(xb, n),
        xa == aa ^ keccak::rotl(ab, n),
        xb == ab ^ keccak::rotl(bb, n),
    ensures
        x == aa ^ keccak::rotl(bb, (2 * n) as u32 % 64),
{
    rotation_spreads(ab, keccak::rotl(bb, n), n);
    rotations_double(bb);
    let (p, q) = (keccak::rotl(ab, n), keccak::rotl(keccak::rotl(bb, n), n));
    assert((aa ^ p) ^ (p ^ q) == aa ^ q) by (bit_vector);
}

/// The equations put into themselves: every second lane makes a ring too.
proof fn ring_doubles(v: u64, w: u64, x: u64, y: u64, z: u64, n: u32)
    requires
        n == 1 || n == 2 || n == 4 || n == 8 || n == 16 || n == 32,
        is_ring(v, w, x, y, z, n),
    ensures
        is_ring(v, x, z, w, y, (2 * n) as u32 % 64),
{
    mixed_terms_cancel(v, z, w, y, v, x, n);
    mixed_terms_cancel(w, v, x, z, w, y, n);
    mixed_terms_cancel(x, w, y, v, x, z, n);
    mixed_terms_cancel(y, x, z, w, y, v, n);
    mixed_terms_cancel(z, y, v, x, z, w, n);
}

/// Only zero lanes make a ring with a rotation by one.
proof fn ring_is_zero(v: u64, w: u64, x: u64, y: u64, z: u64)
    requires
        is_ring(v, w, x, y, z, 1),
    ensures
        v == 0 && w == 0 && x == 0 && y == 0 && z == 0,
{
    ring_doubles(v, w, x, y, z, 1);
    ring_doubles(v, x, z, w, y, 2);
    ring_doubles(v, z, y, x, w, 4);
    ring_doubles(v, y, w, z, x, 8);
    ring_doubles(v, w, x, y, z, 16);
    ring_doubles(v, x, z, w, y, 32);
    // each lane is now its two neighbours in the ring, unrotated
    assert(v == 0 && w == 0 && x == 0 && y == 0 && z == 0) by (bit_vector)
        requires
            v == w ^ z,
            z == v ^ y,
            y == z ^ x,
            x == y ^ w,
            w == x ^ v,
    ;
}

/// What two states differ by in what theta adds to column `x`.
spec fn mix_gap(a: Seq<u64>, b: Seq<u64>, x: int) -> u64 {
    keccak::theta_mix(a, x) ^ keccak::theta_mix(b, x)
}

/// Where theta takes two states to the same, they differ in each lane by what they
/// differ by in the mix of its column.
proof fn lane_gap(a: Seq<u64>, b: Seq<u64>, i: int)
    requires
        keccak::theta(a) == keccak::theta(b),
        0 <= i < 25,
    ensures
        a[i] ^ b[i] == mix_gap(a, b, i % 5),
{
    reveal(keccak::theta);
    let (p, q) = (a[i], b[i]);
    let (m, k) = (keccak::theta_mix(a, i % 5), keccak::theta_mix(b, i % 5));
    assert(keccak::theta(a)[i] == p ^ m);
    assert(keccak::theta(b)[i] == q ^ k);
    assert(p ^ q == m ^ k) by (bit_vector)
        requires
            p ^ m == q ^ k,
    ;
}

/// And so they do in the parity of each column, which has five lanes.
proof fn column_gap(a: Seq<u64>, b: Seq<u64>, x: int)
    requires
        keccak::theta(a) == keccak::theta(b),
        0 <= x < 5,
    ensures
        keccak::column(a, x) ^ keccak::column(b, x) == mix_gap(a, b, x),
{
    lane_gap(a, b, x);
    lane_gap(a, b, x + 5);
    lane_gap(a, b, x + 10);
    lane_gap(a, b, x + 15);
    lane_gap(a, b, x + 20);
    let (a0, a1, a2, a3, a4) = (a[x], a[x + 5], a[x + 10], a[x + 15], a[x + 20]);
    let (b0, b1, b2, b3, b4) = (b[x], b[x + 5], b[x + 10], b[x + 15], b[x + 20]);
    let d = mix_gap(a, b, x);
    assert((a0 ^ a1 ^ a2 ^ a3 ^ a4) ^ (b0 ^ b1 ^ b2 ^ b3 ^ b4) == d) by (bit_vector)
        requires
            a0 ^ b0 == d,
            a1 ^ b1 == d,
            a2 ^ b2 == d,
            a3 ^ b3 == d,
            a4 ^ b4 == d,
    ;
}

/// The gaps of the mixes make a ring.
proof fn gap_equation(a: Seq<u64>, b: Seq<u64>, x: int, before: int, behind: int)
    requires
        keccak::theta(a) == keccak::theta(b),
        0 <= x < 5,
        before == (x + 4) % 5,
        behind == (x + 1) % 5,
    ensures
        mix_gap(a, b, x) == mix_gap(a, b, before) ^ keccak::rotl(mix_gap(a, b, behind), 1),
{
    column_gap(a, b, before);
    column_gap(a, b, behind);
    let (ca, cb) = (keccak::column(a, before), keccak::column(b, before));
    let (da, db) = (keccak::column(a, behind), keccak::column(b, behind));
    rotation_spreads(da, db, 1);
    let (ra, rb) = (keccak::rotl(da, 1), keccak::rotl(db, 1));
    assert((ca ^ ra) ^ (cb ^ rb) == (ca ^ cb) ^ (ra ^ rb)) by (bit_vector);
}

/// Theta takes different states to different states.
proof fn theta_is_one_to_one(a: Seq<u64>, b: Seq<u64>)
    requires
        a.len() == 25,
        b.len() == 25,
        keccak::theta(a) == keccak::theta(b),
    ensures
        a == b,
{
    gap_equation(a, b, 0, 4, 1);
    gap_equation(a, b, 1, 0, 2);
    gap_equation(a, b, 2, 1, 3);
    gap_equation(a, b, 3, 2, 4);
    gap_equation(a, b, 4, 3, 0);
    ring_is_zero(
        mix_gap(a, b, 0),
        mix_gap(a, b, 1),
        mix_gap(a, b, 2),
        mix_gap(a, b, 3),
        mix_gap(a, b, 4),
    );
    assert forall|i: int| 0 <= i < 25 implies a[i] == b[i] by {
        lane_gap(a, b, i);
        let (p, q) = (a[i], b[i]);
        assert(p == q) by (bit_vector)
            requires
                p ^ q == 0,
        ;
    }
    assert(a =~= b);
}

/// Rho and pi take different states to different states.
proof fn rho_pi_is_one_to_one(a: Seq<u64>, b: Seq<u64>)
    requires
        a.len() == 25,
        b.len() == 25,
        keccak::rho_pi(a) == keccak::rho_pi(b),
    ensures
        a == b,
{
    reveal(keccak::rho_pi);
    kernel::pi_tables_agree();
    assert forall|i: int| 0 <= i < 25 implies a[i] == b[i] by {
        let k = PI_DST[i] as int;
        assert(keccak::pi_source(k) == i);
        assert(keccak::rho_pi(a)[k] == keccak::rotl(a[i], keccak::RHO[i]));
        assert(keccak::rho_pi(b)[k] == keccak::rotl(b[i], keccak::RHO[i]));
        assert(keccak::RHO[i] < 64);
        rotation_is_one_to_one(a[i], b[i], keccak::RHO[i]);
    }
    assert(a =~= b);
}

/// A rotation takes different lanes to different lanes.
proof fn rotation_is_one_to_one(p: u64, q: u64, n: u32)
    requires
        n < 64,
        keccak::rotl(p, n) == keccak::rotl(q, n),
    ensures
        p == q,
{
    if n > 0 {
        let m: u32 = (64 - n) as u32;
        assert(p == q) by (bit_vector)
            requires
                0 < n < 64,
                m == 64 - n,
                (p << n) | (p >> m) == (q << n) | (q >> m),
        ;
    }
}

/// Chi takes different rows to different rows.
proof fn row_is_one_to_one(
    a0: u64,
    a1: u64,
    a2: u64,
    a3: u64,
    a4: u64,
    b0: u64,
    b1: u64,
    b2: u64,
    b3: u64,
    b4: u64,
)
    by (bit_vector)
    requires
        a0 ^ (!a1 & a2) == b0 ^ (!b1 & b2),
        a1 ^ (!a2 & a3) == b1 ^ (!b2 & b3),
        a2 ^ (!a3 & a4) == b2 ^ (!b3 & b4),
        a3 ^ (!a4 & a0) == b3 ^ (!b4 & b0),
        a4 ^ (!a0 & a1) == b4 ^ (!b0 & b1),
    ensures
        a0 == b0,
        a1 == b1,
        a2 == b2,
        a3 == b3,
        a4 == b4,
{
}

/// Chi takes different states to different states.
proof fn chi_is_one_to_one(a: Seq<u64>, b: Seq<u64>)
    requires
        a.len() == 25,
        b.len() == 25,
        keccak::chi(a) == keccak::chi(b),
    ensures
        a == b,
{
    reveal(keccak::chi);
    assert forall|y: int| 0 <= y < 5 implies a[5 * y] == b[5 * y] && a[5 * y + 1] == b[5 * y + 1]
        && a[5 * y + 2] == b[5 * y + 2] && a[5 * y + 3] == b[5 * y + 3] && #[trigger] a[5 * y + 4]
        == b[5 * y + 4] by {
        let (ca, cb) = (keccak::chi(a), keccak::chi(b));
        assert(ca[5 * y] == cb[5 * y]);
        assert(ca[5 * y + 1] == cb[5 * y + 1]);
        assert(ca[5 * y + 2] == cb[5 * y + 2]);
        assert(ca[5 * y + 3] == cb[5 * y + 3]);
        assert(ca[5 * y + 4] == cb[5 * y + 4]);
        row_is_one_to_one(
            a[5 * y],
            a[5 * y + 1],
            a[5 * y + 2],
            a[5 * y + 3],
            a[5 * y + 4],
            b[5 * y],
            b[5 * y + 1],
            b[5 * y + 2],
            b[5 * y + 3],
            b[5 * y + 4],
        );
    }
    assert forall|i: int| 0 <= i < 25 implies a[i] == b[i] by {
        let y = i / 5;
        assert(a[5 * y + 4] == b[5 * y + 4]);
        assert(i == 5 * y || i == 5 * y + 1 || i == 5 * y + 2 || i == 5 * y + 3 || i == 5 * y + 4);
    }
    assert(a =~= b);
}

/// A round takes different states to different states.
proof fn round_is_one_to_one(a: Seq<u64>, b: Seq<u64>, r: int)
    requires
        a.len() == 25,
        b.len() == 25,
        keccak::keccak_round(a, r) == keccak::keccak_round(b, r),
    ensures
        a == b,
{
    let (pa, pb) = (keccak::rho_pi(keccak::theta(a)), keccak::rho_pi(keccak::theta(b)));
    let (ca, cb) = (keccak::chi(pa), keccak::chi(pb));
    reveal(keccak::theta);
    reveal(keccak::rho_pi);
    reveal(keccak::chi);
    assert(keccak::theta(a).len() == 25 && keccak::theta(b).len() == 25);
    assert(pa.len() == 25 && pb.len() == 25);
    assert(ca.len() == 25 && cb.len() == 25);
    let (p, q, c) = (ca[0], cb[0], keccak::RC[r]);
    let (ia, ib) = (keccak::iota(ca, r), keccak::iota(cb, r));
    assert(ia[0] == p ^ c && ib[0] == q ^ c);
    assert(p == q) by (bit_vector)
        requires
            p ^ c == q ^ c,
    ;
    assert forall|i: int| 0 <= i < 25 implies ca[i] == cb[i] by {
        if i > 0 {
            assert(ia[i] == ca[i] && ib[i] == cb[i]);
        }
    }
    assert(ca =~= cb);
    chi_is_one_to_one(pa, pb);
    rho_pi_is_one_to_one(keccak::theta(a), keccak::theta(b));
    theta_is_one_to_one(a, b);
}

/// A state stays one of 25 lanes.
proof fn rounds_keep_the_shape(a: Seq<u64>, n: nat)
    requires
        a.len() == 25,
    ensures
        keccak::keccak_rounds(a, n).len() == 25,
    decreases n,
{
    reveal(keccak::chi);
    if n > 0 {
        rounds_keep_the_shape(a, (n - 1) as nat);
    }
}

proof fn rounds_are_one_to_one(a: Seq<u64>, b: Seq<u64>, n: nat)
    requires
        a.len() == 25,
        b.len() == 25,
        keccak::keccak_rounds(a, n) == keccak::keccak_rounds(b, n),
    ensures
        a == b,
    decreases n,
{
    if n > 0 {
        let m = (n - 1) as nat;
        rounds_keep_the_shape(a, m);
        rounds_keep_the_shape(b, m);
        round_is_one_to_one(keccak::keccak_rounds(a, m), keccak::keccak_rounds(b, m), n - 1);
        rounds_are_one_to_one(a, b, m);
    }
}

/// Keccak-f\[1600\] is one to one, so two states that `f1600` permutes come out the
/// same exactly if they went in the same.
pub proof fn keccak_f_is_one_to_one(a: Seq<u64>, b: Seq<u64>)
    requires
        a.len() == 25,
        b.len() == 25,
    ensures
        keccak::keccak_f(a) == keccak::keccak_f(b) <==> a == b,
        keccak::keccak_f(a).len() == 25,
{
    rounds_keep_the_shape(a, 24);
    if keccak::keccak_f(a) == keccak::keccak_f(b) {
        rounds_are_one_to_one(a, b, 24);
    }
}

} // verus!
