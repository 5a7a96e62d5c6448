//! Two permutations side by side: every lane of the state is a pair of words,
//! one for each of two hashes, and every step works on both words at once.

use crate::b20;
use crate::keccak;
use crate::kernel;
use crate::kernel::{rotate_left, swap_bytes, TailKernel, PI_DST};
use vstd::prelude::*;

verus! {

/// A word of hash A and a word of hash B.
#[derive(Clone, Copy, PartialEq, Eq, Structural, Debug)]
pub struct Pair {
    pub a: u64,
    pub b: u64,
}

/// The state of hash A.
pub open spec fn side_a(st: Seq<Pair>) -> Seq<u64> {
    Seq::new(st.len(), |i: int| st[i].a)
}

/// The state of hash B.
pub open spec fn side_b(st: Seq<Pair>) -> Seq<u64> {
    Seq::new(st.len(), |i: int| st[i].b)
}

/// The same word on both sides.
fn both(word: u64) -> (p: Pair)
    ensures
        p.a == word,
        p.b == word,
{
    Pair { a: word, b: word }
}

/// Exclusive or.
fn eor(x: Pair, y: Pair) -> (p: Pair)
    ensures
        p.a == x.a ^ y.a,
        p.b == x.b ^ y.b,
{
    Pair { a: x.a ^ y.a, b: x.b ^ y.b }
}

/// Exclusive or of three words.
fn eor3(x: Pair, y: Pair, z: Pair) -> (p: Pair)
    ensures
        p.a == x.a ^ y.a ^ z.a,
        p.b == x.b ^ y.b ^ z.b,
{
    Pair { a: x.a ^ y.a ^ z.a, b: x.b ^ y.b ^ z.b }
}

/// Exclusive or with a word rotated left by one.
fn rax1(x: Pair, y: Pair) -> (p: Pair)
    ensures
        p.a == x.a ^ keccak::rotl(y.a, 1),
        p.b == x.b ^ keccak::rotl(y.b, 1),
{
    Pair { a: x.a ^ rotate_left(y.a, 1), b: x.b ^ rotate_left(y.b, 1) }
}

/// Exclusive or, rotated left by `n`.
fn xar(x: Pair, y: Pair, n: u32) -> (p: Pair)
    requires
        n < 64,
    ensures
        p.a == keccak::rotl(x.a ^ y.a, n),
        p.b == keccak::rotl(x.b ^ y.b, n),
{
    Pair { a: rotate_left(x.a ^ y.a, n), b: rotate_left(x.b ^ y.b, n) }
}

/// Bit clear and exclusive or: `x ^ (y & !z)`.
fn bcax(x: Pair, y: Pair, z: Pair) -> (p: Pair)
    ensures
        p.a == keccak::chi_lane(x.a, z.a, y.a),
        p.b == keccak::chi_lane(x.b, z.b, y.b),
{
    proof {
        clear_is_mask(x.a, y.a, z.a);
        clear_is_mask(x.b, y.b, z.b);
    }
    Pair { a: x.a ^ (y.a & !z.a), b: x.b ^ (y.b & !z.b) }
}

proof fn clear_is_mask(x: u64, y: u64, z: u64)
    by (bit_vector)
    ensures
        x ^ (y & !z) == x ^ (!z & y),
{
}

proof fn parities_regroup(v: u64, w: u64, x: u64, y: u64, z: u64)
    by (bit_vector)
    ensures
        v ^ w ^ (x ^ y ^ z) == v ^ w ^ x ^ y ^ z,
{
}

/// Theta's contribution to each column.
fn column_mixes(a: &[Pair; 25]) -> (d: [Pair; 5])
    ensures
        forall|x: int|
            0 <= x < 5 ==> (#[trigger] d@[x]).a == keccak::theta_mix(side_a(a@), x) && d@[x].b
                == keccak::theta_mix(side_b(a@), x),
{
    let zero: Pair = both(0);
    let mut c: [Pair; 5] = [zero; 5];
    let mut x: usize = 0;
    while x < 5
        invariant
            x <= 5,
            forall|k: int|
                0 <= k < x ==> (#[trigger] c@[k]).a == keccak::column(side_a(a@), k) && c@[k].b
                    == keccak::column(side_b(a@), k),
        decreases 5 - x,
    {
        proof {
            parities_regroup(
                a@[x as int].a,
                a@[x + 5].a,
                a@[x + 10].a,
                a@[x + 15].a,
                a@[x + 20].a,
            );
            parities_regroup(
                a@[x as int].b,
                a@[x + 5].b,
                a@[x + 10].b,
                a@[x + 15].b,
                a@[x + 20].b,
            );
        }
        c[x] = eor3(a[x], a[x + 5], eor3(a[x + 10], a[x + 15], a[x + 20]));
        x = x + 1;
    }
    let mut d: [Pair; 5] = [zero; 5];
    x = 0;
    while x < 5
        invariant
            x <= 5,
            forall|k: int|
                0 <= k < 5 ==> (#[trigger] c@[k]).a == keccak::column(side_a(a@), k) && c@[k].b
                    == keccak::column(side_b(a@), k),
            forall|k: int|
                0 <= k < x ==> (#[trigger] d@[k]).a == keccak::theta_mix(side_a(a@), k) && d@[k].b
                    == keccak::theta_mix(side_b(a@), k),
        decreases 5 - x,
    {
        d[x] = rax1(c[(x + 4) % 5], c[(x + 1) % 5]);
        x = x + 1;
    }
    d
}

/// Where theta, rho and pi take a lane to, and as what.
fn moved(lane: Pair, mix: Pair, i: usize) -> (r: (usize, Pair))
    requires
        i < 25,
    ensures
        r.0 == PI_DST[i as int],
        r.0 < 25,
        r.1.a == keccak::rotl(lane.a ^ mix.a, keccak::RHO[i as int]),
        r.1.b == keccak::rotl(lane.b ^ mix.b, keccak::RHO[i as int]),
{
    proof {
        kernel::pi_tables_agree();
    }
    (PI_DST[i], xar(lane, mix, keccak::RHO[i]))
}

/// Theta, rho and pi in one pass.
fn scatter(a: &[Pair; 25]) -> (b: [Pair; 25])
    ensures
        side_a(b@) == keccak::rho_pi(keccak::theta(side_a(a@))),
        side_b(b@) == keccak::rho_pi(keccak::theta(side_b(a@))),
{
    let d: [Pair; 5] = column_mixes(a);
    let mut b: [Pair; 25] = [both(0); 25];
    let ghost want = Seq::new(
        25,
        |k: int|
            Pair {
                a: keccak::rotl(a@[k].a ^ d@[k % 5].a, keccak::RHO[k]),
                b: keccak::rotl(a@[k].b ^ d@[k % 5].b, keccak::RHO[k]),
            },
    );
    let ghost dst = Seq::new(25, |k: int| PI_DST[k] as int);
    proof {
        kernel::pi_tables_agree();
        assert forall|j: int, k: int| 0 <= j < k < 25 implies #[trigger] dst[j] != #[trigger] dst[k] by {
            assert(PI_DST[j] != PI_DST[k]);
        }
    }
    let mut i: usize = 0;
    while i < 25
        invariant
            i <= 25,
            dst == Seq::new(25, |k: int| PI_DST[k] as int),
            forall|j: int, k: int| 0 <= j < k < 25 ==> #[trigger] dst[j] != #[trigger] dst[k],
            want == Seq::new(
                25,
                |k: int|
                    Pair {
                        a: keccak::rotl(a@[k].a ^ d@[k % 5].a, keccak::RHO[k]),
                        b: keccak::rotl(a@[k].b ^ d@[k % 5].b, keccak::RHO[k]),
                    },
            ),
            forall|k: int| 0 <= k < i ==> b@[#[trigger] dst[k]] == want[k],
        decreases 25 - i,
    {
        let m: (usize, Pair) = moved(a[i], d[i % 5], i);
        assert(m.1 == want[i as int]);
        assert(m.0 == dst[i as int]);
        b[m.0] = m.1;
        i = i + 1;
    }
    proof {
        assert forall|k: int| 0 <= k < 25 implies (#[trigger] b@[PI_DST[k] as int]).a
            == keccak::rotl(a@[k].a ^ d@[k % 5].a, keccak::RHO[k]) && b@[PI_DST[k] as int].b
            == keccak::rotl(a@[k].b ^ d@[k % 5].b, keccak::RHO[k]) by {
            assert(b@[dst[k]] == want[k]);
        }
        moved_lanes(a@, d@, b@);
    }
    b
}

/// Lanes that were mixed, rotated and moved are theta, rho and pi of both states.
proof fn moved_lanes(a: Seq<Pair>, d: Seq<Pair>, b: Seq<Pair>)
    requires
        a.len() == 25,
        b.len() == 25,
        forall|x: int|
            0 <= x < 5 ==> (#[trigger] d[x]).a == keccak::theta_mix(side_a(a), x) && d[x].b
                == keccak::theta_mix(side_b(a), x),
        forall|k: int|
            0 <= k < 25 ==> (#[trigger] b[PI_DST[k] as int]).a == keccak::rotl(
                a[k].a ^ d[k % 5].a,
                keccak::RHO[k],
            ) && b[PI_DST[k] as int].b == keccak::rotl(a[k].b ^ d[k % 5].b, keccak::RHO[k]),
    ensures
        side_a(b) == keccak::rho_pi(keccak::theta(side_a(a))),
        side_b(b) == keccak::rho_pi(keccak::theta(side_b(a))),
{
    reveal(keccak::theta);
    reveal(keccak::rho_pi);
    kernel::pi_tables_agree();
    let ta = keccak::theta(side_a(a));
    let tb = keccak::theta(side_b(a));
    assert forall|k: int| 0 <= k < 25 implies #[trigger] b[k].a == keccak::rho_pi(ta)[k] && b[k].b
        == keccak::rho_pi(tb)[k] by {
        let s = keccak::pi_source(k);
        assert(PI_DST[s] == k);
        assert(ta[s] == a[s].a ^ d[s % 5].a);
        assert(tb[s] == a[s].b ^ d[s % 5].b);
    }
    assert(side_a(b) =~= keccak::rho_pi(ta));
    assert(side_b(b) =~= keccak::rho_pi(tb));
}

/// Chi, row by row.
fn rows(b: &[Pair; 25]) -> (a: [Pair; 25])
    ensures
        side_a(a@) == keccak::chi(side_a(b@)),
        side_b(a@) == keccak::chi(side_b(b@)),
{
    reveal(keccak::chi);
    let mut a: [Pair; 25] = [both(0); 25];
    let ghost ca = keccak::chi(side_a(b@));
    let ghost cb = keccak::chi(side_b(b@));
    let mut y: usize = 0;
    while y < 5
        invariant
            y <= 5,
            ca == keccak::chi(side_a(b@)),
            cb == keccak::chi(side_b(b@)),
            forall|k: int| 0 <= k < 5 * y ==> (#[trigger] a@[k]).a == ca[k] && a@[k].b == cb[k],
        decreases 5 - y,
    {
        let mut x: usize = 0;
        while x < 5
            invariant
                x <= 5,
                y < 5,
                ca == keccak::chi(side_a(b@)),
                cb == keccak::chi(side_b(b@)),
                forall|k: int|
                    0 <= k < 5 * y + x ==> (#[trigger] a@[k]).a == ca[k] && a@[k].b == cb[k],
            decreases 5 - x,
        {
            reveal(keccak::chi);
            a[x + 5 * y] = bcax(b[x + 5 * y], b[(x + 2) % 5 + 5 * y], b[(x + 1) % 5 + 5 * y]);
            assert((x + 5 * y) % 5 == x && (x + 5 * y) / 5 == y);
            x = x + 1;
        }
        y = y + 1;
    }
    assert(side_a(a@) =~= ca);
    assert(side_b(a@) =~= cb);
    a
}

/// 2-way keccak-f1600: one word of each lane carries hash A, the other hash B.
pub fn f1600x2(a: &mut [Pair; 25])
    ensures
        side_a(final(a)@) == keccak::keccak_f(side_a(old(a)@)),
        side_b(final(a)@) == keccak::keccak_f(side_b(old(a)@)),
{
    let ghost sa = side_a(a@);
    let ghost sb = side_b(a@);
    let mut r: usize = 0;
    while r < 24
        invariant
            r <= 24,
            side_a(a@) == keccak::keccak_rounds(sa, r as nat),
            side_b(a@) == keccak::keccak_rounds(sb, r as nat),
        decreases 24 - r,
    {
        let b: [Pair; 25] = scatter(a);
        let mut c: [Pair; 25] = rows(&b);
        let ghost mixed = c@;
        c[0] = eor(c[0], both(keccak::RC[r]));
        proof {
            assert(side_a(c@) =~= keccak::iota(side_a(mixed), r as int));
            assert(side_b(c@) =~= keccak::iota(side_b(mixed), r as int));
        }
        *a = c;
        r = r + 1;
    }
}

/// The template on both sides, with a salt of its own on each.
fn load_state(template: &[u64; 25], salt_a: u128, salt_b: u128) -> (st: [Pair; 25])
    ensures
        side_a(st@) == kernel::salted(template@, salt_a),
        side_b(st@) == kernel::salted(template@, salt_b),
{
    let mut st: [Pair; 25] = [both(0); 25];
    let mut i: usize = 0;
    while i < 25
        invariant
            i <= 25,
            forall|k: int|
                0 <= k < i ==> (#[trigger] st@[k]).a == template@[k] && st@[k].b == template@[k],
        decreases 25 - i,
    {
        st[i] = both(template[i]);
        i = i + 1;
    }
    let la: (u64, u64) = TailKernel::salt_lanes(salt_a);
    let lb: (u64, u64) = TailKernel::salt_lanes(salt_b);
    st[6] = Pair { a: la.0, b: lb.0 };
    st[7] = Pair { a: la.1, b: lb.1 };
    assert(side_a(st@) =~= kernel::salted(template@, salt_a));
    assert(side_b(st@) =~= kernel::salted(template@, salt_b));
    st
}

/// The window of each side.
fn windows_of(st: &[Pair; 25]) -> (w: (u128, u128))
    ensures
        w.0 == kernel::window_of(side_a(st@)),
        w.1 == kernel::window_of(side_b(st@)),
{
    (
        ((swap_bytes(st[0].a) as u128) << 64) | swap_bytes(st[1].a) as u128,
        ((swap_bytes(st[0].b) as u128) << 64) | swap_bytes(st[1].b) as u128,
    )
}

/// The windows of two salts, out of one 2-way permutation of a template.
pub fn window2(template: &[u64; 25], salt_a: u128, salt_b: u128) -> (w: (u128, u128))
    ensures
        w.0 == kernel::window_of(keccak::keccak_f(kernel::salted(template@, salt_a))),
        w.1 == kernel::window_of(keccak::keccak_f(kernel::salted(template@, salt_b))),
{
    let mut st: [Pair; 25] = load_state(template, salt_a, salt_b);
    f1600x2(&mut st);
    windows_of(&st)
}

impl TailKernel {
    /// Two windows per call, out of one 2-way permutation.
    pub fn window2(&self, salt_a: u128, salt_b: u128) -> (w: (u128, u128))
        ensures
            w.0 == kernel::tail_window(self.deployer(), salt_a),
            w.1 == kernel::tail_window(self.deployer(), salt_b),
            b20::be_bytes(w.0) == keccak::digest(b20::preimage(self.deployer(), salt_a)).take(
                16,
            ),
            b20::be_bytes(w.1) == keccak::digest(b20::preimage(self.deployer(), salt_b)).take(
                16,
            ),
    {
        let w: (u128, u128) = window2(self.template(), salt_a, salt_b);
        proof {
            kernel::window_is_the_digest_front(self.deployer(), salt_a);
            kernel::window_is_the_digest_front(self.deployer(), salt_b);
        }
        w
    }
}

} // verus!
