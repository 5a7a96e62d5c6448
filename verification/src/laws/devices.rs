//! What a device compares, and what it is given.

use crate::b20;
use crate::entries;
use crate::entries::Entry;
use crate::kernel;
use crate::kernel::TailKernel;
use crate::mine::{Matcher, Pos};
use crate::text;
use vstd::prelude::*;

verus! {

/// Whether the two halves of a window, each under its mask, are the values of an entry.
pub open spec fn halves_meet(window: u128, e: Entry) -> bool {
    &&& ((window >> 64u32) as u64) & e.mask_hi == e.value_hi
    &&& (window as u64) & e.mask_lo == e.value_lo
}

proof fn meeting_is_by_halves(window: u128, e: Entry)
    ensures
        entries::meets(window, e) <==> halves_meet(window, e),
{
    let (mh, ml, vh, vl) = (e.mask_hi, e.mask_lo, e.value_hi, e.value_lo);
    assert((window & (((mh as u128) << 64) | (ml as u128)) == ((vh as u128) << 64) | (vl as u128))
        <==> (((window >> 64u32) as u64) & mh == vh && (window as u64) & ml == vl)) by (bit_vector);
}

proof fn first_that_meets(es: Seq<Entry>, window: u128, i: int)
    requires
        0 <= i <= es.len(),
        i < es.len() ==> halves_meet(window, es[i]),
        forall|j: int| 0 <= j < i ==> !halves_meet(window, #[trigger] es[j]),
    ensures
        i < es.len() ==> entries::first_met(es, window) == Some(es[i]),
        i == es.len() ==> entries::first_met(es, window) is None,
    decreases i,
{
    if es.len() > 0 {
        meeting_is_by_halves(window, es[0]);
    }
    if i > 0 {
        let rest = es.skip(1);
        assert forall|j: int| 0 <= j < i - 1 implies !halves_meet(window, #[trigger] rest[j]) by {
            assert(rest[j] == es[j + 1]);
        }
        first_that_meets(rest, window, i - 1);
        assert(!halves_meet(window, es[0]));
    }
}

/// A device that compares the halves of a window with the entries, one after another,
/// comes to the one that names what is found in the hexadecimal text of the window's
/// first nine bytes, by the number of the word in the list and of the position; and to
/// none where nothing is found.
pub proof fn entries_name_what_is_found(
    m: &Matcher,
    es: Vec<Entry>,
    window: u128,
    bytes: [u8; 16],
    hex: &[u8; 18],
    found: Option<(Pos, &str)>,
    i: int,
)
    requires
        m.search().words.len() <= u32::MAX,
        call_ensures(Matcher::gpu_entries, (m,), es),
        call_ensures(b20::to_be_bytes, (window,), bytes),
        hex@ == text::hex_of(bytes@.take(9)),
        call_ensures(Matcher::find, (m, hex), found),
        0 <= i <= es@.len(),
        i < es@.len() ==> halves_meet(window, es@[i]),
        forall|j: int| 0 <= j < i ==> !halves_meet(window, #[trigger] es@[j]),
    ensures
        found is Some <==> i < es@.len(),
        found matches Some(f) ==> es@[i].pos == match f.0 {
            Pos::Prefix => 0u32,
            Pos::Suffix => 1u32,
            Pos::Inner => 2u32,
        },
        forall|named: Option<&str>|
            found is Some && #[trigger] call_ensures(
                Matcher::word,
                (m, es@[i].word as usize),
                named,
            ) ==> (named matches Some(w) && (found matches Some(f) && w@ == f.1@)),
{
    first_that_meets(es@, window, i);
    assert(entries::name_the_hits(es@, m.search()));
    assert(entries::names(
        entries::first_met(es@, window),
        m.search().words,
        crate::mine::hit_in(m.search(), entries::shown(window)),
    ));
}

/// Entries are handed over as five words each: both masks, both values, and a word that
/// holds the number of the word in its upper half and of the position in its lower.
pub proof fn entries_take_five_words(es: &Vec<Entry>, flat: Vec<u64>, i: int)
    requires
        5 * es@.len() <= usize::MAX,
        call_ensures(entries::flatten, (es,), flat),
        0 <= i < es@.len(),
    ensures
        flat@.len() == 5 * es@.len(),
        flat@[5 * i] == es@[i].mask_hi,
        flat@[5 * i + 1] == es@[i].mask_lo,
        flat@[5 * i + 2] == es@[i].value_hi,
        flat@[5 * i + 3] == es@[i].value_lo,
        flat@[5 * i + 4] == es@[i].word * 4_294_967_296 + es@[i].pos,
{
    let e = es@[i];
    let (w, p) = (e.word, e.pos);
    assert(((w as u64) << 32) | p as u64 == w * 4_294_967_296 + p) by (bit_vector);
}

/// The window of a salt begins with the salt's tail: its first nine bytes.
pub proof fn windows_begin_with_the_tail(
    deployer: &[u8; 20],
    kernel: &TailKernel,
    salt: u128,
    window: u128,
    tail: [u8; 9],
    i: int,
)
    requires
        call_ensures(TailKernel::new, (deployer,), *kernel),
        call_ensures(TailKernel::window, (kernel, salt), window),
        call_ensures(b20::tail, (deployer, salt), tail),
        0 <= i < 9,
    ensures
        (window >> ((120 - 8 * i) as u32)) & 0xff == tail@[i],
{
    let s: u32 = (120 - 8 * i) as u32;
    assert(((window >> s) & 0xff) as u8 == (window >> s) & 0xff) by (bit_vector);
    assert(b20::be_bytes(window)[i] == tail@[i]);
}

/// Two salts at once give the windows that they give one by one.
pub proof fn pairs_give_both_windows(
    kernel: &TailKernel,
    a: u128,
    b: u128,
    both: (u128, u128),
    wa: u128,
    wb: u128,
)
    requires
        call_ensures(TailKernel::window2, (kernel, a, b), both),
        call_ensures(TailKernel::window, (kernel, a), wa),
        call_ensures(TailKernel::window, (kernel, b), wb),
    ensures
        both == (wa, wb),
{
}

/// Byte `j` of a word, counted from its lower end, is byte `7 - j` of the word with its
/// bytes swapped.
pub proof fn bytes_are_swapped(x: u64, r: u64, j: u32)
    requires
        call_ensures(kernel::swap_bytes, (x,), r),
        j < 8,
    ensures
        (r >> ((8 * j) as u32)) & 0xff == (x >> ((56 - 8 * j) as u32)) & 0xff,
{
    swapped_byte(x, j);
}

proof fn swapped_byte(x: u64, j: u32)
    requires
        j < 8,
    ensures
        (kernel::swapped(x) >> ((8 * j) as u32)) & 0xff == (x >> ((56 - 8 * j) as u32)) & 0xff,
{
    let (a, b) = ((8 * j) as u32, (56 - 8 * j) as u32);
    let r = kernel::swapped(x);
    assert((r >> a) & 0xff == (x >> b) & 0xff) by (bit_vector)
        requires
            j < 8,
            a == 8 * j,
            b == 56 - 8 * j,
            r == kernel::swapped(x),
    ;
}

/// The lanes of a salt hold its sixteen bytes, the most significant lowest.
pub proof fn salt_lanes_hold_the_salt(salt: u128, lanes: (u64, u64), j: u32)
    requires
        call_ensures(TailKernel::salt_lanes, (salt,), lanes),
        j < 8,
    ensures
        (lanes.0 >> ((8 * j) as u32)) & 0xff == (salt >> ((120 - 8 * j) as u32)) & 0xff,
        (lanes.1 >> ((8 * j) as u32)) & 0xff == (salt >> ((56 - 8 * j) as u32)) & 0xff,
{
    let (upper, lower) = ((salt >> 64) as u64, salt as u64);
    swapped_byte(upper, j);
    swapped_byte(lower, j);
    let (a, b) = ((120 - 8 * j) as u32, (56 - 8 * j) as u32);
    assert((((salt >> 64) as u64) >> b) & 0xff == (salt >> a) & 0xff && ((salt as u64) >> b) & 0xff
        == (salt >> b) & 0xff) by (bit_vector)
        requires
            j < 8,
            a == 120 - 8 * j,
            b == 56 - 8 * j,
    ;
}

/// Bit `i` of a word stands `n` bits further up once it is rotated, and comes in from
/// below again.
pub proof fn bits_are_rotated(x: u64, n: u32, r: u64, i: u32)
    requires
        n < 64,
        call_ensures(kernel::rotate_left, (x, n), r),
        i < 64,
    ensures
        (r >> ((i + n) % 64) as u32) & 1 == (x >> i) & 1,
{
    let t: u32 = ((i + n) % 64) as u32;
    let back: u32 = (64 - n) as u32;
    if n == 0 {
    } else {
        assert((((x << n) | (x >> back)) >> t) & 1 == (x >> i) & 1) by (bit_vector)
            requires
                0 < n < 64,
                i < 64,
                back == 64 - n,
                t == (i + n) % 64,
        ;
    }
}

} // verus!
