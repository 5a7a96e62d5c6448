//! How a B20 address comes about: the preimage, its tail, the address and its
//! checksummed text.

use crate::keccak;
use crate::text;
use tiny_keccak::{Hasher, Keccak};
use vstd::prelude::*;

verus! {

/// `Keccak::v256` of tiny-keccak, fed with `data` and finalized into 32 bytes: the
/// sponge with a rate of 136 bytes over Keccak-f\[1600\]. Each full block is XORed
/// into the state and the state permuted; the rest is XORed in with 0x01 behind it
/// and 0x80 in the last byte of the block, the state permuted again, and its front
/// read.
#[verifier::external_body]
fn tiny_keccak256(data: &[u8]) -> (out: [u8; 32])
    ensures
        out@ == keccak::digest(data@),
{
    let mut out = [0u8; 32];
    let mut k = Keccak::v256();
    k.update(data);
    k.finalize(&mut out);
    out
}

/// Keccak-256.
pub fn keccak256(data: &[u8]) -> (out: [u8; 32])
    ensures
        out@ == keccak::digest(data@),
{
    tiny_keccak256(data)
}

/// `n` zero bytes.
pub open spec fn zeros(n: nat) -> Seq<u8> {
    Seq::new(n, |i: int| 0u8)
}

/// A number as 16 bytes, the most significant first.
pub open spec fn be_bytes(n: u128) -> Seq<u8> {
    Seq::new(16, |i: int| ((n >> ((8 * (15 - i)) as u32)) & 0xff) as u8)
}

/// A salt as 32 bytes, the most significant first.
pub open spec fn salt_be(salt: u128) -> Seq<u8> {
    zeros(16) + be_bytes(salt)
}

/// The number that bytes stand for, the most significant first.
pub open spec fn be_value(bytes: Seq<u8>) -> nat
    decreases bytes.len(),
{
    if bytes.len() == 0 {
        0
    } else {
        be_value(bytes.drop_last()) * 256 + bytes.last() as nat
    }
}

/// `abi.encode(deployer, salt)`: the deployer and the salt, each in 32 bytes.
pub open spec fn preimage(deployer: Seq<u8>, salt: u128) -> Seq<u8> {
    zeros(12) + deployer + salt_be(salt)
}

/// The tail of a token address: nine bytes of the digest of the preimage.
pub open spec fn tail_of(deployer: Seq<u8>, salt: u128) -> Seq<u8> {
    keccak::digest(preimage(deployer, salt)).take(9)
}

/// A token address: 0xB2, nine zero bytes, the variant, the tail.
pub open spec fn address_of(tail: Seq<u8>, variant: u8) -> Seq<u8> {
    seq![0xB2u8] + zeros(9) + seq![variant] + tail
}

/// A text without the `0x` that it may start with.
pub open spec fn bare(s: Seq<char>) -> Seq<char> {
    if s.len() >= 2 && s[0] == '0' && s[1] == 'x' {
        s.skip(2)
    } else {
        s
    }
}

/// Forty hexadecimal digits, behind `0x` or not.
pub open spec fn is_address_text(s: Seq<char>) -> bool {
    &&& bare(s).len() == 40
    &&& forall|i: int| 0 <= i < 40 ==> text::is_hex_char(#[trigger] bare(s)[i])
}

/// The bytes that an address text spells.
pub open spec fn address_value(s: Seq<char>) -> Seq<u8> {
    Seq::new(
        20,
        |i: int|
            (16 * text::nibble_of(bare(s)[2 * i]) + text::nibble_of(bare(s)[2 * i + 1])) as u8,
    )
}

/// Nibble `i` of a sequence of bytes, the high nibble of each byte first.
pub open spec fn nibble_at(bytes: Seq<u8>, i: int) -> int {
    if i % 2 == 0 {
        bytes[i / 2] as int / 16
    } else {
        bytes[i / 2] as int % 16
    }
}

/// The EIP-55 text of an address, given the digest of its lowercase
/// hexadecimal: a letter is in upper case where the digest's nibble is 8 or more.
pub open spec fn checksum_text(addr: Seq<u8>, digest: Seq<u8>) -> Seq<char> {
    seq!['0', 'x'] + Seq::new(
        40,
        |i: int|
            if text::hex_of(addr)[i] >= 97 && nibble_at(digest, i) >= 8 {
                (text::hex_of(addr)[i] - 32) as char
            } else {
                text::hex_of(addr)[i] as char
            },
    )
}

/// The EIP-55 text of an address.
pub open spec fn eip55_text(addr: Seq<u8>) -> Seq<char> {
    checksum_text(addr, keccak::digest(text::hex_of(addr)))
}

/// Reads an address of 40 hexadecimal digits, behind `0x` or not.
pub fn parse_address(s: &str) -> (r: Result<[u8; 20], String>)
    ensures
        match r {
            Ok(a) => is_address_text(s@) && a@ == address_value(s@),
            Err(e) => !is_address_text(s@) && e@ == s@ + " is not a 20-byte hex address"@,
        },
{
    match address_bytes(s) {
        Some(a) => Ok(a),
        None => {
            let mut e = s.to_owned();
            e.append(" is not a 20-byte hex address");
            Err(e)
        },
    }
}

/// The bytes that a text spells, if it is an address.
fn address_bytes(s: &str) -> (r: Option<[u8; 20]>)
    ensures
        match r {
            Some(a) => is_address_text(s@) && a@ == address_value(s@),
            None => !is_address_text(s@),
        },
{
    let ghost h = bare(s@);
    let bytes: &[u8] = match text::ascii_bytes(s) {
        Some(b) => b,
        None => {
            proof {
                let i = choose|i: int| 0 <= i < s@.len() && (#[trigger] s@[i]) as int >= 128;
                assert(!text::is_hex_char(s@[i]));
                if s@.len() >= 2 && s@[0] == '0' && s@[1] == 'x' {
                    assert(h[i - 2] == s@[i]);
                } else {
                    assert(h[i] == s@[i]);
                }
            }
            return None;
        },
    };
    let first: usize = if bytes.len() >= 2 && bytes[0] == 48 && bytes[1] == 120 { 2 } else { 0 };
    proof {
        assert(h =~= s@.skip(first as int));
        assert(forall|k: int| 0 <= k < h.len() ==> #[trigger] h[k] == bytes@[k + first] as char);
    }
    if bytes.len() != first + 40 {
        return None;
    }
    let mut out: [u8; 20] = [0u8; 20];
    let mut i: usize = 0;
    while i < 20
        invariant
            i <= 20,
            first <= 2,
            h == bare(s@),
            h.len() == 40,
            bytes@.len() == first + 40,
            forall|k: int| 0 <= k < 40 ==> #[trigger] h[k] == bytes@[k + first] as char,
            forall|k: int| 0 <= k < 2 * i ==> text::is_hex_char(#[trigger] h[k]),
            forall|k: int| 0 <= k < i ==> out@[k] == address_value(s@)[k],
        decreases 20 - i,
    {
        let high: u8 = match text::nibble(bytes[first + 2 * i]) {
            Some(n) => n,
            None => {
                assert(!text::is_hex_char(h[2 * i]));
                return None;
            },
        };
        let low: u8 = match text::nibble(bytes[first + 2 * i + 1]) {
            Some(n) => n,
            None => {
                assert(!text::is_hex_char(h[2 * i + 1]));
                return None;
            },
        };
        assert(h[2 * i as int] == bytes@[first + 2 * i] as char);
        assert(h[2 * i + 1] == bytes@[first + 2 * i + 1] as char);
        out[i] = 16 * high + low;
        i = i + 1;
    }
    assert(out@ =~= address_value(s@));
    Some(out)
}

/// A number as 16 bytes, the most significant first.
pub fn to_be_bytes(n: u128) -> (b: [u8; 16])
    ensures
        b@ == be_bytes(n),
{
    let mut b: [u8; 16] = [0u8; 16];
    let mut i: usize = 0;
    while i < 16
        invariant
            i <= 16,
            forall|k: int| 0 <= k < i ==> b@[k] == be_bytes(n)[k],
        decreases 16 - i,
    {
        let shift: u32 = 8 * (15 - i as u32);
        b[i] = ((n >> shift) & 0xff) as u8;
        i = i + 1;
    }
    assert(b@ =~= be_bytes(n));
    b
}

/// 32-byte big-endian salt (the high 16 bytes are zero).
pub fn salt_bytes(salt: u128) -> (s: [u8; 32])
    ensures
        s@ == salt_be(salt),
{
    let low: [u8; 16] = to_be_bytes(salt);
    let mut s: [u8; 32] = [0u8; 32];
    let mut i: usize = 0;
    while i < 16
        invariant
            i <= 16,
            forall|k: int| 0 <= k < 16 ==> s@[k] == 0,
            forall|k: int| 0 <= k < i ==> #[trigger] s@[16 + k] == low@[k],
        decreases 16 - i,
    {
        s[16 + i] = low[i];
        i = i + 1;
    }
    proof {
        assert forall|k: int| 0 <= k < 32 implies s@[k] == salt_be(salt)[k] by {
            if 16 <= k {
                assert(s@[16 + (k - 16)] == low@[k - 16]);
            }
        }
        assert(s@ =~= salt_be(salt));
    }
    s
}

/// The bytes that are hashed for a deployer and a salt.
pub fn preimage_bytes(deployer: &[u8; 20], salt: u128) -> (pre: [u8; 64])
    ensures
        pre@ == preimage(deployer@, salt),
{
    let mut pre: [u8; 64] = [0u8; 64];
    let mut i: usize = 0;
    while i < 20
        invariant
            i <= 20,
            forall|k: int| 0 <= k < 12 ==> pre@[k] == 0,
            forall|k: int| 0 <= k < i ==> pre@[12 + k] == deployer@[k],
        decreases 20 - i,
    {
        pre[12 + i] = deployer[i];
        i = i + 1;
    }
    let s: [u8; 32] = salt_bytes(salt);
    i = 0;
    while i < 32
        invariant
            i <= 32,
            forall|k: int| 0 <= k < 12 ==> pre@[k] == 0,
            forall|k: int| 0 <= k < 20 ==> #[trigger] pre@[12 + k] == deployer@[k],
            forall|k: int| 0 <= k < i ==> #[trigger] pre@[32 + k] == s@[k],
        decreases 32 - i,
    {
        pre[32 + i] = s[i];
        i = i + 1;
    }
    proof {
        assert forall|k: int| 0 <= k < 64 implies pre@[k] == preimage(deployer@, salt)[k] by {
            if 12 <= k < 32 {
                assert(pre@[12 + (k - 12)] == deployer@[k - 12]);
            } else if 32 <= k {
                assert(pre@[32 + (k - 32)] == s@[k - 32]);
            }
        }
        assert(pre@ =~= preimage(deployer@, salt));
    }
    pre
}

/// First 9 bytes of keccak256(abi.encode(deployer, salt)).
pub fn tail(deployer: &[u8; 20], salt: u128) -> (t: [u8; 9])
    ensures
        t@ == tail_of(deployer@, salt),
{
    let pre: [u8; 64] = preimage_bytes(deployer, salt);
    let h: [u8; 32] = keccak256(&pre);
    let mut t: [u8; 9] = [0u8; 9];
    let mut i: usize = 0;
    while i < 9
        invariant
            i <= 9,
            forall|k: int| 0 <= k < i ==> t@[k] == h@[k],
        decreases 9 - i,
    {
        t[i] = h[i];
        i = i + 1;
    }
    assert(t@ =~= tail_of(deployer@, salt));
    t
}

/// 0xB2 | 9 zero bytes | variant | 9-byte tail.
pub fn b20_address(tail: &[u8; 9], variant: u8) -> (a: [u8; 20])
    ensures
        a@ == address_of(tail@, variant),
{
    let mut a: [u8; 20] = [0u8; 20];
    a[0] = 0xB2;
    a[10] = variant;
    let mut i: usize = 0;
    while i < 9
        invariant
            i <= 9,
            a@[0] == 0xB2,
            a@[10] == variant,
            forall|k: int| 1 <= k < 10 ==> a@[k] == 0,
            forall|k: int| 0 <= k < i ==> #[trigger] a@[11 + k] == tail@[k],
        decreases 9 - i,
    {
        a[11 + i] = tail[i];
        i = i + 1;
    }
    proof {
        assert forall|k: int| 0 <= k < 20 implies a@[k] == address_of(tail@, variant)[k] by {
            if 11 <= k {
                assert(a@[11 + (k - 11)] == tail@[k - 11]);
            }
        }
        assert(a@ =~= address_of(tail@, variant));
    }
    a
}

/// The lowercase hexadecimal digit of a number below 16.
fn digit(n: u8) -> (d: u8)
    requires
        n < 16,
    ensures
        d == text::hex_digit(n as int),
{
    if n < 10 {
        48 + n
    } else {
        87 + n
    }
}

/// Lowercase hex, 2 chars per byte, into a caller-provided buffer.
pub fn hex_lower(bytes: &[u8], out: &mut [u8])
    requires
        2 * bytes@.len() <= old(out)@.len(),
    ensures
        final(out)@ == text::hex_of(bytes@) + old(out)@.skip(2 * bytes@.len() as int),
{
    let ghost start = out@;
    let n: usize = bytes.len();
    let room: usize = out.len();
    let mut i: usize = 0;
    while i < n
        invariant
            n == bytes@.len(),
            i <= n,
            out@.len() == start.len(),
            2 * n <= start.len() == room,
            forall|k: int| 0 <= k < 2 * i ==> out@[k] == text::hex_of(bytes@)[k],
            forall|k: int| 2 * i <= k < start.len() ==> out@[k] == start[k],
        decreases n - i,
    {
        let b: u8 = bytes[i];
        out[2 * i] = digit(b / 16);
        out[2 * i + 1] = digit(b % 16);
        i = i + 1;
    }
    assert(out@ =~= text::hex_of(bytes@) + start.skip(2 * n as int));
}

/// The EIP-55 text of an address, given the digest of its lowercase hexadecimal.
pub fn checksummed(addr: &[u8; 20], digest: &[u8; 32]) -> (s: String)
    ensures
        s@ == checksum_text(addr@, digest@),
{
    let mut hex: [u8; 40] = [0u8; 40];
    hex_lower(addr, &mut hex);
    assert(hex@ =~= text::hex_of(addr@));
    let mut out = String::new();
    out.push('0');
    out.push('x');
    let mut i: usize = 0;
    while i < 40
        invariant
            i <= 40,
            hex@ == text::hex_of(addr@),
            out@ =~= checksum_text(addr@, digest@).take(2 + i),
        decreases 40 - i,
    {
        let c: u8 = hex[i];
        let pair: u8 = digest[i / 2];
        let nibble: u8 = if i % 2 == 0 { pair / 16 } else { pair % 16 };
        if c >= 97 && nibble >= 8 {
            out.push((c - 32) as char);
        } else {
            out.push(c as char);
        }
        i = i + 1;
    }
    assert(out@ =~= checksum_text(addr@, digest@));
    out
}

/// EIP-55 checksummed address string.
pub fn eip55(addr: &[u8; 20]) -> (s: String)
    ensures
        s@ == eip55_text(addr@),
{
    let mut hex: [u8; 40] = [0u8; 40];
    hex_lower(addr, &mut hex);
    assert(hex@ =~= text::hex_of(addr@));
    let h: [u8; 32] = keccak256(&hex);
    checksummed(addr, &h)
}

/// The 32 bytes of a salt stand for the salt.
pub proof fn salt_bytes_hold_the_salt(salt: u128)
    ensures
        salt_be(salt).len() == 32,
        be_value(salt_be(salt)) == salt,
{
    let s = salt_be(salt);
    be_prefix_value(salt, 32);
    assert(s.take(32) =~= s);
    assert(salt >> 0u32 == salt) by (bit_vector);
}

/// The first `n` bytes of a salt stand for its top bits.
proof fn be_prefix_value(salt: u128, n: int)
    requires
        0 <= n <= 32,
    ensures
        n <= 16 ==> be_value(salt_be(salt).take(n)) == 0,
        16 < n ==> be_value(salt_be(salt).take(n)) == salt >> ((8 * (32 - n)) as u32),
    decreases n,
{
    let s = salt_be(salt);
    if n > 0 {
        be_prefix_value(salt, n - 1);
        assert(s.take(n).drop_last() =~= s.take(n - 1));
        if n == 17 {
            assert(((salt >> 120u32) & 0xff) as u8 == salt >> 120u32) by (bit_vector);
        } else if n > 17 {
            let k: u32 = (8 * (32 - n)) as u32;
            let above: u32 = (8 * (33 - n)) as u32;
            assert((salt >> above) * 256 + ((salt >> k) & 0xff) as u8 == salt >> k) by (bit_vector)
                requires
                    above == k + 8,
                    k <= 112,
            ;
        }
    }
}

/// No two salts, and no two deployers, share a preimage: a salt is bound to the
/// deployer it was mined for.
pub proof fn preimages_are_distinct(d1: Seq<u8>, s1: u128, d2: Seq<u8>, s2: u128)
    requires
        d1.len() == 20,
        d2.len() == 20,
        preimage(d1, s1) == preimage(d2, s2),
    ensures
        d1 == d2,
        s1 == s2,
{
    assert(d1 =~= preimage(d1, s1).subrange(12, 32));
    assert(d2 =~= preimage(d2, s2).subrange(12, 32));
    assert(salt_be(s1) =~= preimage(d1, s1).skip(32));
    assert(salt_be(s2) =~= preimage(d2, s2).skip(32));
    salt_bytes_hold_the_salt(s1);
    salt_bytes_hold_the_salt(s2);
}

/// The variant sits outside the hash: one tail serves both variants, and their
/// addresses differ in that byte alone.
pub proof fn variants_share_the_tail(tail: Seq<u8>, v1: u8, v2: u8)
    requires
        tail.len() == 9,
    ensures
        address_of(tail, v1).len() == 20,
        address_of(tail, v2) == address_of(tail, v1).update(10, v2),
        address_of(tail, v1).skip(11) == tail,
{
    assert(address_of(tail, v2) =~= address_of(tail, v1).update(10, v2));
    assert(address_of(tail, v1).skip(11) =~= tail);
}

/// Checksumming changes the case of letters and nothing else, whatever the digest.
pub proof fn checksum_is_only_casing(addr: Seq<u8>, digest: Seq<u8>)
    requires
        addr.len() == 20,
    ensures
        text::same_ignoring_case(
            checksum_text(addr, digest),
            seq!['0', 'x'] + text::chars_of(text::hex_of(addr)),
        ),
{
    let a = checksum_text(addr, digest).map_values(|c: char| text::lower_char(c));
    let b = (seq!['0', 'x'] + text::chars_of(text::hex_of(addr))).map_values(
        |c: char| text::lower_char(c),
    );
    assert forall|i: int| 0 <= i < 42 implies a[i] == b[i] by {
        if i >= 2 {
            let k = i - 2;
            let n = nibble_at(addr, k);
            assert(0 <= n < 16);
            assert(text::hex_of(addr)[k] == text::hex_digit(n));
        }
    }
    assert(a =~= b);
}

/// A checksummed text reads back as the address it was written for.
pub proof fn checksum_reads_back(addr: Seq<u8>, digest: Seq<u8>)
    requires
        addr.len() == 20,
    ensures
        is_address_text(checksum_text(addr, digest)),
        address_value(checksum_text(addr, digest)) == addr,
{
    let s = checksum_text(addr, digest);
    let h = bare(s);
    assert(h =~= s.skip(2));
    assert forall|i: int| 0 <= i < 40 implies text::is_hex_char(#[trigger] h[i])
        && text::nibble_of(h[i]) == nibble_at(addr, i) by {
        let n = nibble_at(addr, i);
        assert(0 <= n < 16);
        assert(text::hex_of(addr)[i] == text::hex_digit(n));
        assert(h[i] == s[i + 2]);
    }
    assert forall|i: int| 0 <= i < 20 implies address_value(s)[i] == addr[i] by {
        assert(text::nibble_of(h[2 * i]) == nibble_at(addr, 2 * i));
        assert(text::nibble_of(h[2 * i + 1]) == nibble_at(addr, 2 * i + 1));
    }
    assert(address_value(s) =~= addr);
}

} // verus!
