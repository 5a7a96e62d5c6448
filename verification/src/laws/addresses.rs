//! Addresses, salts and numbers as bytes and as texts.

use crate::b20;
use crate::laws::records;
use crate::mine;
use crate::text;
use vstd::prelude::*;

verus! {

/// What is hashed for a deployer and a salt: twelve zero bytes, the deployer, sixteen
/// zero bytes, and the salt in sixteen bytes, the most significant first.
pub proof fn preimages_are_laid_out(deployer: &[u8; 20], salt: u128, pre: [u8; 64])
    requires
        call_ensures(b20::preimage_bytes, (deployer, salt), pre),
    ensures
        forall|i: int| 0 <= i < 12 ==> #[trigger] pre@[i] == 0,
        pre@.subrange(12, 32) == deployer@,
        forall|i: int| 32 <= i < 48 ==> #[trigger] pre@[i] == 0,
        b20::be_value(pre@.skip(32)) == salt,
{
    b20::salt_bytes_hold_the_salt(salt);
    assert(pre@.skip(32) =~= b20::salt_be(salt));
    assert(pre@.subrange(12, 32) =~= deployer@);
}

/// The tail of a salt is the first nine bytes of what its preimage hashes to.
pub proof fn tails_begin_the_digest(
    deployer: &[u8; 20],
    salt: u128,
    pre: &[u8; 64],
    data: &[u8],
    digest: [u8; 32],
    tail: [u8; 9],
)
    requires
        call_ensures(b20::preimage_bytes, (deployer, salt), *pre),
        data@ == pre@,
        call_ensures(b20::keccak256, (data,), digest),
        call_ensures(b20::tail, (deployer, salt), tail),
    ensures
        forall|i: int| 0 <= i < 9 ==> #[trigger] tail@[i] == digest@[i],
{
}

/// A salt's bytes are sixteen zeros and its own sixteen, each what is left of the salt
/// when the bytes behind it are shifted out.
pub proof fn salts_have_their_bytes(salt: u128, all: [u8; 32], own: [u8; 16], i: int)
    requires
        call_ensures(b20::salt_bytes, (salt,), all),
        call_ensures(b20::to_be_bytes, (salt,), own),
        0 <= i < 16,
    ensures
        all@[i] == 0,
        all@[16 + i] == own@[i],
        own@[i] == (salt >> ((120 - 8 * i) as u32)) & 0xff,
        b20::be_value(all@) == salt,
        b20::be_value(own@) == salt,
{
    b20::salt_bytes_hold_the_salt(salt);
    zeros_in_front(16, b20::be_bytes(salt));
    let s: u32 = (120 - 8 * i) as u32;
    assert(((salt >> s) & 0xff) as u8 == (salt >> s) & 0xff) by (bit_vector);
}

/// Zero bytes in front do not change a number.
proof fn zeros_in_front(n: nat, bytes: Seq<u8>)
    ensures
        b20::be_value(b20::zeros(n) + bytes) == b20::be_value(bytes),
    decreases n + bytes.len(),
{
    let all = b20::zeros(n) + bytes;
    if bytes.len() > 0 {
        zeros_in_front(n, bytes.drop_last());
        assert(all.drop_last() =~= b20::zeros(n) + bytes.drop_last());
    } else if n > 0 {
        zeros_in_front((n - 1) as nat, bytes);
        assert(all.drop_last() =~= b20::zeros((n - 1) as nat) + bytes);
    }
}

/// Hexadecimal text has two lowercase digits for each byte: the upper half first.
pub proof fn bytes_have_two_digits(bytes: &[u8], s: String, i: int)
    requires
        call_ensures(mine::hex_text, (bytes,), s),
        0 <= i < bytes@.len(),
    ensures
        s@.len() == 2 * bytes@.len(),
        records::is_hex_text(s@),
        16 * records::digit_value(s@[2 * i]) + records::digit_value(s@[2 * i + 1]) == bytes@[i],
{
    records::hex_text_holds_the_bytes(bytes@);
    let b = bytes@[i] as int;
    assert(s@[2 * i] == text::hex_digit(b / 16) as char);
    assert(s@[2 * i + 1] == text::hex_digit(b % 16) as char);
}

/// A checksummed address is `0x` and the hexadecimal text of the address, with exactly
/// those letters in upper case where the digest of that text has a nibble of 8 or more.
pub proof fn checksums_mark_letters(
    addr: &[u8; 20],
    s: String,
    bytes: &[u8],
    hex: String,
    ascii: &[u8],
    digest: [u8; 32],
    i: int,
)
    requires
        call_ensures(b20::eip55, (addr,), s),
        bytes@ == addr@,
        call_ensures(mine::hex_text, (bytes,), hex),
        ascii@.len() == 40,
        forall|k: int| 0 <= k < 40 ==> #[trigger] ascii@[k] as char == hex@[k],
        call_ensures(b20::keccak256, (ascii,), digest),
        0 <= i < 40,
    ensures
        s@.len() == 42,
        s@[0] == '0' && s@[1] == 'x',
        ({
            let h = digest@[i / 2] as int;
            let nibble = if i % 2 == 0 {
                h / 16
            } else {
                h % 16
            };
            if 'a' <= hex@[i] <= 'f' && nibble >= 8 {
                s@[2 + i] as int == hex@[i] as int - 32
            } else {
                s@[2 + i] == hex@[i]
            }
        }),
{
    let h = text::hex_of(addr@);
    records::hex_text_holds_the_bytes(addr@);
    assert forall|k: int| 0 <= k < 40 implies ascii@[k] == h[k] by {
        let n = b20::nibble_at(addr@, k);
        assert(0 <= n < 16);
        assert(h[k] == text::hex_digit(n));
        assert(ascii@[k] as char == hex@[k]);
        assert(hex@[k] == h[k] as char);
    }
    assert(ascii@ =~= h);
    let n = b20::nibble_at(addr@, i);
    assert(0 <= n < 16);
    assert(h[i] == text::hex_digit(n));
    assert(hex@[i] == h[i] as char);
}

/// The value of a hexadecimal digit in either case, and 16 for any other character.
pub open spec fn digit_or_16(c: char) -> int {
    if '0' <= c <= '9' {
        c as int - '0' as int
    } else if 'a' <= c <= 'f' {
        c as int - 'a' as int + 10
    } else if 'A' <= c <= 'F' {
        c as int - 'A' as int + 10
    } else {
        16
    }
}

/// What stands behind `0x` in a text of 42 characters; any other text as it is.
pub open spec fn behind_0x(s: Seq<char>) -> Seq<char> {
    if s.len() == 42 && s[0] == '0' && s[1] == 'x' {
        s.skip(2)
    } else {
        s
    }
}

/// A byte is read as a hexadecimal digit, in either case, exactly if it is one.
pub proof fn digits_are_read(b: u8, r: Option<u8>)
    requires
        call_ensures(text::nibble, (b,), r),
    ensures
        r is Some <==> digit_or_16(b as char) < 16,
        r matches Some(n) ==> n == digit_or_16(b as char),
{
}

/// A text is an address exactly if it is forty hexadecimal digits, in either case, or
/// `0x` and forty of them; the bytes are those of the digits, two for each.
pub proof fn addresses_are_forty_digits(s: &str, r: Result<[u8; 20], String>)
    requires
        call_ensures(b20::parse_address, (s,), r),
    ensures
        ({
            let digits = behind_0x(s@);
            &&& r is Ok <==> digits.len() == 40 && forall|i: int|
                0 <= i < 40 ==> digit_or_16(#[trigger] digits[i]) < 16
            &&& r matches Ok(a) ==> forall|i: int|
                0 <= i < 20 ==> #[trigger] a@[i] == 16 * digit_or_16(digits[2 * i]) + digit_or_16(
                    digits[2 * i + 1],
                )
            &&& r matches Err(e) ==> e@ == s@ + " is not a 20-byte hex address"@
        }),
{
    let digits = behind_0x(s@);
    let h = b20::bare(s@);
    let all = forall|i: int| 0 <= i < 40 ==> digit_or_16(#[trigger] digits[i]) < 16;
    if digits.len() == 40 && h.len() != 40 {
        assert(digit_or_16(digits[1]) == 16);
    }
    if h.len() == 40 {
        assert(h =~= digits);
        if all {
            assert forall|i: int| 0 <= i < 40 implies text::is_hex_char(#[trigger] h[i]) by {
                assert(digit_or_16(digits[i]) < 16);
            }
        }
        if b20::is_address_text(s@) {
            assert forall|i: int| 0 <= i < 40 implies digit_or_16(#[trigger] digits[i]) < 16
                && digit_or_16(digits[i]) == text::nibble_of(digits[i]) by {
                assert(text::is_hex_char(h[i]));
            }
            assert forall|i: int| 0 <= i < 20 implies b20::address_value(s@)[i] == 16 * digit_or_16(
                digits[2 * i],
            ) + digit_or_16(digits[2 * i + 1]) by {
                assert(digit_or_16(digits[2 * i]) < 16);
                assert(digit_or_16(digits[2 * i + 1]) < 16);
            }
        }
    }
}

/// An address that was written reads back, checksummed or in lower case, behind `0x` or
/// not.
pub proof fn addresses_read_back(
    addr: &[u8; 20],
    shown: String,
    s: &str,
    r: Result<[u8; 20], String>,
)
    requires
        call_ensures(b20::eip55, (addr,), shown),
        s@ == shown@ || s@ == text::chars_of(text::hex_of(addr@)) || s@ == seq!['0', 'x']
            + text::chars_of(text::hex_of(addr@)),
        call_ensures(b20::parse_address, (s,), r),
    ensures
        r matches Ok(a) && a@ == addr@,
{
    if s@ == shown@ {
        b20::checksum_reads_back(addr@, crate::keccak::digest(text::hex_of(addr@)));
    } else {
        lower_case_reads_back(addr@, s@);
    }
}

proof fn lower_case_reads_back(addr: Seq<u8>, s: Seq<char>)
    requires
        addr.len() == 20,
        s == text::chars_of(text::hex_of(addr)) || s == seq!['0', 'x'] + text::chars_of(
            text::hex_of(addr),
        ),
    ensures
        b20::is_address_text(s),
        b20::address_value(s) == addr,
{
    let h = text::chars_of(text::hex_of(addr));
    records::hex_text_holds_the_bytes(addr);
    assert(h[1] != 'x');
    if s != h {
        assert(s.skip(2) =~= h);
    }
    assert(b20::bare(s) == h);
    assert forall|i: int| 0 <= i < 40 implies text::is_hex_char(#[trigger] b20::bare(s)[i]) by {
        assert(('0' <= h[i] <= '9') || ('a' <= h[i] <= 'f'));
    }
    assert forall|i: int| 0 <= i < 20 implies b20::address_value(s)[i] == addr[i] by {
        let b = addr[i] as int;
        assert(h[2 * i] == text::hex_digit(b / 16) as char);
        assert(h[2 * i + 1] == text::hex_digit(b % 16) as char);
    }
    assert(b20::address_value(s) =~= addr);
}

/// The number that decimal digits stand for.
pub open spec fn number_of(s: Seq<char>) -> int
    decreases s.len(),
{
    if s.len() == 0 {
        0
    } else {
        10 * number_of(s.drop_last()) + (s.last() as int - '0' as int)
    }
}

/// Whether a text is made of decimal digits, and has one.
pub open spec fn is_number(s: Seq<char>) -> bool {
    s.len() > 0 && forall|i: int| 0 <= i < s.len() ==> '0' <= #[trigger] s[i] <= '9'
}

proof fn numeral_is_number(n: nat)
    ensures
        is_number(text::dec_of(n)),
        number_of(text::dec_of(n)) == n,
        text::dec_of(n)[0] == '0' ==> n == 0,
        n == 0 ==> text::dec_of(n).len() == 1,
    decreases n,
{
    let s = text::dec_of(n);
    if n >= 10 {
        numeral_is_number(n / 10);
        let d = text::dec_of(n / 10);
        assert(s.drop_last() =~= d);
        assert(s[0] == d[0]);
        assert forall|i: int| 0 <= i < s.len() implies '0' <= #[trigger] s[i] <= '9' by {
            if i < d.len() {
                assert(s[i] == d[i]);
            }
        }
    } else {
        assert(s.drop_last() =~= Seq::<char>::empty());
        assert(number_of(s.drop_last()) == 0);
    }
    assert(number_of(s) == 10 * number_of(s.drop_last()) + n % 10);
}

/// The numeral of a number is made of decimal digits, without a zero in front but for
/// zero itself, and stands for the number.
pub proof fn numerals_stand_for_numbers(n: u128, s: String)
    requires
        call_ensures(text::decimal, (n,), s),
    ensures
        is_number(s@),
        number_of(s@) == n,
        s@.len() > 1 ==> s@[0] != '0',
{
    numeral_is_number(n as nat);
}

proof fn values_agree(s: Seq<char>)
    requires
        forall|i: int| 0 <= i < s.len() ==> '0' <= #[trigger] s[i] <= '9',
    ensures
        text::dec_value(s) == number_of(s),
    decreases s.len(),
{
    if s.len() > 0 {
        let d = s.drop_last();
        assert forall|i: int| 0 <= i < d.len() implies '0' <= #[trigger] d[i] <= '9' by {
            assert(d[i] == s[i]);
        }
        values_agree(d);
    }
}

/// What stands behind a plus sign; any other text as it is.
pub open spec fn behind_plus(s: Seq<char>) -> Seq<char> {
    if s.len() > 0 && s[0] == '+' {
        s.skip(1)
    } else {
        s
    }
}

/// A text is read as a number exactly if it is decimal digits, behind a plus sign or
/// not, that stand for at most what 128 bits hold; then that is the number.
pub proof fn numbers_are_read(s: &str, r: Option<u128>)
    requires
        call_ensures(text::parse_decimal, (s,), r),
    ensures
        ({
            let digits = behind_plus(s@);
            &&& r is Some <==> is_number(digits) && number_of(digits)
                <= 340_282_366_920_938_463_463_374_607_431_768_211_455
            &&& r matches Some(n) ==> n == number_of(digits)
        }),
{
    let digits = behind_plus(s@);
    if is_number(digits) {
        values_agree(digits);
    }
}

/// A text to the right of a width has spaces in front, one to the left has them behind,
/// as many as it is short of the width.
pub proof fn columns_are_filled(s: &str, width: usize, right: String, left: String)
    requires
        call_ensures(text::to_the_right, (s, width), right),
        call_ensures(text::to_the_left, (s, width), left),
    ensures
        right@.len() == left@.len() && s@.len() <= left@.len(),
        s@.len() <= width ==> left@.len() == width,
        s@.len() >= width ==> left@ == s@ && right@ == s@,
        left@.take(s@.len() as int) == s@,
        right@.skip(right@.len() - s@.len()) == s@,
        forall|i: int| s@.len() <= i < left@.len() ==> #[trigger] left@[i] == ' ',
        forall|i: int| 0 <= i < right@.len() - s@.len() ==> #[trigger] right@[i] == ' ',
{
    assert(left@.take(s@.len() as int) =~= s@);
    assert(right@.skip(right@.len() - s@.len()) =~= s@);
    if s@.len() >= width {
        assert(left@ =~= s@);
        assert(right@ =~= s@);
    }
}

} // verus!
