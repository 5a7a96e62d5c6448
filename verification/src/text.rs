//! Characters, decimal numerals and hexadecimal digits.

use vstd::prelude::*;

verus! {

/// `String::push` of std appends one character to the end of the string.
pub assume_specification[ String::push ](s: &mut String, c: char)
    ensures
        final(s)@ == old(s)@.push(c),
;

/// The lowercase hexadecimal digit of a number below 16, as an ASCII byte.
pub open spec fn hex_digit(n: int) -> u8 {
    if n < 10 {
        (48 + n) as u8
    } else {
        (87 + n) as u8
    }
}

/// Lowercase hexadecimal, two digits per byte, the high nibble first.
pub open spec fn hex_of(bytes: Seq<u8>) -> Seq<u8> {
    Seq::new(
        2 * bytes.len(),
        |i: int|
            hex_digit(
                if i % 2 == 0 {
                    bytes[i / 2] as int / 16
                } else {
                    bytes[i / 2] as int % 16
                },
            ),
    )
}

/// ASCII bytes read as characters.
pub open spec fn chars_of(bytes: Seq<u8>) -> Seq<char> {
    Seq::new(bytes.len(), |i: int| bytes[i] as char)
}

/// A hexadecimal digit, in either case.
pub open spec fn is_hex_char(c: char) -> bool {
    ('0' <= c <= '9') || ('a' <= c <= 'f') || ('A' <= c <= 'F')
}

/// The value of a hexadecimal digit.
pub open spec fn nibble_of(c: char) -> int {
    if '0' <= c <= '9' {
        c as int - 48
    } else if 'a' <= c <= 'f' {
        c as int - 87
    } else {
        c as int - 55
    }
}

/// An ASCII letter in lower case; any other character as it is.
pub open spec fn lower_char(c: char) -> char {
    if 'A' <= c <= 'Z' {
        ((c as u32) + 32) as char
    } else {
        c
    }
}

/// Two texts that differ at most in the case of ASCII letters.
pub open spec fn same_ignoring_case(a: Seq<char>, b: Seq<char>) -> bool {
    a.map_values(|c: char| lower_char(c)) == b.map_values(|c: char| lower_char(c))
}

/// The value of a hexadecimal digit, given as an ASCII byte.
pub fn nibble(b: u8) -> (n: Option<u8>)
    ensures
        n == (if is_hex_char(b as char) {
            Some(nibble_of(b as char) as u8)
        } else {
            None
        }),
{
    if b >= 48 && b <= 57 {
        Some(b - 48)
    } else if b >= 97 && b <= 102 {
        Some(b - 87)
    } else if b >= 65 && b <= 70 {
        Some(b - 55)
    } else {
        None
    }
}

/// The decimal digit of a number below 10.
pub open spec fn dec_digit(n: int) -> char {
    (48 + n) as char
}

/// The decimal numeral of `n`, without leading zeros.
pub open spec fn dec_of(n: nat) -> Seq<char>
    decreases n,
{
    if n < 10 {
        seq![dec_digit(n as int)]
    } else {
        dec_of(n / 10).push(dec_digit((n % 10) as int))
    }
}

/// The decimal numeral of `n`.
pub fn decimal(n: u128) -> (s: String)
    ensures
        s@ == dec_of(n as nat),
{
    let mut digits: Vec<u8> = Vec::new();
    let mut rest: u128 = n;
    proof {
        assert(chars_of(digits@.reverse()) =~= Seq::<char>::empty());
    }
    while rest >= 10
        invariant
            dec_of(n as nat) == dec_of(rest as nat) + chars_of(digits@.reverse()),
        decreases rest,
    {
        let d: u8 = (rest % 10) as u8;
        let ghost before = digits@;
        digits.push(48 + d);
        proof {
            assert(chars_of(digits@.reverse()) =~= seq![dec_digit((rest % 10) as int)] + chars_of(
                before.reverse(),
            ));
            assert(dec_of(n as nat) =~= dec_of((rest / 10) as nat) + chars_of(digits@.reverse()));
        }
        rest = rest / 10;
    }
    let ghost before = digits@;
    digits.push(48 + (rest as u8));
    proof {
        assert(chars_of(digits@.reverse()) =~= seq![dec_digit(rest as int)] + chars_of(
            before.reverse(),
        ));
    }
    let mut s = String::new();
    let mut left: usize = digits.len();
    while left > 0
        invariant
            left <= digits.len(),
            s@ =~= chars_of(digits@.reverse().take(digits.len() - left)),
        decreases left,
    {
        left = left - 1;
        s.push(digits[left] as char);
    }
    assert(digits@.reverse().take(digits.len() as int) =~= digits@.reverse());
    s
}

/// A decimal digit.
pub open spec fn is_dec_char(c: char) -> bool {
    '0' <= c <= '9'
}

/// The value of a sequence of decimal digits.
pub open spec fn dec_value(s: Seq<char>) -> nat
    decreases s.len(),
{
    if s.len() == 0 {
        0
    } else {
        dec_value(s.drop_last()) * 10 + (s.last() as int - 48) as nat
    }
}

/// A numeral without the one plus sign that it may start with.
pub open spec fn unsigned_part(s: Seq<char>) -> Seq<char> {
    if s.len() > 0 && s[0] == '+' {
        s.skip(1)
    } else {
        s
    }
}

/// The number that a text stands for: decimal digits, behind a plus sign at
/// most, of a value that fits 128 bits.
pub open spec fn dec_parse(s: Seq<char>) -> Option<u128> {
    let d = unsigned_part(s);
    if d.len() > 0 && (forall|i: int| 0 <= i < d.len() ==> is_dec_char(#[trigger] d[i]))
        && dec_value(d) <= u128::MAX {
        Some(dec_value(d) as u128)
    } else {
        None
    }
}

/// The value of a prefix is no more than the value of the whole.
proof fn dec_value_grows(s: Seq<char>, k: int)
    requires
        0 <= k <= s.len(),
    ensures
        dec_value(s.take(k)) <= dec_value(s),
    decreases s.len() - k,
{
    if k < s.len() {
        dec_value_grows(s, k + 1);
        assert(s.take(k + 1).drop_last() =~= s.take(k));
    } else {
        assert(s.take(k) =~= s);
    }
}

/// A character is a number of at most 21 bits.
proof fn char_bounds(c: char)
    ensures
        0 <= c as int <= 0x10ffff,
{
}

/// The bytes of a text that is all ASCII.
pub fn ascii_bytes(s: &str) -> (bytes: Option<&[u8]>)
    ensures
        match bytes {
            Some(b) => s@ == chars_of(b@) && (forall|i: int| 0 <= i < b@.len() ==> b@[i] <= 127),
            None => exists|i: int| 0 <= i < s@.len() && (#[trigger] s@[i]) as int >= 128,
        },
{
    if s.is_ascii() {
        let b = s.as_bytes();
        proof {
            vstd::utf8::is_ascii_chars_encode_utf8(s@);
            assert forall|i: int| 0 <= i < s@.len() implies b@[i] <= 127 && s@[i] == b@[i] as char by {
                char_bounds(s@[i]);
                assert('\0' <= s@[i] <= '\u{7f}');
                assert(b@[i] == s@[i] as u8);
            }
            assert(s@ =~= chars_of(b@));
        }
        Some(b)
    } else {
        proof {
            if forall|i: int| 0 <= i < s@.len() ==> (#[trigger] s@[i]) as int <= 127 {
                assert forall|i: int| 0 <= i < s@.len() implies '\0' <= #[trigger] s@[i]
                    <= '\u{7f}' by {
                    char_bounds(s@[i]);
                }
            }
        }
        None
    }
}

/// Reads a decimal number of up to 128 bits.
pub fn parse_decimal(s: &str) -> (n: Option<u128>)
    ensures
        n == dec_parse(s@),
{
    let ghost d = unsigned_part(s@);
    let bytes: &[u8] = match ascii_bytes(s) {
        Some(b) => b,
        None => {
            proof {
                let i = choose|i: int| 0 <= i < s@.len() && (#[trigger] s@[i]) as int >= 128;
                assert(!is_dec_char(s@[i]));
                if s@.len() > 0 && s@[0] == '+' {
                    assert(d[i - 1] == s@[i]);
                } else {
                    assert(d[i] == s@[i]);
                }
            }
            return None;
        },
    };
    let first: usize = if bytes.len() > 0 && bytes[0] == 43 { 1 } else { 0 };
    assert(d =~= s@.skip(first as int));
    if bytes.len() == first {
        return None;
    }
    let mut value: u128 = 0;
    let mut i: usize = first;
    while i < bytes.len()
        invariant
            first <= i <= bytes.len(),
            d.len() == bytes@.len() - first,
            forall|k: int| 0 <= k < d.len() ==> #[trigger] d[k] == bytes@[k + first] as char,
            d == unsigned_part(s@),
            value == dec_value(d.take(i - first)),
            forall|k: int| 0 <= k < i - first ==> is_dec_char(#[trigger] d[k]),
        decreases bytes.len() - i,
    {
        let b: u8 = bytes[i];
        let ghost k = i - first;
        assert(d[k] == b as char);
        if b < 48 || b > 57 {
            assert(!is_dec_char(d[k]));
            return None;
        }
        let digit: u128 = (b - 48) as u128;
        assert(dec_value(d.take(k + 1)) == value * 10 + digit) by {
            assert(d.take(k + 1).drop_last() =~= d.take(k));
            assert(d.take(k + 1).last() == b as char);
        }
        proof {
            dec_value_grows(d, k + 1);
        }
        if value > (u128::MAX - digit) / 10 {
            assert(value * 10 + digit > u128::MAX);
            return None;
        }
        value = value * 10 + digit;
        i = i + 1;
    }
    assert(d.take(i - first) =~= d);
    Some(value)
}

/// A decimal numeral reads back as the number it was written for.
pub proof fn decimal_reads_back(n: u128)
    ensures
        dec_parse(dec_of(n as nat)) == Some(n),
{
    numeral_value(n as nat);
}

proof fn numeral_value(n: nat)
    ensures
        dec_of(n).len() > 0,
        forall|i: int| 0 <= i < dec_of(n).len() ==> is_dec_char(#[trigger] dec_of(n)[i]),
        dec_value(dec_of(n)) == n,
    decreases n,
{
    if n < 10 {
        assert(dec_of(n).drop_last() =~= Seq::<char>::empty());
        assert(dec_of(n).last() as int - 48 == n);
        assert(dec_value(dec_of(n)) == dec_value(Seq::<char>::empty()) * 10 + n);
    } else {
        numeral_value(n / 10);
        assert(dec_of(n).drop_last() =~= dec_of(n / 10));
        assert(dec_of(n).last() as int - 48 == n % 10);
    }
}

/// Whether two texts differ at most in the case of ASCII letters.
pub fn eq_ignoring_case(a: &str, b: &str) -> (r: bool)
    ensures
        r == same_ignoring_case(a@, b@),
{
    let x = lowered(a);
    let y = lowered(b);
    x == y
}

/// A text with its ASCII letters in lower case.
fn lowered(s: &str) -> (r: String)
    ensures
        r@ == s@.map_values(|c: char| lower_char(c)),
{
    let mut r = String::new();
    for c in it: s.chars()
        invariant
            it.seq() == s@,
            r@ == s@.take(it.index()).map_values(|c: char| lower_char(c)),
    {
        r.push(lower(c));
        assert(r@ =~= s@.take(it.index() + 1).map_values(|c: char| lower_char(c)));
    }
    assert(s@.take(s@.len() as int) =~= s@);
    r
}

/// An ASCII letter in lower case; any other character as it is.
fn lower(c: char) -> (r: char)
    ensures
        r == lower_char(c),
{
    if 'A' <= c && c <= 'Z' {
        ((c as u8) + 32) as char
    } else {
        c
    }
}

/// How many spaces a text lacks to fill a width.
pub open spec fn gap(s: Seq<char>, width: int) -> nat {
    if s.len() < width {
        (width - s.len()) as nat
    } else {
        0
    }
}

/// `n` spaces.
pub open spec fn blank(n: nat) -> Seq<char> {
    Seq::new(n, |i: int| ' ')
}

/// As many spaces as a text lacks to fill a width.
fn filler(s: &str, width: usize) -> (r: String)
    ensures
        r@ == blank(gap(s@, width as int)),
{
    let mut left: usize = width;
    for c in it: s.chars()
        invariant
            it.seq() == s@,
            left == gap(s@.take(it.index()), width as int),
    {
        if left > 0 {
            left = left - 1;
        }
    }
    assert(s@.take(s@.len() as int) =~= s@);
    let mut r = String::new();
    let mut n: usize = 0;
    while n < left
        invariant
            n <= left,
            r@ == blank(n as nat),
        decreases left - n,
    {
        r.push(' ');
        n = n + 1;
        assert(r@ =~= blank(n as nat));
    }
    r
}

/// A text behind the spaces that it lacks to fill a width.
pub fn to_the_right(s: &str, width: usize) -> (r: String)
    ensures
        r@ == blank(gap(s@, width as int)) + s@,
{
    let mut r = filler(s, width);
    r.append(s);
    r
}

/// A text in front of the spaces that it lacks to fill a width.
pub fn to_the_left(s: &str, width: usize) -> (r: String)
    ensures
        r@ == s@ + blank(gap(s@, width as int)),
{
    let mut r = s.to_owned();
    let spaces = filler(s, width);
    r.append(&spaces);
    r
}

} // verus!
