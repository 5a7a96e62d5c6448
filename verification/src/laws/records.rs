//! What a record of a hit says.

use crate::b20;
use crate::mine;
use crate::mine::{HitRecord, Pos, RawHit};
use crate::text;
use vstd::prelude::*;

verus! {

/// The names of the positions are three different texts.
pub proof fn positions_have_names(pos: Pos, name: &'static str)
    requires
        call_ensures(Pos::as_str, (&pos,), name),
    ensures
        name@ == seq!['p', 'r', 'e', 'f', 'i', 'x'] <==> pos == Pos::Prefix,
        name@ == seq!['s', 'u', 'f', 'f', 'i', 'x'] <==> pos == Pos::Suffix,
        name@ == seq!['i', 'n', 'n', 'e', 'r'] <==> pos == Pos::Inner,
{
    names_are_different(pos);
}

proof fn names_are_different(pos: Pos)
    ensures
        pos.name() == seq!['p', 'r', 'e', 'f', 'i', 'x'] <==> pos == Pos::Prefix,
        pos.name() == seq!['s', 'u', 'f', 'f', 'i', 'x'] <==> pos == Pos::Suffix,
        pos.name() == seq!['i', 'n', 'n', 'e', 'r'] <==> pos == Pos::Inner,
{
    reveal_strlit("prefix");
    reveal_strlit("suffix");
    reveal_strlit("inner");
    let (p, s, i) = (
        seq!['p', 'r', 'e', 'f', 'i', 'x'],
        seq!['s', 'u', 'f', 'f', 'i', 'x'],
        seq!['i', 'n', 'n', 'e', 'r'],
    );
    assert("prefix"@ =~= p);
    assert("suffix"@ =~= s);
    assert("inner"@ =~= i);
    assert(p[0] != s[0] && p[0] != i[0] && s[0] != i[0]);
}

/// A record's position reads `prefix` exactly of a hit at the front, `suffix` exactly
/// of one at the end, and `inner` exactly of one inside.
pub proof fn records_name_the_position(hit: RawHit, rec: HitRecord)
    requires
        call_ensures(HitRecord::of, (hit,), rec),
    ensures
        rec.position@ == seq!['p', 'r', 'e', 'f', 'i', 'x'] <==> hit.pos == Pos::Prefix,
        rec.position@ == seq!['s', 'u', 'f', 'f', 'i', 'x'] <==> hit.pos == Pos::Suffix,
        rec.position@ == seq!['i', 'n', 'n', 'e', 'r'] <==> hit.pos == Pos::Inner,
        rec.word@ == hit.word@,
{
    names_are_different(hit.pos);
}

/// ASCII bytes that are those of a text spell the text.
proof fn ascii_bytes_spell(w: Seq<char>, b: Seq<u8>)
    requires
        mine::word_bytes(w) == b,
        forall|i: int| 0 <= i < b.len() ==> #[trigger] b[i] < 128,
    ensures
        w == text::chars_of(b),
{
    let c = text::chars_of(b);
    assert forall|i: int| 0 <= i < c.len() implies '\0' <= #[trigger] c[i] <= '\u{7f}' by {
        assert(b[i] < 128);
    }
    vstd::utf8::is_ascii_chars_encode_utf8(c);
    assert forall|i: int| 0 <= i < b.len() implies vstd::utf8::encode_utf8(c)[i] == b[i] by {
        assert(c[i] as u8 == vstd::utf8::encode_utf8(c)[i]);
        assert(b[i] < 128);
    }
    assert(vstd::utf8::encode_utf8(c) =~= b);
    vstd::utf8::encode_utf8_decode_utf8(c);
    vstd::utf8::encode_utf8_decode_utf8(w);
}

/// Hexadecimal text is ASCII.
proof fn hex_is_ascii(bytes: Seq<u8>)
    ensures
        forall|i: int|
            0 <= i < text::hex_of(bytes).len() ==> #[trigger] text::hex_of(bytes)[i] < 128,
{
}

/// The record of a hit shows its word where it says: at the front of the recorded
/// tail, at its end, or somewhere in it.
pub proof fn recorded_words_stand_there(
    hit: RawHit,
    rec: HitRecord,
    search: mine::Search,
    deployer: Seq<u8>,
)
    requires
        call_ensures(HitRecord::of, (hit,), rec),
        hit.is_hit_of(search, deployer),
    ensures
        rec.tail@.len() == 18,
        rec.word@.len() <= 18,
        rec.position@ == seq!['p', 'r', 'e', 'f', 'i', 'x'] ==> rec.tail@.take(
            rec.word@.len() as int,
        ) == rec.word@,
        rec.position@ == seq!['s', 'u', 'f', 'f', 'i', 'x'] ==> rec.tail@.skip(
            18 - rec.word@.len(),
        ) == rec.word@,
        rec.position@ == seq!['i', 'n', 'n', 'e', 'r'] ==> exists|k: int|
            0 <= k <= 18 - rec.word@.len() && #[trigger] rec.tail@.subrange(
                k,
                k + rec.word@.len(),
            ) == rec.word@,
{
    names_are_different(hit.pos);
    let tail = text::hex_of(hit.tail@);
    let w = hit.word@;
    let b = mine::word_bytes(w);
    hex_is_ascii(hit.tail@);
    assert(hit.tail@.len() == 9);
    let ws = if hit.pos == Pos::Inner {
        search.inner
    } else {
        search.words
    };
    mine::some_fit(ws, tail, hit.pos);
    assert(mine::fits(b, tail, hit.pos));
    let k = match hit.pos {
        Pos::Prefix => 0,
        Pos::Suffix => 18 - b.len(),
        Pos::Inner => choose|k: int| #[trigger] mine::stands_at(b, tail, k),
    };
    assert(mine::stands_at(b, tail, k));
    let part = tail.subrange(k, k + b.len());
    assert forall|i: int| 0 <= i < part.len() implies #[trigger] part[i] < 128 by {
        assert(part[i] == tail[k + i]);
    }
    ascii_bytes_spell(w, part);
    assert(w.len() == b.len());
    assert(rec.tail@.subrange(k, k + w.len()) =~= w);
    assert(k == 0 ==> rec.tail@.take(w.len() as int) =~= rec.tail@.subrange(0, w.len() as int));
    assert(k == 18 - w.len() ==> rec.tail@.skip(18 - w.len()) =~= rec.tail@.subrange(k, 18));
}

/// The value of a hexadecimal digit.
pub open spec fn digit_value(c: char) -> int {
    if '0' <= c <= '9' {
        c as int - '0' as int
    } else {
        c as int - 'a' as int + 10
    }
}

/// The number that lowercase hexadecimal digits stand for.
pub open spec fn hex_value(s: Seq<char>) -> int
    decreases s.len(),
{
    if s.len() == 0 {
        0
    } else {
        16 * hex_value(s.drop_last()) + digit_value(s.last())
    }
}

/// Whether a text is made of lowercase hexadecimal digits.
pub open spec fn is_hex_text(s: Seq<char>) -> bool {
    forall|i: int| 0 <= i < s.len() ==> ('0' <= #[trigger] s[i] <= '9') || ('a' <= s[i] <= 'f')
}

/// The hexadecimal text of bytes stands for the number that they stand for.
pub proof fn hex_text_holds_the_bytes(bytes: Seq<u8>)
    ensures
        text::chars_of(text::hex_of(bytes)).len() == 2 * bytes.len(),
        is_hex_text(text::chars_of(text::hex_of(bytes))),
        hex_value(text::chars_of(text::hex_of(bytes))) == b20::be_value(bytes),
    decreases bytes.len(),
{
    let s = text::chars_of(text::hex_of(bytes));
    assert forall|i: int| 0 <= i < s.len() implies ('0' <= #[trigger] s[i] <= '9') || ('a' <= s[i]
        <= 'f') by {
        assert(bytes[i / 2] < 256);
    }
    if bytes.len() > 0 {
        let rest = bytes.drop_last();
        hex_text_holds_the_bytes(rest);
        let d = s.drop_last();
        assert(d.drop_last() =~= text::chars_of(text::hex_of(rest)));
        let n = bytes.len() as int;
        assert(d.last() == s[2 * n - 2] && s.last() == s[2 * n - 1]);
        let b = bytes.last() as int;
        assert(digit_value(d.last()) == b / 16);
        assert(digit_value(s.last()) == b % 16);
        assert(hex_value(d) == 16 * hex_value(d.drop_last()) + b / 16);
        assert(hex_value(s) == 16 * hex_value(d) + b % 16);
        assert(b20::be_value(bytes) == 256 * b20::be_value(rest) + b);
    } else {
        assert(s =~= Seq::<char>::empty());
    }
}

/// A record holds its salt twice, as a decimal number that reads back and as 64
/// hexadecimal digits behind `0x`, and its tail as 18 of them.
pub proof fn records_hold_the_numbers(
    hit: RawHit,
    rec: HitRecord,
    s: &str,
    n: Option<u128>,
)
    requires
        call_ensures(HitRecord::of, (hit,), rec),
        s@ == rec.salt@,
        call_ensures(text::parse_decimal, (s,), n),
    ensures
        n == Some(hit.salt),
        rec.salt_bytes32@.len() == 66,
        rec.salt_bytes32@.take(2) == seq!['0', 'x'],
        is_hex_text(rec.salt_bytes32@.skip(2)),
        hex_value(rec.salt_bytes32@.skip(2)) == hit.salt,
        rec.tail@.len() == 18,
        is_hex_text(rec.tail@),
        hex_value(rec.tail@) == b20::be_value(hit.tail@),
{
    text::decimal_reads_back(hit.salt);
    b20::salt_bytes_hold_the_salt(hit.salt);
    hex_text_holds_the_bytes(b20::salt_be(hit.salt));
    hex_text_holds_the_bytes(hit.tail@);
    reveal_strlit("0x");
    let h = text::chars_of(text::hex_of(b20::salt_be(hit.salt)));
    assert("0x"@ =~= seq!['0', 'x']);
    assert(rec.salt_bytes32@.skip(2) =~= h);
    assert(rec.salt_bytes32@.take(2) =~= seq!['0', 'x']);
}

/// The recorded addresses read as token addresses: 0xB2, nine zero bytes, the variant,
/// which is 0 for ASSET and 1 for STABLECOIN, and the tail; each in its checksummed
/// form.
pub proof fn records_hold_the_addresses(
    hit: RawHit,
    rec: HitRecord,
    asset: &str,
    a: Result<[u8; 20], String>,
    stable: &str,
    b: Result<[u8; 20], String>,
)
    requires
        call_ensures(HitRecord::of, (hit,), rec),
        asset@ == rec.asset_address@,
        call_ensures(b20::parse_address, (asset,), a),
        stable@ == rec.stablecoin_address@,
        call_ensures(b20::parse_address, (stable,), b),
    ensures
        a matches Ok(x) && is_token(x@, 0, hit.tail@),
        b matches Ok(y) && is_token(y@, 1, hit.tail@),
        forall|t: String| #[trigger]
            call_ensures(b20::eip55, (&a->Ok_0,), t) ==> t@ == rec.asset_address@,
        forall|t: String| #[trigger]
            call_ensures(b20::eip55, (&b->Ok_0,), t) ==> t@ == rec.stablecoin_address@,
{
    token_text(hit.tail@, 0);
    token_text(hit.tail@, 1);
}

/// The bytes of a token address.
pub open spec fn is_token(a: Seq<u8>, variant: u8, tail: Seq<u8>) -> bool {
    &&& a.len() == 20
    &&& a[0] == 0xB2
    &&& forall|i: int| 1 <= i < 10 ==> #[trigger] a[i] == 0
    &&& a[10] == variant
    &&& forall|i: int| 0 <= i < 9 ==> a[11 + i] == #[trigger] tail[i]
}

proof fn token_text(tail: Seq<u8>, variant: u8)
    requires
        tail.len() == 9,
    ensures
        is_token(b20::address_of(tail, variant), variant, tail),
        b20::is_address_text(b20::eip55_text(b20::address_of(tail, variant))),
        b20::address_value(b20::eip55_text(b20::address_of(tail, variant))) == b20::address_of(
            tail,
            variant,
        ),
{
    let a = b20::address_of(tail, variant);
    b20::checksum_reads_back(a, crate::keccak::digest(text::hex_of(a)));
}

/// An address has the shape of a token's, for every variant.
pub proof fn addresses_have_their_shape(tail: &[u8; 9], variant: u8, a: [u8; 20])
    requires
        call_ensures(b20::b20_address, (tail, variant), a),
    ensures
        is_token(a@, variant, tail@),
{
    token_text(tail@, variant);
}

/// The line that announces a hit has its word to the right in 18 columns, its position
/// to the left in 6, its salt to the left in 12, and its ASSET address at the end.
pub proof fn lines_are_in_columns(rec: &HitRecord, line: String)
    requires
        call_ensures(HitRecord::line, (rec,), line),
    ensures
        exists|a: Seq<char>, b: Seq<char>, c: Seq<char>|
            #![trigger a + rec.word@, rec.position@ + b, rec.salt@ + c]
            {
                &&& fills(a, rec.word@, 18)
                &&& fills(b, rec.position@, 6)
                &&& fills(c, rec.salt@, 12)
                &&& line@ == a + rec.word@ + seq![' '] + (rec.position@ + b) + seq![
                    ' ',
                    's',
                    'a',
                    'l',
                    't',
                    '=',
                ] + (rec.salt@ + c) + seq![' '] + rec.asset_address@
            },
{
    reveal_strlit(" ");
    reveal_strlit(" salt=");
    let a = text::blank(text::gap(rec.word@, 18));
    let b = text::blank(text::gap(rec.position@, 6));
    let c = text::blank(text::gap(rec.salt@, 12));
    assert(" "@ =~= seq![' ']);
    assert(" salt="@ =~= seq![' ', 's', 'a', 'l', 't', '=']);
    let (x, y, z) = (a + rec.word@, rec.position@ + b, rec.salt@ + c);
    assert(line@ =~= x + seq![' '] + y + seq![' ', 's', 'a', 'l', 't', '='] + z + seq![' ']
        + rec.asset_address@);
}

/// Whether spaces fill a text up to a width, and are none where the text is wider.
pub open spec fn fills(spaces: Seq<char>, s: Seq<char>, width: int) -> bool {
    &&& forall|i: int| 0 <= i < spaces.len() ==> #[trigger] spaces[i] == ' '
    &&& s.len() <= width ==> spaces.len() + s.len() == width
    &&& s.len() > width ==> spaces.len() == 0
}

} // verus!
