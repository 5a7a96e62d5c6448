//! Word lists: which words are taken, and in which order.

use crate::spelling;
use crate::text;
use crate::words;
use vstd::prelude::*;

verus! {

/// Whether some address shows a word: it stands in the hexadecimal text of some
/// nine bytes.
pub open spec fn is_shown(w: Seq<char>) -> bool {
    exists|tail: Seq<u8>, k: int| #[trigger] shows(tail, k, w)
}

/// Whether the hexadecimal text of nine bytes shows a word from offset `k` on.
pub open spec fn shows(tail: Seq<u8>, k: int, w: Seq<char>) -> bool {
    &&& tail.len() == 9
    &&& 0 <= k
    &&& k + w.len() <= 18
    &&& text::chars_of(text::hex_of(tail)).subrange(k, k + w.len()) == w
}

/// A digit that hexadecimal text writes, and its value.
proof fn digit_facts(n: int)
    requires
        0 <= n < 16,
    ensures
        ('0' <= text::hex_digit(n) as char <= '9') || ('a' <= text::hex_digit(n) as char <= 'f'),
        text::nibble_of(text::hex_digit(n) as char) == n,
{
}

/// The nine bytes that a word and zeros behind it spell.
spec fn bytes_spelling(w: Seq<char>) -> Seq<u8> {
    Seq::new(9, |i: int| (16 * nibble_or_zero(w, 2 * i) + nibble_or_zero(w, 2 * i + 1)) as u8)
}

spec fn nibble_or_zero(w: Seq<char>, i: int) -> int {
    if i < w.len() {
        text::nibble_of(w[i])
    } else {
        0
    }
}

/// The words that are taken are those that an address can show: of at most 18
/// characters, each of them a digit that hexadecimal text writes.
pub proof fn mineable_words_are_shown(w: Seq<char>)
    ensures
        words::is_mineable(w) <==> is_shown(w),
{
    if words::is_mineable(w) {
        let tail = bytes_spelling(w);
        let all = text::chars_of(text::hex_of(tail));
        assert forall|i: int| 0 <= i < w.len() implies #[trigger] all[i] == w[i] by {
            assert(('0' <= w[i] <= '9') || ('a' <= w[i] <= 'f'));
            let (p, q) = (nibble_or_zero(w, 2 * (i / 2)), nibble_or_zero(w, 2 * (i / 2) + 1));
            let lo = 2 * (i / 2) + 1;
            if lo < w.len() {
                assert(('0' <= w[lo] <= '9') || ('a' <= w[lo] <= 'f'));
            }
            assert(('0' <= w[2 * (i / 2)] <= '9') || ('a' <= w[2 * (i / 2)] <= 'f'));
            assert(0 <= p < 16 && 0 <= q < 16);
            assert(tail[i / 2] == 16 * p + q);
            assert(tail[i / 2] as int / 16 == p && tail[i / 2] as int % 16 == q);
        }
        assert(all.subrange(0, w.len() as int) =~= w);
        assert(shows(tail, 0, w));
    }
    if is_shown(w) {
        let (tail, k) = choose|tail: Seq<u8>, k: int| #[trigger] shows(tail, k, w);
        let all = text::chars_of(text::hex_of(tail));
        assert forall|i: int| 0 <= i < w.len() implies ('0' <= #[trigger] w[i] <= '9') || ('a'
            <= w[i] <= 'f') by {
            assert(w[i] == all[k + i]);
            let j = k + i;
            let n = if j % 2 == 0 {
                tail[j / 2] as int / 16
            } else {
                tail[j / 2] as int % 16
            };
            digit_facts(n);
        }
    }
}

/// A list is taken exactly if it has a word and an address can show each of them;
/// the words that come out are those that went in.
pub proof fn taken_lists(raw: &str, r: Result<Vec<String>, String>)
    requires
        call_ensures(words::parse_words, (raw,), r),
    ensures
        ({
            let list = words::listed(raw@);
            &&& r is Ok <==> (exists|w: Seq<char>| #[trigger] list.contains(w) && w.len() > 0) && (
            forall|w: Seq<char>| #[trigger] list.contains(w) && w.len() > 0 ==> is_shown(w))
            &&& r matches Ok(ws) ==> forall|w: Seq<char>| #[trigger]
                words::texts(ws@).contains(w) <==> list.contains(w) && w.len() > 0
        }),
{
    result_of_list(words::listed(raw@), r);
}

/// The same of a list that is split already.
pub proof fn taken_words(list: &[String], r: Result<Vec<String>, String>)
    requires
        call_ensures(words::rank_words, (list,), r),
    ensures
        ({
            let list = words::texts(list@);
            &&& r is Ok <==> (exists|w: Seq<char>| #[trigger] list.contains(w) && w.len() > 0) && (
            forall|w: Seq<char>| #[trigger] list.contains(w) && w.len() > 0 ==> is_shown(w))
            &&& r matches Ok(ws) ==> forall|w: Seq<char>| #[trigger]
                words::texts(ws@).contains(w) <==> list.contains(w) && w.len() > 0
        }),
{
    result_of_list(words::texts(list@), r);
}

proof fn result_of_list(list: Seq<Seq<char>>, r: Result<Vec<String>, String>)
    requires
        words::is_ranking_of(r, list),
    ensures
        r is Ok <==> (exists|w: Seq<char>| #[trigger] list.contains(w) && w.len() > 0) && (forall|
            w: Seq<char>,
        | #[trigger]
            list.contains(w) && w.len() > 0 ==> is_shown(w)),
        r matches Ok(ws) ==> forall|w: Seq<char>| #[trigger]
            words::texts(ws@).contains(w) <==> list.contains(w) && w.len() > 0,
{
    match r {
        Ok(ws) => {
            let t = words::texts(ws@);
            assert forall|w: Seq<char>| #[trigger] t.contains(w) <==> list.contains(w) && w.len()
                > 0 by {
                assert(t.contains(w) <==> words::is_word_in(list, w));
            }
            assert forall|w: Seq<char>| #[trigger] list.contains(w) && w.len()
                > 0 implies is_shown(w) by {
                assert(words::is_word_in(list, w));
                mineable_words_are_shown(w);
            }
            assert(t[0] == ws@[0]@);
            assert(t.contains(t[0]));
            assert(list.contains(t[0]) && t[0].len() > 0);
        },
        Err(e) => {
            if exists|w: Seq<char>| #[trigger] list.contains(w) && w.len() > 0 {
                let w = choose|w: Seq<char>| #[trigger] list.contains(w) && w.len() > 0;
                assert(words::is_word_in(list, w));
                let v = choose|v: Seq<char>| #[trigger]
                    words::is_first_bad(list, v) && e@ == words::complaint(v);
                mineable_words_are_shown(v);
                assert(list.contains(v) && v.len() > 0 && !is_shown(v));
            }
        },
    }
}

/// Alphabetical order: the first character in which two texts differ decides, and
/// a text comes before those that go on where it ends.
pub proof fn order_is_alphabetical(a: Seq<char>, b: Seq<char>)
    ensures
        words::lex_less(a, b) <==> exists|k: int| #[trigger] differs_first(a, b, k),
    decreases a.len(),
{
    if words::lex_less(a, b) {
        first_difference(a, b);
    }
    if exists|k: int| #[trigger] differs_first(a, b, k) {
        let k = choose|k: int| #[trigger] differs_first(a, b, k);
        difference_decides(a, b, k);
    }
}

/// Whether two texts are alike up to `k`, and there the first ends before the other,
/// or has the smaller character.
pub open spec fn differs_first(a: Seq<char>, b: Seq<char>, k: int) -> bool {
    &&& 0 <= k <= a.len()
    &&& k < b.len()
    &&& a.take(k) == b.take(k)
    &&& k == a.len() || a[k] < b[k]
}

proof fn first_difference(a: Seq<char>, b: Seq<char>)
    requires
        words::lex_less(a, b),
    ensures
        exists|k: int| #[trigger] differs_first(a, b, k),
    decreases a.len(),
{
    assert(a.take(0) =~= b.take(0));
    if a.len() == 0 || a[0] != b[0] {
        assert(differs_first(a, b, 0));
    } else {
        let (x, y) = (a.skip(1), b.skip(1));
        first_difference(x, y);
        let k = choose|k: int| #[trigger] differs_first(x, y, k);
        assert forall|i: int| 0 <= i < k + 1 implies a[i] == b[i] by {
            if i > 0 {
                assert(x.take(k)[i - 1] == y.take(k)[i - 1]);
            }
        }
        assert(a.take(k + 1) =~= b.take(k + 1));
        assert(differs_first(a, b, k + 1));
    }
}

proof fn difference_decides(a: Seq<char>, b: Seq<char>, k: int)
    requires
        differs_first(a, b, k),
    ensures
        words::lex_less(a, b),
    decreases k,
{
    if k > 0 {
        assert(a.take(k)[0] == b.take(k)[0]);
        let (x, y) = (a.skip(1), b.skip(1));
        assert forall|i: int| 0 <= i < k - 1 implies x[i] == y[i] by {
            assert(a.take(k)[i + 1] == b.take(k)[i + 1]);
        }
        assert(x.take(k - 1) =~= y.take(k - 1));
        difference_decides(x, y, k - 1);
    }
}

/// The words of a list come longest first, and alphabetically among those of one
/// length; none comes twice.
pub proof fn taken_words_are_in_order(
    raw: &str,
    r: Result<Vec<String>, String>,
    i: int,
    j: int,
)
    requires
        call_ensures(words::parse_words, (raw,), r),
        r is Ok,
        0 <= i < j < r->Ok_0@.len(),
    ensures
        ({
            let (a, b) = (r->Ok_0@[i]@, r->Ok_0@[j]@);
            &&& a.len() >= b.len()
            &&& a.len() == b.len() ==> exists|k: int| #[trigger] differs_first(a, b, k)
            &&& a != b
        }),
{
    let t = words::texts(r->Ok_0@);
    assert(words::ranks_before(t[i], t[j]));
    order_is_alphabetical(t[i], t[j]);
    words::lex_irreflexive(t[i]);
}

/// What is said of a list that is not taken: that it has no word, or the
/// alphabetically first of those that no address can show, because of a character
/// that hexadecimal text does not write, or else because of its length.
pub proof fn what_is_said_of_a_list(raw: &str, r: Result<Vec<String>, String>)
    requires
        call_ensures(words::parse_words, (raw,), r),
        r is Err,
    ensures
        ({
            let (list, e) = (words::listed(raw@), r->Err_0@);
            ||| e == "no words given"@ && forall|w: Seq<char>| #[trigger]
                list.contains(w) ==> w.len() == 0
            ||| exists|w: Seq<char>| #[trigger] is_said_of(list, w, e)
        }),
{
    let (list, e) = (words::listed(raw@), r->Err_0@);
    if forall|w: Seq<char>| !words::is_word_in(list, w) {
        assert forall|w: Seq<char>| #[trigger] list.contains(w) implies w.len() == 0 by {
            assert(!words::is_word_in(list, w));
        }
        if e != "no words given"@ {
            let v = choose|v: Seq<char>| #[trigger]
                words::is_first_bad(list, v) && e == words::complaint(v);
            assert(words::is_word_in(list, v));
        }
    } else {
        let v = choose|v: Seq<char>| #[trigger]
            words::is_first_bad(list, v) && e == words::complaint(v);
        mineable_words_are_shown(v);
        assert forall|i: int| 0 <= i < v.len() implies (is_shown(seq![#[trigger] v[i]]) <==> ('0'
            <= v[i] <= '9') || ('a' <= v[i] <= 'f')) by {
            mineable_words_are_shown(seq![v[i]]);
            let one = seq![v[i]];
            assert(one[0] == v[i]);
        }
        assert(words::is_hex_word(v) <==> forall|i: int|
            0 <= i < v.len() ==> is_shown(seq![#[trigger] v[i]])) by {
            if !words::is_hex_word(v) {
                let i = choose|i: int|
                    0 <= i < v.len() && !(('0' <= #[trigger] v[i] <= '9') || ('a' <= v[i] <= 'f'));
                assert(!is_shown(seq![v[i]]));
            } else {
                assert forall|i: int| 0 <= i < v.len() implies is_shown(seq![#[trigger] v[i]]) by {
                    assert(('0' <= v[i] <= '9') || ('a' <= v[i] <= 'f'));
                }
            }
        }
        assert forall|u: Seq<char>| #[trigger] list.contains(u) && u.len() > 0 && !is_shown(
            u,
        ) implies !(exists|k: int| #[trigger] differs_first(u, v, k)) by {
            mineable_words_are_shown(u);
            assert(words::is_word_in(list, u));
            order_is_alphabetical(u, v);
        }
        assert(is_said_of(list, v, e));
    }
}

/// Whether a complaint is the one about a word of a list.
pub open spec fn is_said_of(list: Seq<Seq<char>>, w: Seq<char>, e: Seq<char>) -> bool {
    &&& list.contains(w)
    &&& w.len() > 0
    &&& !is_shown(w)
    &&& forall|u: Seq<char>| #[trigger] list.contains(u) && u.len() > 0 && !is_shown(u) ==> !(
    exists|k: int| #[trigger] differs_first(u, w, k))
    &&& e == if forall|i: int| 0 <= i < w.len() ==> is_shown(seq![#[trigger] w[i]]) {
        "longer than the 18-char window: "@ + w
    } else {
        "not hex-expressible: "@ + w
            + " (only 0-9 a-f; leetspeak helps: o=0 l/i=1 s=5 t=7 g=6 z=2)"@
    }
}

/// The code points that Unicode calls white space.
pub open spec fn white_space() -> Seq<int> {
    seq![
        0x09,
        0x0a,
        0x0b,
        0x0c,
        0x0d,
        0x20,
        0x85,
        0xa0,
        0x1680,
        0x2000,
        0x2001,
        0x2002,
        0x2003,
        0x2004,
        0x2005,
        0x2006,
        0x2007,
        0x2008,
        0x2009,
        0x200a,
        0x2028,
        0x2029,
        0x202f,
        0x205f,
        0x3000,
    ]
}

/// White space is Unicode's: those code points, and no others.
pub proof fn white_space_is_unicode(c: char)
    ensures
        words::is_space(c) <==> white_space().contains(c as int),
{
    let t = white_space();
    let n = c as int;
    if words::is_space(c) {
        let i: int = if n <= 0x0d {
            n - 0x09
        } else if n == 0x20 {
            5
        } else if n == 0x85 {
            6
        } else if n == 0xa0 {
            7
        } else if n == 0x1680 {
            8
        } else if n <= 0x200a {
            n - 0x2000 + 9
        } else if n == 0x2028 {
            20
        } else if n == 0x2029 {
            21
        } else if n == 0x202f {
            22
        } else if n == 0x205f {
            23
        } else {
            24
        };
        assert(t[i] == n);
    }
}

/// Whether a text is all white space.
pub open spec fn is_blank(s: Seq<char>) -> bool {
    forall|i: int| 0 <= i < s.len() ==> white_space().contains(#[trigger] s[i] as int)
}

/// White space around a text goes, and nothing else.
pub proof fn trimming_takes_the_blanks(a: Seq<char>, w: Seq<char>, b: Seq<char>)
    requires
        is_blank(a),
        is_blank(b),
        w.len() > 0 ==> !white_space().contains(w[0] as int) && !white_space().contains(
            w.last() as int,
        ),
    ensures
        words::trimmed(a + w + b) == w,
    decreases a.len() + b.len(),
{
    let s = a + w + b;
    if a.len() > 0 {
        white_space_is_unicode(a[0]);
        assert(s[0] == a[0]);
        let rest = a.skip(1);
        assert forall|i: int| 0 <= i < rest.len() implies white_space().contains(
            #[trigger] rest[i] as int,
        ) by {
            assert(rest[i] == a[i + 1]);
        }
        trimming_takes_the_blanks(rest, w, b);
        assert(s.skip(1) =~= rest + w + b);
    } else if b.len() > 0 {
        white_space_is_unicode(b.last());
        assert(b.last() == b[b.len() - 1]);
        assert(s.last() == b.last());
        let rest = b.drop_last();
        assert forall|i: int| 0 <= i < rest.len() implies white_space().contains(
            #[trigger] rest[i] as int,
        ) by {
            assert(rest[i] == b[i]);
        }
        if w.len() > 0 {
            white_space_is_unicode(w[0]);
            assert(s[0] == w[0]);
            trimming_takes_the_blanks(a, w, rest);
            assert(s.drop_last() =~= a + w + rest);
        } else {
            // blanks alone, taken from the front
            white_space_is_unicode(b[0]);
            assert(s[0] == b[0]);
            let tail = b.skip(1);
            assert forall|i: int| 0 <= i < tail.len() implies white_space().contains(
                #[trigger] tail[i] as int,
            ) by {
                assert(tail[i] == b[i + 1]);
            }
            trimming_takes_the_blanks(a, w, tail);
            assert(s.skip(1) =~= a + w + tail);
        }
    } else {
        assert(s =~= w);
        if w.len() > 0 {
            white_space_is_unicode(w[0]);
            white_space_is_unicode(w.last());
        }
    }
}

/// A letter from `A` to `Z` becomes the one 32 code points on; any other character
/// stays.
pub proof fn lower_case_is_32_on(c: char)
    ensures
        65 <= c as int <= 90 ==> text::lower_char(c) as int == c as int + 32,
        !(65 <= c as int <= 90) ==> text::lower_char(c) == c,
{
}

/// A list of ASCII texts, each between blanks, with commas between them, is split
/// into those texts, with their letters in lower case.
pub proof fn a_list_is_split_at_its_commas(
    raw: &str,
    list: Vec<String>,
    before: Seq<Seq<char>>,
    texts: Seq<Seq<char>>,
    behind: Seq<Seq<char>>,
    i: int,
)
    requires
        call_ensures(words::split_list, (raw,), list),
        texts.len() > 0,
        before.len() == texts.len(),
        behind.len() == texts.len(),
        raw@ == spelling::joined(
            Seq::new(texts.len(), |k: int| before[k] + texts[k] + behind[k]),
        ),
        vstd::utf8::is_ascii_chars(raw@),
        forall|k: int|
            0 <= k < texts.len() ==> is_blank(#[trigger] before[k]) && is_blank(behind[k])
                && !texts[k].contains(','),
        forall|k: int|
            0 <= k < texts.len() && (#[trigger] texts[k]).len() > 0 ==> !white_space().contains(
                texts[k][0] as int,
            ) && !white_space().contains(texts[k].last() as int),
        0 <= i < texts.len(),
    ensures
        list@.len() == texts.len(),
        list@[i]@.len() == texts[i].len(),
        forall|k: int|
            0 <= k < texts[i].len() ==> (#[trigger] list@[i]@[k]) as int == texts[i][k] as int + (
            if 65 <= texts[i][k] as int <= 90 {
                32int
            } else {
                0int
            }),
{
    let ps = Seq::new(texts.len(), |k: int| before[k] + texts[k] + behind[k]);
    assert forall|k: int| 0 <= k < ps.len() implies !(#[trigger] ps[k]).contains(',') by {
        let (a, w, b) = (before[k], texts[k], behind[k]);
        assert(is_blank(a) && is_blank(b) && !w.contains(','));
        if ps[k].contains(',') {
            let n = ps[k].index_of(',');
            if n < a.len() {
                assert(a[n] == ',');
            } else if n < a.len() + w.len() {
                assert(w[n - a.len()] == ',');
            } else {
                assert(b[n - a.len() - w.len()] == ',');
            }
            white_space_is_unicode(',');
        }
    }
    spelling::pieces_come_apart(ps);
    assert(words::pieces(raw@) == ps);
    assert(words::texts(list@) == words::ascii_listed(raw@));
    assert(words::texts(list@).len() == list@.len());
    assert(words::ascii_listed(raw@).len() == ps.len());
    trimming_takes_the_blanks(before[i], texts[i], behind[i]);
    assert(words::trimmed(ps[i]) == texts[i]);
    assert(words::texts(list@)[i] == list@[i]@);
    assert(list@[i]@ == words::ascii_lower(texts[i]));
}

} // verus!
