//! The word list: how it is read, checked and ranked, and how often a word is
//! to be expected.

use crate::text;
use vstd::prelude::*;

verus! {

/// Where a word may sit in the 18-character window.
#[derive(Clone, Copy, PartialEq, Eq, Structural, Debug)]
pub enum Positions {
    Prefix,
    Suffix,
    Ends,
    Any,
}

/// A text in lower case, as Unicode has it.
pub uninterp spec fn lowercase_of(s: Seq<char>) -> Seq<char>;

/// `str::to_lowercase` of std. Its result depends on the text alone; of a text
/// that is all ASCII, it turns each letter from `A` to `Z` into the one from
/// `a` to `z` and leaves the rest as it is. What it makes of other characters
/// is Unicode's table and is not spelled out.
#[verifier::external_body]
fn to_lowercase(s: &str) -> (r: String)
    ensures
        r@ == lowercase_of(s@),
        vstd::utf8::is_ascii_chars(s@) ==> r@ == ascii_lower(s@),
{
    s.to_lowercase()
}

/// White space, as Unicode has it.
pub open spec fn is_space(c: char) -> bool {
    let n = c as u32;
    ||| 0x09 <= n <= 0x0d
    ||| n == 0x20
    ||| n == 0x85
    ||| n == 0xa0
    ||| n == 0x1680
    ||| 0x2000 <= n <= 0x200a
    ||| n == 0x2028
    ||| n == 0x2029
    ||| n == 0x202f
    ||| n == 0x205f
    ||| n == 0x3000
}

/// A text without the white space at its ends.
pub open spec fn trimmed(s: Seq<char>) -> Seq<char>
    decreases s.len(),
{
    if s.len() > 0 && is_space(s[0]) {
        trimmed(s.skip(1))
    } else if s.len() > 0 && is_space(s.last()) {
        trimmed(s.drop_last())
    } else {
        s
    }
}

/// The pieces between commas: a comma opens a new piece, and any other
/// character goes to the end of the last one.
pub open spec fn pieces(s: Seq<char>) -> Seq<Seq<char>>
    decreases s.len(),
{
    if s.len() == 0 {
        seq![Seq::<char>::empty()]
    } else {
        let p = pieces(s.drop_last());
        if s.last() == ',' {
            p.push(Seq::<char>::empty())
        } else {
            p.drop_last().push(p.last().push(s.last()))
        }
    }
}

/// What a comma-separated text lists: its pieces without the white space around
/// them, in lower case.
pub open spec fn listed(raw: Seq<char>) -> Seq<Seq<char>> {
    pieces(raw).map_values(|p: Seq<char>| lowercase_of(trimmed(p)))
}

/// A text with its ASCII letters in lower case.
pub open spec fn ascii_lower(s: Seq<char>) -> Seq<char> {
    s.map_values(|c: char| text::lower_char(c))
}

/// Of a piece that is all ASCII, what is listed is the piece without the white
/// space around it, with its letters in lower case.
pub open spec fn lists_ascii(raw: Seq<char>) -> bool {
    forall|i: int|
        0 <= i < pieces(raw).len() && vstd::utf8::is_ascii_chars(
            trimmed(#[trigger] pieces(raw)[i]),
        ) ==> listed(raw)[i] == ascii_lower(trimmed(pieces(raw)[i]))
}

/// What a comma-separated text that is all ASCII lists.
pub open spec fn ascii_listed(raw: Seq<char>) -> Seq<Seq<char>> {
    pieces(raw).map_values(|p: Seq<char>| ascii_lower(trimmed(p)))
}

/// A word of a list; what is empty is no word.
pub open spec fn is_word_in(list: Seq<Seq<char>>, w: Seq<char>) -> bool {
    w.len() > 0 && list.contains(w)
}

/// A word made of the digits `0` to `9` and `a` to `f`.
pub open spec fn is_hex_word(w: Seq<char>) -> bool {
    forall|i: int| 0 <= i < w.len() ==> ('0' <= #[trigger] w[i] <= '9') || ('a' <= w[i] <= 'f')
}

/// A word that an address can spell.
pub open spec fn is_mineable(w: Seq<char>) -> bool {
    is_hex_word(w) && w.len() <= 18
}

/// Alphabetical order, by code point.
pub open spec fn lex_less(a: Seq<char>, b: Seq<char>) -> bool
    decreases a.len(),
{
    if b.len() == 0 {
        false
    } else if a.len() == 0 {
        true
    } else if a[0] != b[0] {
        a[0] < b[0]
    } else {
        lex_less(a.skip(1), b.skip(1))
    }
}

/// The rank of words: longer ones first, words of one length alphabetically.
pub open spec fn ranks_before(a: Seq<char>, b: Seq<char>) -> bool {
    a.len() > b.len() || (a.len() == b.len() && lex_less(a, b))
}

/// A list in strict order of rank, which holds nothing twice.
pub open spec fn is_ranked(ws: Seq<Seq<char>>) -> bool {
    forall|i: int, j: int| 0 <= i < j < ws.len() ==> ranks_before(#[trigger] ws[i], #[trigger] ws[j])
}

/// What is said of a word that no address can spell.
pub open spec fn complaint(w: Seq<char>) -> Seq<char> {
    if !is_hex_word(w) {
        "not hex-expressible: "@ + w
            + " (only 0-9 a-f; leetspeak helps: o=0 l/i=1 s=5 t=7 g=6 z=2)"@
    } else {
        "longer than the 18-char window: "@ + w
    }
}

/// The texts of a list of strings.
pub open spec fn texts(words: Seq<String>) -> Seq<Seq<char>> {
    Seq::new(words.len(), |i: int| words[i]@)
}

/// Nothing comes before itself.
pub proof fn lex_irreflexive(a: Seq<char>)
    ensures
        !lex_less(a, a),
    decreases a.len(),
{
    if a.len() > 0 {
        lex_irreflexive(a.skip(1));
    }
}

/// What comes before something that comes before a third comes before the third.
pub proof fn lex_transitive(a: Seq<char>, b: Seq<char>, c: Seq<char>)
    requires
        lex_less(a, b),
        lex_less(b, c),
    ensures
        lex_less(a, c),
    decreases a.len(),
{
    if a.len() > 0 && a[0] == b[0] && b[0] == c[0] {
        lex_transitive(a.skip(1), b.skip(1), c.skip(1));
    }
}

/// Of two different words, one comes before the other.
pub proof fn lex_total(a: Seq<char>, b: Seq<char>)
    ensures
        lex_less(a, b) || lex_less(b, a) || a == b,
    decreases a.len(),
{
    if a.len() > 0 && b.len() > 0 && a[0] == b[0] {
        lex_total(a.skip(1), b.skip(1));
        if a.skip(1) == b.skip(1) {
            assert(a =~= seq![a[0]] + a.skip(1));
            assert(b =~= seq![b[0]] + b.skip(1));
        }
    } else if a.len() == 0 && b.len() == 0 {
        assert(a =~= b);
    }
}

/// Whether a character is white space.
fn space(c: char) -> (r: bool)
    ensures
        r == is_space(c),
{
    let n: u32 = c as u32;
    (n >= 0x09 && n <= 0x0d) || n == 0x20 || n == 0x85 || n == 0xa0 || n == 0x1680 || (n >= 0x2000
        && n <= 0x200a) || n == 0x2028 || n == 0x2029 || n == 0x202f || n == 0x205f || n == 0x3000
}

/// The characters of a text.
fn chars_vec(s: &str) -> (v: Vec<char>)
    ensures
        v@ == s@,
{
    let mut v: Vec<char> = Vec::new();
    for c in it: s.chars()
        invariant
            it.seq() == s@,
            v@ == s@.take(it.index()),
    {
        v.push(c);
        assert(v@ =~= s@.take(it.index() + 1));
    }
    assert(s@.take(s@.len() as int) =~= s@);
    v
}

/// The text of some characters.
fn string_of(v: &Vec<char>) -> (s: String)
    ensures
        s@ == v@,
{
    let mut s = String::new();
    let mut i: usize = 0;
    while i < v.len()
        invariant
            i <= v.len(),
            s@ == v@.take(i as int),
        decreases v.len() - i,
    {
        s.push(v[i]);
        assert(s@ =~= v@.take(i + 1));
        i = i + 1;
    }
    assert(v@.take(i as int) =~= v@);
    s
}

/// The text of some characters, without the white space at its ends.
fn trim(v: &Vec<char>) -> (s: String)
    ensures
        s@ == trimmed(v@),
{
    let mut from: usize = 0;
    let mut to: usize = v.len();
    assert(v@.subrange(0, v.len() as int) =~= v@);
    while from < to && space(v[from])
        invariant
            from <= to <= v.len(),
            trimmed(v@) == trimmed(v@.subrange(from as int, to as int)),
        decreases to - from,
    {
        assert(v@.subrange(from as int, to as int).skip(1) =~= v@.subrange(from + 1, to as int));
        from = from + 1;
    }
    while from < to && space(v[to - 1])
        invariant
            from <= to <= v.len(),
            from < to ==> !is_space(v@[from as int]),
            trimmed(v@) == trimmed(v@.subrange(from as int, to as int)),
        decreases to - from,
    {
        assert(v@.subrange(from as int, to as int).drop_last() =~= v@.subrange(from as int, to - 1));
        to = to - 1;
    }
    let mut s = String::new();
    let mut i: usize = from;
    while i < to
        invariant
            from <= i <= to <= v.len(),
            s@ == v@.subrange(from as int, i as int),
        decreases to - i,
    {
        s.push(v[i]);
        assert(s@ =~= v@.subrange(from as int, i + 1));
        i = i + 1;
    }
    s
}

/// Whether `a` comes before `b` alphabetically.
fn before(a: &Vec<char>, b: &Vec<char>) -> (r: bool)
    ensures
        r == lex_less(a@, b@),
{
    let mut i: usize = 0;
    assert(a@.skip(0) =~= a@ && b@.skip(0) =~= b@);
    while i < a.len() && i < b.len() && a[i] == b[i]
        invariant
            i <= a.len(),
            i <= b.len(),
            lex_less(a@, b@) == lex_less(a@.skip(i as int), b@.skip(i as int)),
        decreases a.len() - i,
    {
        assert(a@.skip(i as int).skip(1) =~= a@.skip(i + 1));
        assert(b@.skip(i as int).skip(1) =~= b@.skip(i + 1));
        i = i + 1;
    }
    if i >= b.len() {
        false
    } else if i >= a.len() {
        true
    } else {
        a[i] < b[i]
    }
}

/// Whether `a` ranks before `b`.
fn outranks(a: &Vec<char>, b: &Vec<char>) -> (r: bool)
    ensures
        r == ranks_before(a@, b@),
{
    a.len() > b.len() || (a.len() == b.len() && before(a, b))
}

/// The texts of a list of character vectors.
spec fn spelled(ws: Seq<Vec<char>>) -> Seq<Seq<char>> {
    Seq::new(ws.len(), |i: int| ws[i]@)
}

/// Adds a word to a ranked list, unless the list has it.
fn insert_ranked(ws: &mut Vec<Vec<char>>, w: Vec<char>)
    requires
        is_ranked(spelled(old(ws)@)),
    ensures
        is_ranked(spelled(final(ws)@)),
        forall|x: Seq<char>| #[trigger]
            spelled(final(ws)@).contains(x) <==> spelled(old(ws)@).contains(x) || x == w@,
{
    let ghost start = spelled(ws@);
    let ghost word = w@;
    let mut p: usize = 0;
    while p < ws.len() && outranks(&ws[p], &w)
        invariant
            p <= ws.len(),
            start == spelled(ws@),
            word == w@,
            forall|i: int| 0 <= i < p ==> ranks_before(#[trigger] start[i], word),
        decreases ws.len() - p,
    {
        assert(start[p as int] == ws@[p as int]@);
        p = p + 1;
    }
    if p < ws.len() && !outranks(&w, &ws[p]) {
        proof {
            lex_total(start[p as int], word);
            assert(start[p as int] == word);
        }
        return ;
    }
    ws.insert(p, w);
    proof {
        let now = spelled(ws@);
        assert(now =~= start.insert(p as int, word));
        assert forall|i: int, j: int| 0 <= i < j < now.len() implies ranks_before(
            #[trigger] now[i],
            #[trigger] now[j],
        ) by {
            let oi = if i < p { i } else { i - 1 };
            let oj = if j < p { j } else { j - 1 };
            if i == p {
                assert(ranks_before(word, start[p as int]));
                if oj > p {
                    assert(ranks_before(start[p as int], start[oj]));
                    if start[p as int].len() == word.len() && start[oj].len() == word.len() {
                        lex_transitive(word, start[p as int], start[oj]);
                    }
                }
            } else if j == p {
                assert(ranks_before(start[oi], word));
            } else {
                assert(ranks_before(start[oi], start[oj]));
            }
        }
        assert forall|x: Seq<char>| #[trigger] now.contains(x) implies start.contains(x) || x
            == word by {
            let k = now.index_of(x);
            if k < p {
                assert(start[k] == x);
            } else if k > p {
                assert(start[k - 1] == x);
            }
        }
        assert forall|x: Seq<char>| start.contains(x) || x == word implies #[trigger] now.contains(
            x,
        ) by {
            if x == word {
                assert(now[p as int] == x);
            } else {
                let k = start.index_of(x);
                if k < p {
                    assert(now[k] == x);
                } else {
                    assert(now[k + 1] == x);
                }
            }
        }
    }
}

/// Whether a word is made of hexadecimal digits.
fn hex_word(w: &Vec<char>) -> (r: bool)
    ensures
        r == is_hex_word(w@),
{
    let mut i: usize = 0;
    while i < w.len()
        invariant
            i <= w.len(),
            forall|k: int|
                0 <= k < i ==> ('0' <= #[trigger] w@[k] <= '9') || ('a' <= w@[k] <= 'f'),
        decreases w.len() - i,
    {
        let c: char = w[i];
        if !(('0' <= c && c <= '9') || ('a' <= c && c <= 'f')) {
            assert(w@[i as int] == c);
            return false;
        }
        i = i + 1;
    }
    true
}

/// There is always a piece.
pub proof fn some_piece(s: Seq<char>)
    ensures
        pieces(s).len() > 0,
    decreases s.len(),
{
    if s.len() > 0 {
        some_piece(s.drop_last());
    }
}

/// The pieces of an ASCII text are ASCII.
proof fn ascii_pieces(s: Seq<char>)
    requires
        vstd::utf8::is_ascii_chars(s),
    ensures
        forall|i: int|
            0 <= i < pieces(s).len() ==> vstd::utf8::is_ascii_chars(#[trigger] pieces(s)[i]),
    decreases s.len(),
{
    some_piece(s);
    if s.len() > 0 {
        some_piece(s.drop_last());
        assert(vstd::utf8::is_ascii_chars(s.drop_last()));
        ascii_pieces(s.drop_last());
        let p = pieces(s.drop_last());
        assert forall|i: int| 0 <= i < pieces(s).len() implies vstd::utf8::is_ascii_chars(
            #[trigger] pieces(s)[i],
        ) by {
            if i < p.len() - 1 {
                assert(pieces(s)[i] == p[i]);
            } else if s.last() != ',' {
                assert(pieces(s)[i] == p.last().push(s.last()));
                assert(vstd::utf8::is_ascii_chars(p[p.len() - 1]));
            } else if i == p.len() - 1 {
                assert(pieces(s)[i] == p[i]);
            }
        }
    }
}

/// An ASCII text without the white space at its ends is ASCII.
proof fn ascii_trimmed(s: Seq<char>)
    requires
        vstd::utf8::is_ascii_chars(s),
    ensures
        vstd::utf8::is_ascii_chars(trimmed(s)),
    decreases s.len(),
{
    if s.len() > 0 {
        assert(vstd::utf8::is_ascii_chars(s.skip(1)));
        assert(vstd::utf8::is_ascii_chars(s.drop_last()));
        ascii_trimmed(s.skip(1));
        ascii_trimmed(s.drop_last());
    }
}

/// An ASCII text lists its pieces with their letters in lower case.
proof fn ascii_text_lists_ascii(raw: Seq<char>)
    requires
        vstd::utf8::is_ascii_chars(raw),
        lists_ascii(raw),
    ensures
        listed(raw) == ascii_listed(raw),
{
    ascii_pieces(raw);
    assert forall|i: int| 0 <= i < pieces(raw).len() implies listed(raw)[i] == ascii_listed(
        raw,
    )[i] by {
        ascii_trimmed(pieces(raw)[i]);
    }
    assert(listed(raw) =~= ascii_listed(raw));
}

/// What a piece lists.
fn lower_piece(piece: &Vec<char>) -> (w: String)
    ensures
        w@ == lowercase_of(trimmed(piece@)),
        vstd::utf8::is_ascii_chars(trimmed(piece@)) ==> w@ == ascii_lower(trimmed(piece@)),
{
    let stripped = trim(piece);
    to_lowercase(&stripped)
}

/// What a comma-separated text lists.
pub fn split_list(raw: &str) -> (list: Vec<String>)
    ensures
        texts(list@) == listed(raw@),
        lists_ascii(raw@),
        vstd::utf8::is_ascii_chars(raw@) ==> texts(list@) == ascii_listed(raw@),
{
    let chars: Vec<char> = chars_vec(raw);
    let ghost lower = |p: Seq<char>| lowercase_of(trimmed(p));
    let mut list: Vec<String> = Vec::new();
    let mut piece: Vec<char> = Vec::new();
    let mut i: usize = 0;
    assert(texts(list@) =~= pieces(chars@.take(0)).drop_last().map_values(lower));
    while i < chars.len()
        invariant
            i <= chars.len(),
            lower == (|p: Seq<char>| lowercase_of(trimmed(p))),
            piece@ == pieces(chars@.take(i as int)).last(),
            texts(list@) == pieces(chars@.take(i as int)).drop_last().map_values(lower),
            forall|k: int|
                0 <= k < list@.len() && vstd::utf8::is_ascii_chars(
                    trimmed(#[trigger] pieces(chars@.take(i as int))[k]),
                ) ==> list@[k]@ == ascii_lower(trimmed(pieces(chars@.take(i as int))[k])),
        decreases chars.len() - i,
    {
        let ghost p = pieces(chars@.take(i as int));
        let ghost q = pieces(chars@.take(i + 1));
        let ghost start = list@;
        proof {
            some_piece(chars@.take(i as int));
            assert(chars@.take(i + 1).drop_last() =~= chars@.take(i as int));
        }
        if chars[i] == ',' {
            let w = lower_piece(&piece);
            list.push(w);
            piece = Vec::new();
            proof {
                assert(q.drop_last() =~= p);
                assert(texts(list@) =~= texts(start).push(w@));
                assert(texts(start).len() == p.len() - 1);
                assert forall|k: int|
                    0 <= k < list@.len() && vstd::utf8::is_ascii_chars(
                        trimmed(#[trigger] q[k]),
                    ) implies list@[k]@ == ascii_lower(trimmed(q[k])) by {
                    assert(q[k] == p[k]);
                    if k < start.len() {
                        assert(list@[k] == start[k]);
                    }
                }
                assert(p.map_values(lower) =~= p.drop_last().map_values(lower).push(w@));
            }
        } else {
            piece.push(chars[i]);
            proof {
                assert(q.drop_last() =~= p.drop_last());
                assert(texts(start).len() == p.len() - 1);
                assert forall|k: int|
                    0 <= k < list@.len() && vstd::utf8::is_ascii_chars(
                        trimmed(#[trigger] q[k]),
                    ) implies list@[k]@ == ascii_lower(trimmed(q[k])) by {
                    assert(q[k] == p[k]);
                }
            }
        }
        i = i + 1;
    }
    let ghost start = list@;
    let w = lower_piece(&piece);
    list.push(w);
    proof {
        some_piece(raw@);
        assert(chars@.take(i as int) =~= raw@);
        assert(texts(list@) =~= texts(start).push(w@));
        assert(listed(raw@) =~= pieces(raw@).drop_last().map_values(lower).push(w@));
        let p = pieces(raw@);
        assert(texts(start).len() == p.len() - 1);
        assert forall|k: int|
            0 <= k < p.len() && vstd::utf8::is_ascii_chars(
                trimmed(#[trigger] p[k]),
            ) implies listed(raw@)[k] == ascii_lower(trimmed(p[k])) by {
            assert(texts(list@)[k] == list@[k]@);
            if k < start.len() {
                assert(list@[k] == start[k]);
            }
        }
        if vstd::utf8::is_ascii_chars(raw@) {
            ascii_text_lists_ascii(raw@);
        }
    }
    list
}

/// The words of a list, each once, in order of rank.
fn collect(list: &[String]) -> (ws: Vec<Vec<char>>)
    ensures
        is_ranked(spelled(ws@)),
        forall|w: Seq<char>| #[trigger]
            spelled(ws@).contains(w) <==> is_word_in(texts(list@), w),
{
    let ghost all = texts(list@);
    let mut ws: Vec<Vec<char>> = Vec::new();
    let mut i: usize = 0;
    proof {
        assert(all.take(0) =~= Seq::<Seq<char>>::empty());
        assert(spelled(ws@) =~= Seq::<Seq<char>>::empty());
    }
    while i < list.len()
        invariant
            i <= list@.len(),
            all == texts(list@),
            is_ranked(spelled(ws@)),
            forall|w: Seq<char>| #[trigger]
                spelled(ws@).contains(w) <==> is_word_in(all.take(i as int), w),
        decreases list@.len() - i,
    {
        let ghost start = spelled(ws@);
        let chars: Vec<char> = chars_vec(&list[i]);
        let ghost word = chars@;
        if chars.len() > 0 {
            insert_ranked(&mut ws, chars);
        }
        proof {
            assert(all.take(i + 1) =~= all.take(i as int).push(word));
            assert forall|w: Seq<char>| #[trigger] spelled(ws@).contains(w) <==> is_word_in(
                all.take(i + 1),
                w,
            ) by {
                one_more(all.take(i as int), word, w);
                assert(start.contains(w) <==> is_word_in(all.take(i as int), w));
            }
        }
        i = i + 1;
    }
    assert(all.take(i as int) =~= all);
    ws
}

/// A list with one more text has one more member.
proof fn one_more(list: Seq<Seq<char>>, x: Seq<char>, w: Seq<char>)
    ensures
        list.push(x).contains(w) <==> list.contains(w) || w == x,
{
    let now = list.push(x);
    if now.contains(w) {
        let k = now.index_of(w);
        if k < list.len() {
            assert(list[k] == w);
        }
    }
    if list.contains(w) {
        let k = list.index_of(w);
        assert(now[k] == w);
    }
    assert(now[list.len() as int] == x);
}

/// The alphabetically first of the words that no address can spell.
fn first_bad(ws: &Vec<Vec<char>>) -> (r: Option<usize>)
    ensures
        match r {
            Some(b) => b < ws.len() && !is_mineable(ws@[b as int]@) && (forall|i: int|
                0 <= i < ws@.len() && !is_mineable((#[trigger] ws@[i])@) ==> !lex_less(
                    ws@[i]@,
                    ws@[b as int]@,
                )),
            None => forall|i: int| 0 <= i < ws@.len() ==> is_mineable((#[trigger] ws@[i])@),
        },
{
    let mut bad: Option<usize> = None;
    let mut i: usize = 0;
    while i < ws.len()
        invariant
            i <= ws.len(),
            match bad {
                Some(b) => b < i && !is_mineable(ws@[b as int]@) && (forall|k: int|
                    0 <= k < i && !is_mineable((#[trigger] ws@[k])@) ==> !lex_less(
                        ws@[k]@,
                        ws@[b as int]@,
                    )),
                None => forall|k: int| 0 <= k < i ==> is_mineable((#[trigger] ws@[k])@),
            },
        decreases ws.len() - i,
    {
        if !hex_word(&ws[i]) || ws[i].len() > 18 {
            match bad {
                Some(b) => {
                    if before(&ws[i], &ws[b]) {
                        proof {
                            let (x, y) = (ws@[i as int]@, ws@[b as int]@);
                            lex_irreflexive(x);
                            assert forall|k: int|
                                0 <= k < i + 1 && !is_mineable((#[trigger] ws@[k])@) implies !lex_less(
                                ws@[k]@,
                                x,
                            ) by {
                                if lex_less(ws@[k]@, x) {
                                    lex_transitive(ws@[k]@, x, y);
                                }
                            }
                        }
                        bad = Some(i);
                    }
                },
                None => {
                    proof {
                        lex_irreflexive(ws@[i as int]@);
                    }
                    bad = Some(i);
                },
            }
        }
        i = i + 1;
    }
    bad
}

/// What is said of a word that no address can spell.
fn complain(w: &Vec<char>) -> (e: String)
    ensures
        e@ == complaint(w@),
{
    let word = string_of(w);
    if !hex_word(w) {
        let mut e = "not hex-expressible: ".to_owned();
        e.append(&word);
        e.append(" (only 0-9 a-f; leetspeak helps: o=0 l/i=1 s=5 t=7 g=6 z=2)");
        e
    } else {
        let mut e = "longer than the 18-char window: ".to_owned();
        e.append(&word);
        e
    }
}

/// Whether a word is the alphabetically first of those in a list that no address
/// can spell.
pub open spec fn is_first_bad(list: Seq<Seq<char>>, w: Seq<char>) -> bool {
    &&& is_word_in(list, w)
    &&& !is_mineable(w)
    &&& forall|v: Seq<char>| #[trigger]
        is_word_in(list, v) && !is_mineable(v) ==> !lex_less(v, w)
}

/// Whether a list of words is ranked, or what is said against it: that it holds
/// no word, or a word that no address can spell, the alphabetically first.
pub open spec fn is_ranking_of(r: Result<Vec<String>, String>, list: Seq<Seq<char>>) -> bool {
    match r {
        Ok(words) => {
            &&& words@.len() > 0
            &&& is_ranked(texts(words@))
            &&& forall|w: Seq<char>| #[trigger]
                texts(words@).contains(w) <==> is_word_in(list, w)
            &&& forall|w: Seq<char>| #[trigger] is_word_in(list, w) ==> is_mineable(w)
        },
        Err(e) => {
            ||| (forall|w: Seq<char>| !is_word_in(list, w)) && e@ == "no words given"@
            ||| exists|w: Seq<char>| #[trigger] is_first_bad(list, w) && e@ == complaint(w)
        },
    }
}

/// Reads a comma-separated word list: lowercase, each word once, longest first
/// so longer words win matching ties, words of one length alphabetically.
pub fn parse_words(raw: &str) -> (r: Result<Vec<String>, String>)
    ensures
        is_ranking_of(r, listed(raw@)),
        lists_ascii(raw@),
        vstd::utf8::is_ascii_chars(raw@) ==> is_ranking_of(r, ascii_listed(raw@)),
{
    rank_words(&split_list(raw))
}

/// Ranks the words of a list, each once.
pub fn rank_words(list: &[String]) -> (r: Result<Vec<String>, String>)
    ensures
        is_ranking_of(r, texts(list@)),
{
    let ghost all = texts(list@);
    let ws: Vec<Vec<char>> = collect(list);
    if ws.len() == 0 {
        proof {
            assert forall|w: Seq<char>| !is_word_in(all, w) by {
                assert(!spelled(ws@).contains(w));
            }
        }
        return Err("no words given".to_owned());
    }
    match first_bad(&ws) {
        Some(b) => {
            proof {
                let w = ws@[b as int]@;
                assert(spelled(ws@)[b as int] == w);
                assert(spelled(ws@).contains(w));
                assert(is_word_in(all, w));
                assert forall|v: Seq<char>| #[trigger]
                    is_word_in(all, v) && !is_mineable(v) implies !lex_less(v, w) by {
                    assert(spelled(ws@).contains(v));
                    let k = spelled(ws@).index_of(v);
                    assert(ws@[k]@ == v);
                }
                assert(is_first_bad(all, w));
            }
            return Err(complain(&ws[b]));
        },
        None => {},
    }
    let mut words: Vec<String> = Vec::new();
    let mut i: usize = 0;
    while i < ws.len()
        invariant
            i <= ws.len(),
            words.len() == i,
            forall|k: int| 0 <= k < i ==> (#[trigger] words@[k])@ == ws@[k]@,
        decreases ws.len() - i,
    {
        words.push(string_of(&ws[i]));
        i = i + 1;
    }
    proof {
        assert(texts(words@) =~= spelled(ws@));
        assert forall|w: Seq<char>| #[trigger] is_word_in(all, w) implies is_mineable(w) by {
            assert(spelled(ws@).contains(w));
            let k = spelled(ws@).index_of(w);
            assert(ws@[k]@ == w);
        }
    }
    Ok(words)
}

/// Of two lists that start alike, what stands behind the start of the ranked one and
/// is in the other stands behind the start there too.
proof fn member_of_rest(a: Seq<Seq<char>>, b: Seq<Seq<char>>, k: int)
    requires
        is_ranked(a),
        0 < k < a.len(),
        b.len() > 0,
        a[0] == b[0],
        b.contains(a[k]),
    ensures
        b.skip(1).contains(a[k]),
{
    let w = a[k];
    assert(ranks_before(a[0], a[k]));
    lex_irreflexive(a[0]);
    assert(w != b[0]);
    let l = b.index_of(w);
    assert(b[l] == w);
    assert(l > 0);
    assert(b.skip(1)[l - 1] == w);
}

/// A ranked list is settled by what it holds: there is one order for each word list.
pub proof fn one_ranking(a: Seq<Seq<char>>, b: Seq<Seq<char>>)
    requires
        is_ranked(a),
        is_ranked(b),
        forall|w: Seq<char>| #[trigger] a.contains(w) <==> b.contains(w),
    ensures
        a == b,
    decreases a.len(),
{
    if a.len() == 0 {
        if b.len() > 0 {
            assert(b.contains(b[0]));
            assert(a.contains(b[0]));
        }
        assert(a =~= b);
    } else {
        lex_irreflexive(a[0]);
        lex_irreflexive(b[0]);
        assert(a.contains(a[0]));
        assert(b.contains(a[0]));
        assert(b.contains(b[0]));
        assert(a.contains(b[0]));
        let i = b.index_of(a[0]);
        let j = a.index_of(b[0]);
        if i > 0 {
            assert(ranks_before(b[0], b[i]));
            assert(j > 0);
            assert(ranks_before(a[0], a[j]));
            lex_transitive(a[0], b[0], a[0]);
        }
        assert(a[0] == b[0]);
        let (ra, rb) = (a.skip(1), b.skip(1));
        assert(is_ranked(ra)) by {
            assert forall|x: int, y: int| 0 <= x < y < ra.len() implies ranks_before(
                #[trigger] ra[x],
                #[trigger] ra[y],
            ) by {
                assert(ranks_before(a[x + 1], a[y + 1]));
            }
        }
        assert(is_ranked(rb)) by {
            assert forall|x: int, y: int| 0 <= x < y < rb.len() implies ranks_before(
                #[trigger] rb[x],
                #[trigger] rb[y],
            ) by {
                assert(ranks_before(b[x + 1], b[y + 1]));
            }
        }
        assert forall|w: Seq<char>| #[trigger] ra.contains(w) <==> rb.contains(w) by {
            if ra.contains(w) {
                let k = ra.index_of(w);
                assert(a[k + 1] == w);
                assert(a.contains(w));
                assert(b.contains(w));
                member_of_rest(a, b, k + 1);
            }
            if rb.contains(w) {
                let k = rb.index_of(w);
                assert(b[k + 1] == w);
                assert(b.contains(w));
                assert(a.contains(w));
                member_of_rest(b, a, k + 1);
            }
        }
        one_ranking(ra, rb);
        assert(a =~= seq![a[0]] + ra);
        assert(b =~= seq![b[0]] + rb);
    }
}

/// `16` to the power of `n`.
pub open spec fn pow16(n: nat) -> nat
    decreases n,
{
    if n == 0 {
        1
    } else {
        16 * pow16((n - 1) as nat)
    }
}

/// A probability: `numerator` in `16` to the power of `exponent`.
#[derive(Clone, Copy, PartialEq, Eq, Structural, Debug)]
pub struct Odds {
    pub numerator: u64,
    pub exponent: usize,
}

/// How many places count for a word: one end, both, or all of the window.
pub open spec fn placements(len: int, positions: Positions, inner_min: int) -> int {
    match positions {
        Positions::Prefix | Positions::Suffix => 1,
        Positions::Ends => 2,
        Positions::Any => if len >= inner_min {
            19 - len
        } else {
            2
        },
    }
}

/// The probability that a salt spells a word of length `len`: one in
/// `16` to the power of `len` for each placement. Where both ends count and
/// have room side by side, the case that both match is taken off once. A word
/// of the full window has one placement, whatever counts.
pub open spec fn odds_of(len: nat, positions: Positions, inner_min: int) -> (int, nat) {
    let places = placements(len as int, positions, inner_min);
    if len == 18 {
        (1, 18)
    } else if places > 1 && 2 * len <= 18 {
        (places * pow16(len) - 1, 2 * len)
    } else {
        (places, len)
    }
}

proof fn pow16_bounds(n: nat)
    requires
        n <= 9,
    ensures
        1 <= pow16(n) <= 0x10_0000_0000,
{
    reveal_with_fuel(pow16, 10);
}

/// The probability that a salt spells a word of length `len`. The search is
/// memoryless, so callers must present its inverse as an average interval,
/// never a countdown.
pub fn hit_odds(len: usize, positions: Positions, inner_min: usize) -> (odds: Odds)
    requires
        positions == Positions::Any && len >= inner_min ==> len <= 18,
    ensures
        (odds.numerator as int, odds.exponent as nat) == odds_of(
            len as nat,
            positions,
            inner_min as int,
        ),
        odds.numerator > 0,
{
    if len == 18 {
        // prefix, suffix, and inner are all the same single placement
        return Odds { numerator: 1, exponent: 18 };
    }
    let places: u64 = match positions {
        Positions::Prefix => 1,
        Positions::Suffix => 1,
        Positions::Ends => 2,
        Positions::Any => if len >= inner_min {
            (19 - len) as u64
        } else {
            2
        },
    };
    if places > 1 && len <= 9 {
        let mut power: u64 = 1;
        let mut n: usize = 0;
        while n < len
            invariant
                n <= len <= 9,
                power == pow16(n as nat),
            decreases len - n,
        {
            proof {
                pow16_bounds(n as nat);
            }
            power = 16 * power;
            n = n + 1;
        }
        proof {
            pow16_bounds(len as nat);
            assert(1 <= places * power <= 19 * 0x10_0000_0000) by (nonlinear_arith)
                requires
                    1 <= places <= 19,
                    1 <= power <= 0x10_0000_0000,
            ;
            assert(places * power > 1) by (nonlinear_arith)
                requires
                    places > 1,
                    power >= 1,
            ;
        }
        Odds { numerator: places * power - 1, exponent: 2 * len }
    } else {
        Odds { numerator: places, exponent: len }
    }
}

/// At one end, each character more makes a word sixteen times rarer.
pub proof fn one_more_character(len: nat, positions: Positions, inner_min: int)
    requires
        positions == Positions::Prefix || positions == Positions::Suffix,
    ensures
        odds_of(len, positions, inner_min) == (1int, len),
        odds_of(len + 1, positions, inner_min) == (1int, len + 1),
        pow16(len + 1) == 16 * pow16(len),
{
}

} // verus!
