//! What is found in a window, and where.

use crate::hits;
use crate::laws::lists;
use crate::mine;
use crate::mine::{Matcher, Pos};
use crate::words;
use crate::words::Positions;
use vstd::prelude::*;

verus! {

/// Whether a word sits in a window at a position where it counts: at the front,
/// unless only the end counts; at the end, unless only the front counts; or anywhere,
/// where all of the window counts and the word is long enough.
pub open spec fn sits(
    w: Seq<char>,
    tail: Seq<u8>,
    positions: Positions,
    inner_min: int,
    pos: Pos,
) -> bool {
    let b = vstd::utf8::encode_utf8(w);
    let n = b.len();
    &&& n <= tail.len()
    &&& match pos {
        Pos::Prefix => positions != Positions::Suffix && tail.take(n as int) == b,
        Pos::Suffix => positions != Positions::Prefix && tail.skip(tail.len() - n) == b,
        Pos::Inner => positions == Positions::Any && n >= inner_min && exists|k: int|
            0 <= k <= tail.len() - n && #[trigger] tail.subrange(k, k + n) == b,
    }
}

/// A word is placed where it sits.
proof fn sits_where_placed(
    w: Seq<char>,
    tail: Seq<u8>,
    positions: Positions,
    inner_min: int,
    pos: Pos,
)
    ensures
        sits(w, tail, positions, inner_min, pos) <==> hits::is_placed(
            w,
            tail,
            positions,
            inner_min,
            pos,
        ),
{
    let b = mine::word_bytes(w);
    let n = b.len() as int;
    if n <= tail.len() {
        assert(tail.subrange(0, n) =~= tail.take(n));
        assert(tail.subrange(tail.len() - n, tail.len() as int) =~= tail.skip(tail.len() - n));
    }
    if pos == Pos::Inner {
        if sits(w, tail, positions, inner_min, pos) {
            let k = choose|k: int|
                0 <= k <= tail.len() - n && #[trigger] tail.subrange(k, k + n) == b;
            assert(mine::stands_at(b, tail, k));
        }
        if hits::is_placed(w, tail, positions, inner_min, pos) {
            let k = choose|k: int| #[trigger] mine::stands_at(b, tail, k);
            assert(tail.subrange(k, k + n) == b);
        }
    }
}

/// What is found is a word of the list that sits where it says.
pub proof fn found_words_sit_there(
    list: &[String],
    positions: Positions,
    inner_min: usize,
    m: &Matcher,
    tail: &[u8; 18],
    pos: Pos,
    w: &str,
)
    requires
        call_ensures(Matcher::new, (list, positions, inner_min), *m),
        call_ensures(Matcher::find, (m, tail), Some((pos, w))),
    ensures
        exists|i: int| 0 <= i < list@.len() && (#[trigger] list@[i])@ == w@,
        sits(w@, tail@, positions, inner_min as int, pos),
{
    let ws = words::texts(list@);
    hits::hits_are_the_placed_words(ws, positions, inner_min as int, tail@);
    sits_where_placed(w@, tail@, positions, inner_min as int, pos);
    let i = ws.index_of(w@);
    assert(list@[i]@ == w@);
}

/// Nothing is found only where no word of the list sits anywhere.
pub proof fn every_sitting_word_is_found(
    list: &[String],
    positions: Positions,
    inner_min: usize,
    m: &Matcher,
    tail: &[u8; 18],
    r: Option<(Pos, &str)>,
    i: int,
    pos: Pos,
)
    requires
        call_ensures(Matcher::new, (list, positions, inner_min), *m),
        call_ensures(Matcher::find, (m, tail), r),
        0 <= i < list@.len(),
        sits(list@[i]@, tail@, positions, inner_min as int, pos),
    ensures
        r is Some,
{
    let ws = words::texts(list@);
    hits::hits_are_the_placed_words(ws, positions, inner_min as int, tail@);
    sits_where_placed(list@[i]@, tail@, positions, inner_min as int, pos);
    assert(ws[i] == list@[i]@);
    assert(ws.contains(list@[i]@));
}

/// The front comes before the end, and the end before the inside.
pub open spec fn comes_before(a: Pos, b: Pos) -> bool {
    match (a, b) {
        (Pos::Prefix, Pos::Suffix) => true,
        (Pos::Prefix, Pos::Inner) => true,
        (Pos::Suffix, Pos::Inner) => true,
        _ => false,
    }
}

/// Of all words that sit somewhere, the one that is found sits foremost in that
/// order. At one position, of a list such as `parse_words` gives it, it is a longest
/// one, and the alphabetically first of those.
pub proof fn the_best_word_is_found(
    list: &[String],
    positions: Positions,
    inner_min: usize,
    m: &Matcher,
    tail: &[u8; 18],
    pos: Pos,
    w: &str,
    i: int,
    other: Pos,
)
    requires
        call_ensures(Matcher::new, (list, positions, inner_min), *m),
        call_ensures(Matcher::find, (m, tail), Some((pos, w))),
        0 <= i < list@.len(),
        sits(list@[i]@, tail@, positions, inner_min as int, other),
    ensures
        other == pos || comes_before(pos, other),
        other == pos && words::is_ranked(words::texts(list@)) ==> {
            let v = list@[i]@;
            v == w@ || v.len() < w@.len() || v.len() == w@.len() && exists|k: int| #[trigger]
                lists::differs_first(w@, v, k)
        },
{
    let ws = words::texts(list@);
    let v = list@[i]@;
    assert(ws[i] == v);
    assert(ws.contains(v));
    sits_where_placed(v, tail@, positions, inner_min as int, other);
    hits::earlier_positions_win(ws, positions, inner_min as int, tail@, pos, w@, other, v);
    if other == pos && words::is_ranked(ws) {
        hits::longest_word_wins(ws, positions, inner_min as int, tail@, pos, w@, v);
        lists::order_is_alphabetical(w@, v);
    }
}

/// A salt is tried against the text of its tail: there is a hit exactly if something
/// is found in it, and the hit says what and where.
pub proof fn a_salt_is_tried_by_its_tail(
    m: &Matcher,
    deployer: &[u8; 20],
    salt: u128,
    r: Option<mine::RawHit>,
    tail: [u8; 9],
    hex: &[u8; 18],
    found: Option<(Pos, &str)>,
)
    requires
        call_ensures(mine::try_salt, (m, deployer, salt), r),
        call_ensures(crate::b20::tail, (deployer, salt), tail),
        hex@ == crate::text::hex_of(tail@),
        call_ensures(Matcher::find, (m, hex), found),
    ensures
        r is Some <==> found is Some,
        r matches Some(h) ==> h.salt == salt && h.tail@ == tail@,
        r matches Some(h) ==> (found matches Some(f) ==> h.pos == f.0 && h.word@ == f.1@),
{
}

/// A matcher keeps its list: as many words, each under its number.
pub proof fn matchers_keep_the_list(
    list: &[String],
    positions: Positions,
    inner_min: usize,
    m: &Matcher,
    n: usize,
    i: usize,
    w: Option<&str>,
)
    requires
        call_ensures(Matcher::new, (list, positions, inner_min), *m),
        call_ensures(Matcher::word_count, (m,), n),
        call_ensures(Matcher::word, (m, i), w),
    ensures
        n == list@.len(),
        w is Some <==> i < list@.len(),
        w matches Some(t) ==> t@ == list@[i as int]@,
{
    let ws = words::texts(list@);
    assert(ws.len() == list@.len());
    if i < list@.len() {
        assert(ws[i as int] == list@[i as int]@);
    }
}

/// The front counts unless only the end does, and the end unless only the front does.
pub proof fn ends_that_count(
    list: &[String],
    positions: Positions,
    inner_min: usize,
    m: &Matcher,
    ends: (bool, bool),
)
    requires
        call_ensures(Matcher::new, (list, positions, inner_min), *m),
        call_ensures(Matcher::ends, (m,), ends),
    ensures
        ends == match positions {
            Positions::Prefix => (true, false),
            Positions::Suffix => (false, true),
            Positions::Ends => (true, true),
            Positions::Any => (true, true),
        },
{
}

/// The words that count inside the window are, where all of it counts, those of the
/// list with the inner minimum of characters; else there are none.
pub proof fn words_that_count_inside(
    list: &[String],
    positions: Positions,
    inner_min: usize,
    m: &Matcher,
    i: usize,
    w: &str,
)
    requires
        call_ensures(Matcher::new, (list, positions, inner_min), *m),
        call_ensures(Matcher::inner_word, (m, i), Some(w)),
    ensures
        positions == Positions::Any,
        vstd::utf8::encode_utf8(w@).len() >= inner_min,
        exists|k: int| 0 <= k < list@.len() && (#[trigger] list@[k])@ == w@,
{
    let ws = words::texts(list@);
    mine::long_enough_are_words(ws, inner_min as int);
    let inner = m.search().inner;
    assert(inner.contains(inner[i as int]));
    let k = ws.index_of(w@);
    assert(list@[k]@ == w@);
}

/// Whether a matcher gives a text when it is asked for word `i` of those that count
/// inside the window.
pub open spec fn gives_inside(m: &Matcher, i: usize, text: Seq<char>) -> bool {
    forall|w: Option<&str>| #[trigger]
        call_ensures(Matcher::inner_word, (m, i), w) ==> (w matches Some(t) && t@ == text)
}

/// Every word of the list with the inner minimum of characters counts inside the
/// window, where all of it counts.
pub proof fn long_words_count_inside(
    list: &[String],
    inner_min: usize,
    m: &Matcher,
    k: int,
    last: usize,
)
    requires
        call_ensures(Matcher::new, (list, Positions::Any, inner_min), *m),
        0 <= k < list@.len(),
        vstd::utf8::encode_utf8(list@[k]@).len() >= inner_min,
        call_ensures(Matcher::inner_word, (m, last), None),
    ensures
        exists|i: usize| i < last && #[trigger] gives_inside(m, i, list@[k]@),
{
    let ws = words::texts(list@);
    mine::long_enough_are_words(ws, inner_min as int);
    assert(ws[k] == list@[k]@);
    assert(ws.contains(list@[k]@));
    let inner = m.search().inner;
    assert(inner.contains(list@[k]@));
    let j = inner.index_of(list@[k]@);
    assert(inner[j] == list@[k]@);
    let i = j as usize;
    assert(gives_inside(m, i, list@[k]@));
}

} // verus!
