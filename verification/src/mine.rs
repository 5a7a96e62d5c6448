//! What counts as a hit, and how a hit is recorded.

use crate::b20;
use crate::text;
use crate::words;
use crate::words::Positions;
use std::path::PathBuf;
use vstd::prelude::*;

verus! {

/// Where in the window a word was found.
#[derive(Clone, Copy, PartialEq, Eq, Structural, Debug)]
pub enum Pos {
    Prefix,
    Suffix,
    Inner,
}

impl Pos {
    /// The name of a position.
    pub open spec fn name(self) -> Seq<char> {
        match self {
            Pos::Prefix => "prefix"@,
            Pos::Suffix => "suffix"@,
            Pos::Inner => "inner"@,
        }
    }

    /// The name of a position.
    pub fn as_str(&self) -> (s: &'static str)
        ensures
            s@ == self.name(),
    {
        match self {
            Pos::Prefix => "prefix",
            Pos::Suffix => "suffix",
            Pos::Inner => "inner",
        }
    }

    /// The number of a position, in order of precedence.
    pub open spec fn number(self) -> u32 {
        match self {
            Pos::Prefix => 0,
            Pos::Suffix => 1,
            Pos::Inner => 2,
        }
    }

    /// The number of a position.
    pub fn code(&self) -> (n: u32)
        ensures
            n == self.number(),
    {
        match self {
            Pos::Prefix => 0,
            Pos::Suffix => 1,
            Pos::Inner => 2,
        }
    }
}

/// Whether the bytes `w` stand in `tail` from `k` on.
pub open spec fn stands_at(w: Seq<u8>, tail: Seq<u8>, k: int) -> bool {
    0 <= k && k + w.len() <= tail.len() && tail.subrange(k, k + w.len()) == w
}

/// Whether the bytes `w` stand in `tail` at a position: at its front, at its
/// end, or anywhere.
pub open spec fn fits(w: Seq<u8>, tail: Seq<u8>, pos: Pos) -> bool {
    match pos {
        Pos::Prefix => stands_at(w, tail, 0),
        Pos::Suffix => stands_at(w, tail, tail.len() - w.len()),
        Pos::Inner => exists|k: int| #[trigger] stands_at(w, tail, k),
    }
}

/// The bytes of a word.
pub open spec fn word_bytes(w: Seq<char>) -> Seq<u8> {
    vstd::utf8::encode_utf8(w)
}

/// The first word of a list that stands in `tail` at a position.
pub open spec fn first_fit(ws: Seq<Seq<char>>, tail: Seq<u8>, pos: Pos) -> Option<Seq<char>>
    decreases ws.len(),
{
    if ws.len() == 0 {
        None
    } else if fits(word_bytes(ws[0]), tail, pos) {
        Some(ws[0])
    } else {
        first_fit(ws.skip(1), tail, pos)
    }
}

/// The words that are long enough to count inside the window.
pub open spec fn long_enough(ws: Seq<Seq<char>>, min: int) -> Seq<Seq<char>>
    decreases ws.len(),
{
    if ws.len() == 0 {
        Seq::empty()
    } else if word_bytes(ws.last()).len() >= min {
        long_enough(ws.drop_last(), min).push(ws.last())
    } else {
        long_enough(ws.drop_last(), min)
    }
}

/// What a word list is searched for: the words, which of them count inside the
/// window, and which ends count.
#[verifier::ext_equal]
pub struct Search {
    pub words: Seq<Seq<char>>,
    pub inner: Seq<Seq<char>>,
    pub prefix: bool,
    pub suffix: bool,
}

/// The search that a word list, the positions and the inner minimum ask for.
pub open spec fn search_for(ws: Seq<Seq<char>>, positions: Positions, inner_min: int) -> Search {
    Search {
        words: ws,
        inner: if positions == Positions::Any {
            long_enough(ws, inner_min)
        } else {
            Seq::empty()
        },
        prefix: positions != Positions::Suffix,
        suffix: positions != Positions::Prefix,
    }
}

/// At most one hit per tail: prefix, then suffix, then inner; at each, the
/// first word of the list that fits.
pub open spec fn hit_in(search: Search, tail: Seq<u8>) -> Option<(Pos, Seq<char>)> {
    if search.prefix && first_fit(search.words, tail, Pos::Prefix) is Some {
        Some((Pos::Prefix, first_fit(search.words, tail, Pos::Prefix)->0))
    } else if search.suffix && first_fit(search.words, tail, Pos::Suffix) is Some {
        Some((Pos::Suffix, first_fit(search.words, tail, Pos::Suffix)->0))
    } else if first_fit(search.inner, tail, Pos::Inner) is Some {
        Some((Pos::Inner, first_fit(search.inner, tail, Pos::Inner)->0))
    } else {
        None
    }
}

/// How a matcher looks for its words.
enum Kind {
    /// All words share one length and inner matching is off: binary search per end.
    Uniform { len: usize, sorted: Vec<String> },
    /// Scans in the order of the list, then inner scan.
    General { inner: Vec<String> },
}

/// Finds the words of a list in the hexadecimal text of a tail.
pub struct Matcher {
    words: Vec<String>,
    kind: Kind,
    check_prefix: bool,
    check_suffix: bool,
}

/// A list of strings in byte order.
spec fn in_order(ws: Seq<String>) -> bool {
    forall|i: int, j: int|
        0 <= i <= j < ws.len() ==> b20::be_value(word_bytes((#[trigger] ws[i])@)) <= b20::be_value(
            word_bytes((#[trigger] ws[j])@),
        )
}

impl Matcher {
    /// What the matcher searches for.
    pub closed spec fn search(&self) -> Search {
        Search {
            words: words::texts(self.words@),
            inner: match self.kind {
                Kind::Uniform { len, sorted } => Seq::empty(),
                Kind::General { inner } => words::texts(inner@),
            },
            prefix: self.check_prefix,
            suffix: self.check_suffix,
        }
    }

    #[verifier::type_invariant]
    spec fn wf(&self) -> bool {
        match self.kind {
            Kind::Uniform { len, sorted } => {
                &&& forall|i: int|
                    0 <= i < self.words@.len() ==> word_bytes((#[trigger] self.words@[i])@).len()
                        == len
                &&& in_order(sorted@)
                &&& forall|w: Seq<char>| #[trigger]
                    words::texts(sorted@).contains(w) <==> words::texts(self.words@).contains(w)
            },
            Kind::General { inner } => forall|w: Seq<char>| #[trigger]
                words::texts(inner@).contains(w) ==> words::texts(self.words@).contains(w),
        }
    }
}

/// Bytes of one length are ordered as the numbers they stand for: the first
/// difference decides.
proof fn first_difference_decides(a: Seq<u8>, b: Seq<u8>, k: int)
    requires
        a.len() == b.len(),
        0 <= k < a.len(),
        a.take(k) == b.take(k),
        a[k] < b[k],
    ensures
        b20::be_value(a) < b20::be_value(b),
    decreases a.len(),
{
    let (pa, pb) = (a.drop_last(), b.drop_last());
    if k == a.len() - 1 {
        assert(pa =~= a.take(k));
        assert(pb =~= b.take(k));
    } else {
        assert(pa.take(k) =~= a.take(k));
        assert(pb.take(k) =~= b.take(k));
        first_difference_decides(pa, pb, k);
    }
}

/// Bytes of one length that stand for one number are the same.
proof fn value_settles_bytes(a: Seq<u8>, b: Seq<u8>)
    requires
        a.len() == b.len(),
        b20::be_value(a) == b20::be_value(b),
    ensures
        a == b,
    decreases a.len(),
{
    if a.len() > 0 {
        assert(a.last() == b20::be_value(a) % 256);
        assert(b.last() == b20::be_value(b) % 256);
        value_settles_bytes(a.drop_last(), b.drop_last());
        assert(a =~= a.drop_last().push(a.last()));
        assert(b =~= b.drop_last().push(b.last()));
    } else {
        assert(a =~= b);
    }
}

/// Whether `a` stands for a smaller number than `b`.
fn smaller(a: &[u8], b: &[u8]) -> (r: bool)
    requires
        a@.len() == b@.len(),
    ensures
        r == (b20::be_value(a@) < b20::be_value(b@)),
{
    let n: usize = a.len();
    let mut i: usize = 0;
    while i < n
        invariant
            n == a@.len() == b@.len(),
            i <= n,
            a@.take(i as int) == b@.take(i as int),
        decreases n - i,
    {
        if a[i] < b[i] {
            proof {
                first_difference_decides(a@, b@, i as int);
            }
            return true;
        }
        if b[i] < a[i] {
            proof {
                first_difference_decides(b@, a@, i as int);
            }
            return false;
        }
        assert(a@.take(i + 1) =~= a@.take(i as int).push(a@[i as int]));
        assert(b@.take(i + 1) =~= b@.take(i as int).push(b@[i as int]));
        i = i + 1;
    }
    assert(a@.take(i as int) =~= a@);
    assert(b@.take(i as int) =~= b@);
    false
}

/// How many words of a list in order come before some bytes.
fn lower_bound(ws: &Vec<String>, key: &[u8]) -> (p: usize)
    requires
        in_order(ws@),
        forall|i: int|
            0 <= i < ws@.len() ==> word_bytes((#[trigger] ws@[i])@).len() == key@.len(),
    ensures
        p <= ws@.len(),
        forall|i: int|
            0 <= i < p ==> b20::be_value(word_bytes((#[trigger] ws@[i])@)) < b20::be_value(key@),
        forall|i: int|
            p <= i < ws@.len() ==> b20::be_value(word_bytes((#[trigger] ws@[i])@))
                >= b20::be_value(key@),
{
    let mut lo: usize = 0;
    let mut hi: usize = ws.len();
    while lo < hi
        invariant
            lo <= hi <= ws@.len(),
            in_order(ws@),
            forall|i: int|
                0 <= i < ws@.len() ==> word_bytes((#[trigger] ws@[i])@).len() == key@.len(),
            forall|i: int|
                0 <= i < lo ==> b20::be_value(word_bytes((#[trigger] ws@[i])@)) < b20::be_value(
                    key@,
                ),
            forall|i: int|
                hi <= i < ws@.len() ==> b20::be_value(word_bytes((#[trigger] ws@[i])@))
                    >= b20::be_value(key@),
        decreases hi - lo,
    {
        let mid: usize = lo + (hi - lo) / 2;
        if smaller(ws[mid].as_str().as_bytes(), key) {
            lo = mid + 1;
        } else {
            hi = mid;
        }
    }
    lo
}

/// Words of one length, put in byte order.
fn sort_words(ws: &[String], len: usize) -> (sorted: Vec<String>)
    requires
        forall|i: int| 0 <= i < ws@.len() ==> word_bytes((#[trigger] ws@[i])@).len() == len,
    ensures
        in_order(sorted@),
        forall|w: Seq<char>| #[trigger]
            words::texts(sorted@).contains(w) <==> words::texts(ws@).contains(w),
{
    let mut sorted: Vec<String> = Vec::new();
    let mut i: usize = 0;
    proof {
        assert(words::texts(sorted@) =~= Seq::<Seq<char>>::empty());
        assert(words::texts(ws@).take(0) =~= Seq::<Seq<char>>::empty());
    }
    while i < ws.len()
        invariant
            i <= ws@.len(),
            forall|k: int| 0 <= k < ws@.len() ==> word_bytes((#[trigger] ws@[k])@).len() == len,
            forall|k: int|
                0 <= k < sorted@.len() ==> word_bytes((#[trigger] sorted@[k])@).len() == len,
            in_order(sorted@),
            forall|w: Seq<char>| #[trigger]
                words::texts(sorted@).contains(w) <==> words::texts(ws@).take(i as int).contains(w),
        decreases ws@.len() - i,
    {
        let ghost start = sorted@;
        let p: usize = lower_bound(&sorted, ws[i].as_str().as_bytes());
        let word = ws[i].clone();
        sorted.insert(p, word);
        proof {
            let key = ws@[i as int]@;
            let now = words::texts(sorted@);
            let all = words::texts(ws@);
            assert(sorted@ =~= start.insert(p as int, word));
            assert forall|a: int, b: int| 0 <= a <= b < sorted@.len() implies b20::be_value(
                word_bytes((#[trigger] sorted@[a])@),
            ) <= b20::be_value(word_bytes((#[trigger] sorted@[b])@)) by {
                if a != p && b != p {
                    let oa = if a < p { a } else { a - 1 };
                    let ob = if b < p { b } else { b - 1 };
                    assert(sorted@[a] == start[oa] && sorted@[b] == start[ob]);
                } else if a != p {
                    assert(sorted@[a] == start[a]);
                } else if b != p {
                    assert(sorted@[b] == start[b - 1]);
                }
            }
            assert forall|w: Seq<char>| #[trigger] now.contains(w) <==> all.take(i + 1).contains(
                w,
            ) by {
                inserted_members(words::texts(start), p as int, key, w);
                assert(now =~= words::texts(start).insert(p as int, key));
                assert(all.take(i + 1) =~= all.take(i as int).push(key));
                inserted_members(all.take(i as int), i as int, key, w);
                assert(all.take(i as int).insert(i as int, key) =~= all.take(i as int).push(key));
            }
        }
        i = i + 1;
    }
    assert(words::texts(ws@).take(i as int) =~= words::texts(ws@));
    sorted
}

proof fn inserted_members(s: Seq<Seq<char>>, p: int, x: Seq<char>, w: Seq<char>)
    requires
        0 <= p <= s.len(),
    ensures
        s.insert(p, x).contains(w) <==> s.contains(w) || w == x,
{
    let t = s.insert(p, x);
    if t.contains(w) {
        let k = t.index_of(w);
        if k < p {
            assert(s[k] == w);
        } else if k > p {
            assert(s[k - 1] == w);
        }
    }
    if w == x {
        assert(t[p] == w);
    } else if s.contains(w) {
        let k = s.index_of(w);
        if k < p {
            assert(t[k] == w);
        } else {
            assert(t[k + 1] == w);
        }
    }
}

/// A copy of a list of words.
fn copy_words(ws: &[String]) -> (copy: Vec<String>)
    ensures
        copy@.len() == ws@.len(),
        forall|k: int| 0 <= k < ws@.len() ==> (#[trigger] copy@[k])@ == ws@[k]@,
        words::texts(copy@) == words::texts(ws@),
{
    let mut copy: Vec<String> = Vec::new();
    let mut i: usize = 0;
    while i < ws.len()
        invariant
            i <= ws@.len(),
            copy@.len() == i,
            forall|k: int| 0 <= k < i ==> (#[trigger] copy@[k])@ == ws@[k]@,
        decreases ws@.len() - i,
    {
        copy.push(ws[i].clone());
        i = i + 1;
    }
    assert(words::texts(copy@) =~= words::texts(ws@));
    copy
}

/// The words that are long enough to count inside the window.
fn keep_long(ws: &[String], min: usize) -> (kept: Vec<String>)
    ensures
        words::texts(kept@) == long_enough(words::texts(ws@), min as int),
{
    let mut kept: Vec<String> = Vec::new();
    let mut i: usize = 0;
    let ghost all = words::texts(ws@);
    assert(words::texts(kept@) =~= long_enough(all.take(0), min as int));
    while i < ws.len()
        invariant
            i <= ws@.len(),
            all == words::texts(ws@),
            words::texts(kept@) == long_enough(all.take(i as int), min as int),
        decreases ws@.len() - i,
    {
        assert(all.take(i + 1).drop_last() =~= all.take(i as int));
        let ghost start = kept@;
        let size: usize = ws[i].as_str().as_bytes().len();
        if size >= min {
            kept.push(ws[i].clone());
            assert(words::texts(kept@) =~= words::texts(start).push(ws@[i as int]@));
        }
        i = i + 1;
    }
    assert(all.take(i as int) =~= all);
    kept
}

/// The words that are long enough are those of all words that have the length.
pub proof fn long_enough_are_words(ws: Seq<Seq<char>>, min: int)
    ensures
        forall|w: Seq<char>| #[trigger]
            long_enough(ws, min).contains(w) <==> ws.contains(w) && word_bytes(w).len() >= min,
    decreases ws.len(),
{
    if ws.len() > 0 {
        let rest = ws.drop_last();
        long_enough_are_words(rest, min);
        assert forall|w: Seq<char>| #[trigger] long_enough(ws, min).contains(w) <==> ws.contains(w)
            && word_bytes(w).len() >= min by {
            last_or_before(ws, w);
            assert(long_enough(rest, min).contains(w) <==> rest.contains(w) && word_bytes(w).len()
                >= min);
            if word_bytes(ws.last()).len() >= min {
                last_or_before(long_enough(ws, min), w);
                assert(long_enough(ws, min).drop_last() =~= long_enough(rest, min));
            }
        }
    }
}

/// A member of a list is its last, or a member of the rest.
proof fn last_or_before(ws: Seq<Seq<char>>, w: Seq<char>)
    requires
        ws.len() > 0,
    ensures
        ws.contains(w) <==> w == ws.last() || ws.drop_last().contains(w),
{
    if ws.contains(w) {
        let k = ws.index_of(w);
        if k < ws.len() - 1 {
            assert(ws.drop_last()[k] == w);
        }
    }
    if ws.drop_last().contains(w) {
        let k = ws.drop_last().index_of(w);
        assert(ws[k] == w);
    }
    assert(ws[ws.len() - 1] == ws.last());
}

/// The length that all words share, if there are words and they share one.
fn shared_length(ws: &[String]) -> (r: Option<usize>)
    ensures
        match r {
            Some(n) => ws@.len() > 0 && forall|i: int|
                0 <= i < ws@.len() ==> word_bytes((#[trigger] ws@[i])@).len() == n,
            None => ws@.len() == 0 || exists|i: int|
                0 <= i < ws@.len() && word_bytes((#[trigger] ws@[i])@).len() != word_bytes(
                    ws@[0]@,
                ).len(),
        },
{
    if ws.len() == 0 {
        return None;
    }
    let n: usize = ws[0].as_str().as_bytes().len();
    let mut i: usize = 0;
    while i < ws.len()
        invariant
            i <= ws@.len(),
            n == word_bytes(ws@[0]@).len(),
            forall|k: int| 0 <= k < i ==> word_bytes((#[trigger] ws@[k])@).len() == n,
        decreases ws@.len() - i,
    {
        if ws[i].as_str().as_bytes().len() != n {
            return None;
        }
        i = i + 1;
    }
    Some(n)
}

/// Whether the bytes `w` stand in `tail` from `k` on.
fn at(w: &[u8], tail: &[u8; 18], k: usize) -> (r: bool)
    requires
        k + w@.len() <= 18,
    ensures
        r == stands_at(w@, tail@, k as int),
{
    let mut i: usize = 0;
    while i < w.len()
        invariant
            i <= w@.len(),
            k + w@.len() <= 18,
            forall|j: int| 0 <= j < i ==> tail@[k + j] == #[trigger] w@[j],
        decreases w@.len() - i,
    {
        if tail[k + i] != w[i] {
            assert(tail@.subrange(k as int, k + w@.len())[i as int] != w@[i as int]);
            return false;
        }
        i = i + 1;
    }
    assert(tail@.subrange(k as int, k + w@.len()) =~= w@);
    true
}

/// Whether the bytes `w` stand in `tail` at a position.
fn fit(w: &[u8], tail: &[u8; 18], pos: Pos) -> (r: bool)
    ensures
        r == fits(w@, tail@, pos),
{
    let n: usize = w.len();
    if n > 18 {
        return false;
    }
    match pos {
        Pos::Prefix => at(w, tail, 0),
        Pos::Suffix => at(w, tail, 18 - n),
        Pos::Inner => {
            let mut k: usize = 0;
            while k <= 18 - n
                invariant
                    n == w@.len() <= 18,
                    k <= 19 - n,
                    pos == Pos::Inner,
                    forall|j: int| 0 <= j < k ==> !stands_at(w@, tail@, j),
                decreases 19 - n - k,
            {
                if at(w, tail, k) {
                    return true;
                }
                k = k + 1;
            }
            false
        },
    }
}

/// The first word of a list that stands in `tail` at a position.
fn scan<'a>(ws: &'a Vec<String>, tail: &[u8; 18], pos: Pos) -> (r: Option<&'a str>)
    ensures
        match r {
            Some(w) => first_fit(words::texts(ws@), tail@, pos) == Some(w@),
            None => first_fit(words::texts(ws@), tail@, pos) is None,
        },
{
    let ghost all = words::texts(ws@);
    let mut i: usize = 0;
    assert(all.skip(0) =~= all);
    while i < ws.len()
        invariant
            i <= ws@.len(),
            all == words::texts(ws@),
            first_fit(all, tail@, pos) == first_fit(all.skip(i as int), tail@, pos),
        decreases ws@.len() - i,
    {
        let w: &'a str = ws[i].as_str();
        if fit(w.as_bytes(), tail, pos) {
            return Some(w);
        }
        assert(all.skip(i as int).skip(1) =~= all.skip(i + 1));
        i = i + 1;
    }
    None
}

/// A word of a list fits if and only if there is a first one that does.
pub proof fn some_fit(ws: Seq<Seq<char>>, tail: Seq<u8>, pos: Pos)
    ensures
        first_fit(ws, tail, pos) is Some <==> exists|i: int|
            0 <= i < ws.len() && fits(word_bytes(#[trigger] ws[i]), tail, pos),
        first_fit(ws, tail, pos) is Some ==> ws.contains(first_fit(ws, tail, pos)->0) && fits(
            word_bytes(first_fit(ws, tail, pos)->0),
            tail,
            pos,
        ),
    decreases ws.len(),
{
    if ws.len() > 0 {
        let rest = ws.skip(1);
        some_fit(rest, tail, pos);
        if fits(word_bytes(ws[0]), tail, pos) {
        } else {
            if first_fit(rest, tail, pos) is Some {
                let i = choose|i: int|
                    0 <= i < rest.len() && fits(word_bytes(#[trigger] rest[i]), tail, pos);
                assert(fits(word_bytes(ws[i + 1]), tail, pos));
                let w = first_fit(rest, tail, pos)->0;
                let k = rest.index_of(w);
                assert(ws[k + 1] == w);
            }
            if exists|i: int| 0 <= i < ws.len() && fits(word_bytes(#[trigger] ws[i]), tail, pos) {
                let i = choose|i: int|
                    0 <= i < ws.len() && fits(word_bytes(#[trigger] ws[i]), tail, pos);
                assert(rest[i - 1] == ws[i]);
            }
        }
    }
}

/// The text of a word that may have been found.
spec fn text_in(w: Option<&str>) -> Option<Seq<char>> {
    match w {
        Some(w) => Some(w@),
        None => None,
    }
}

/// The word of a sorted list that makes up `part`.
fn look_up<'a>(sorted: &'a Vec<String>, part: &[u8]) -> (r: Option<&'a str>)
    requires
        in_order(sorted@),
        forall|i: int|
            0 <= i < sorted@.len() ==> word_bytes((#[trigger] sorted@[i])@).len() == part@.len(),
    ensures
        match r {
            Some(w) => words::texts(sorted@).contains(w@) && word_bytes(w@) == part@,
            None => forall|w: Seq<char>| #[trigger]
                words::texts(sorted@).contains(w) ==> word_bytes(w) != part@,
        },
{
    let p: usize = lower_bound(sorted, part);
    if p < sorted.len() && !smaller(part, sorted[p].as_str().as_bytes()) {
        let w: &'a str = sorted[p].as_str();
        proof {
            value_settles_bytes(word_bytes(w@), part@);
            assert(words::texts(sorted@)[p as int] == w@);
        }
        Some(w)
    } else {
        proof {
            assert forall|w: Seq<char>| #[trigger]
                words::texts(sorted@).contains(w) implies word_bytes(w) != part@ by {
                let k = words::texts(sorted@).index_of(w);
                assert(sorted@[k]@ == w);
                if k > p {
                    assert(b20::be_value(word_bytes(sorted@[p as int]@)) <= b20::be_value(
                        word_bytes(sorted@[k]@),
                    ));
                }
            }
        }
        None
    }
}

/// Looking a part of the tail up in the sorted words, and scanning the words,
/// find the same.
proof fn look_up_is_scan(
    ws: Seq<Seq<char>>,
    sorted: Seq<Seq<char>>,
    len: int,
    tail: Seq<u8>,
    pos: Pos,
    found: Option<Seq<char>>,
)
    requires
        tail.len() == 18,
        0 <= len <= 18,
        pos != Pos::Inner,
        forall|w: Seq<char>| #[trigger] ws.contains(w) ==> word_bytes(w).len() == len,
        forall|w: Seq<char>| #[trigger] sorted.contains(w) <==> ws.contains(w),
        ({
            let part = if pos == Pos::Prefix {
                tail.subrange(0, len)
            } else {
                tail.subrange(18 - len, 18)
            };
            match found {
                Some(w) => sorted.contains(w) && word_bytes(w) == part,
                None => forall|w: Seq<char>| #[trigger]
                    sorted.contains(w) ==> word_bytes(w) != part,
            }
        }),
    ensures
        first_fit(ws, tail, pos) == found,
{
    some_fit(ws, tail, pos);
    match found {
        Some(w) => {
            assert(ws.contains(w));
            let i = ws.index_of(w);
            assert(fits(word_bytes(ws[i]), tail, pos));
            let first = first_fit(ws, tail, pos)->0;
            assert(ws.contains(first));
            assert(word_bytes(first) == word_bytes(w));
            vstd::utf8::encode_utf8_decode_utf8(first);
            vstd::utf8::encode_utf8_decode_utf8(w);
        },
        None => {
            if first_fit(ws, tail, pos) is Some {
                let first = first_fit(ws, tail, pos)->0;
                assert(sorted.contains(first));
            }
        },
    }
}

/// Words that are too long for the window fit nowhere.
proof fn too_long_fits_nowhere(ws: Seq<Seq<char>>, tail: Seq<u8>, pos: Pos)
    requires
        tail.len() == 18,
        forall|w: Seq<char>| #[trigger] ws.contains(w) ==> word_bytes(w).len() > 18,
    ensures
        first_fit(ws, tail, pos) is None,
{
    some_fit(ws, tail, pos);
}

impl Matcher {
    /// A matcher for a word list, such as `words::parse_words` gives it: at one
    /// place, the first word of the list that fits wins.
    pub fn new(words: &[String], positions: Positions, inner_min: usize) -> (m: Matcher)
        ensures
            m.search() == search_for(words::texts(words@), positions, inner_min as int),
    {
        let ends: (bool, bool) = match positions {
            Positions::Prefix => (true, false),
            Positions::Suffix => (false, true),
            Positions::Ends => (true, true),
            Positions::Any => (true, true),
        };
        let inner: Vec<String> = if positions == Positions::Any {
            keep_long(words, inner_min)
        } else {
            Vec::new()
        };
        let copy: Vec<String> = copy_words(words);
        proof {
            if positions == Positions::Any {
                long_enough_are_words(words::texts(words@), inner_min as int);
            } else {
                assert(words::texts(inner@) =~= Seq::<Seq<char>>::empty());
            }
        }
        let kind = match shared_length(words) {
            Some(len) => if inner.len() == 0 {
                let sorted: Vec<String> = sort_words(words, len);
                proof {
                    assert forall|i: int| 0 <= i < copy@.len() implies word_bytes(
                        (#[trigger] copy@[i])@,
                    ).len() == len by {
                        assert(words@[i]@ == copy@[i]@);
                    }
                }
                Kind::Uniform { len, sorted }
            } else {
                Kind::General { inner }
            },
            None => Kind::General { inner },
        };
        let m = Matcher { words: copy, kind, check_prefix: ends.0, check_suffix: ends.1 };
        proof {
            assert(inner@.len() == 0 ==> words::texts(inner@) =~= Seq::<Seq<char>>::empty());
            assert(m.search() =~= search_for(words::texts(words@), positions, inner_min as int));
        }
        m
    }

    /// Word number `i` of the list.
    pub fn word<'a>(&'a self, i: usize) -> (w: Option<&'a str>)
        ensures
            match w {
                Some(w) => i < self.search().words.len() && w@ == self.search().words[i as int],
                None => i >= self.search().words.len(),
            },
    {
        if i < self.words.len() {
            Some(self.words[i].as_str())
        } else {
            None
        }
    }

    /// How many words the list has.
    pub fn word_count(&self) -> (n: usize)
        ensures
            n == self.search().words.len(),
    {
        self.words.len()
    }

    /// Whether the front and whether the end of the window counts.
    pub fn ends(&self) -> (r: (bool, bool))
        ensures
            r == (self.search().prefix, self.search().suffix),
    {
        (self.check_prefix, self.check_suffix)
    }

    /// Word number `i` of those that count inside the window.
    pub fn inner_word<'a>(&'a self, i: usize) -> (w: Option<&'a str>)
        ensures
            match w {
                Some(w) => {
                    &&& i < self.search().inner.len() <= usize::MAX
                    &&& w@ == self.search().inner[i as int]
                    &&& self.search().words.contains(w@)
                },
                None => i >= self.search().inner.len(),
            },
    {
        proof {
            use_type_invariant(self);
        }
        match &self.kind {
            Kind::Uniform { len, sorted } => None,
            Kind::General { inner } => {
                if i < inner.len() {
                    proof {
                        assert(words::texts(inner@)[i as int] == inner@[i as int]@);
                        assert(words::texts(inner@).contains(inner@[i as int]@));
                    }
                    Some(inner[i].as_str())
                } else {
                    None
                }
            },
        }
    }

    /// At most one hit per tail: prefix, then suffix, then inner.
    pub fn find<'a>(&'a self, tail_hex: &[u8; 18]) -> (r: Option<(Pos, &'a str)>)
        ensures
            match r {
                Some((pos, w)) => hit_in(self.search(), tail_hex@) == Some((pos, w@)),
                None => hit_in(self.search(), tail_hex@) is None,
            },
    {
        proof {
            use_type_invariant(self);
        }
        match &self.kind {
            Kind::Uniform { len, sorted } => {
                let n: usize = *len;
                let ghost ws = words::texts(self.words@);
                proof {
                    assert forall|w: Seq<char>| #[trigger] ws.contains(w) implies word_bytes(
                        w,
                    ).len() == n by {
                        let k = ws.index_of(w);
                        assert(self.words@[k]@ == w);
                    }
                    assert forall|i: int| 0 <= i < sorted@.len() implies word_bytes(
                        (#[trigger] sorted@[i])@,
                    ).len() == n by {
                        assert(words::texts(sorted@)[i] == sorted@[i]@);
                        assert(words::texts(sorted@).contains(sorted@[i]@));
                    }
                }
                if n > 18 {
                    proof {
                        too_long_fits_nowhere(ws, tail_hex@, Pos::Prefix);
                        too_long_fits_nowhere(ws, tail_hex@, Pos::Suffix);
                    }
                    return None;
                }
                if self.check_prefix {
                    let head = vstd::slice::slice_subrange(tail_hex.as_slice(), 0, n);
                    let found = look_up(sorted, head);
                    proof {
                        look_up_is_scan(
                            ws,
                            words::texts(sorted@),
                            n as int,
                            tail_hex@,
                            Pos::Prefix,
                            text_in(found),
                        );
                    }
                    if let Some(w) = found {
                        return Some((Pos::Prefix, w));
                    }
                }
                if self.check_suffix {
                    let end = vstd::slice::slice_subrange(tail_hex.as_slice(), 18 - n, 18);
                    let found = look_up(sorted, end);
                    proof {
                        look_up_is_scan(
                            ws,
                            words::texts(sorted@),
                            n as int,
                            tail_hex@,
                            Pos::Suffix,
                            text_in(found),
                        );
                    }
                    if let Some(w) = found {
                        return Some((Pos::Suffix, w));
                    }
                }
                None
            },
            Kind::General { inner } => {
                if self.check_prefix {
                    if let Some(w) = scan(&self.words, tail_hex, Pos::Prefix) {
                        return Some((Pos::Prefix, w));
                    }
                }
                if self.check_suffix {
                    if let Some(w) = scan(&self.words, tail_hex, Pos::Suffix) {
                        return Some((Pos::Suffix, w));
                    }
                }
                if let Some(w) = scan(inner, tail_hex, Pos::Inner) {
                    return Some((Pos::Inner, w));
                }
                None
            },
        }
    }
}

/// `std::path::PathBuf`: where the hits are written to. It is carried through
/// and nothing is said of it.
#[verifier::external_type_specification]
#[verifier::external_body]
pub struct ExPathBuf(PathBuf);

/// What to mine for, and how.
pub struct MineOpts {
    pub deployer: [u8; 20],
    pub words: Vec<String>,
    pub positions: Positions,
    pub inner_min: usize,
    pub start: u128,
    pub count: Option<u64>,
    pub workers: usize,
    pub out: PathBuf,
}

/// A hit as it is found: the word, where it stands, and what it came from.
pub struct RawHit {
    pub word: String,
    pub pos: Pos,
    pub salt: u128,
    pub tail: [u8; 9],
}

/// A hit as it is written down.
#[derive(Clone)]
pub struct HitRecord {
    pub word: String,
    pub position: String,
    pub salt: String,
    pub salt_bytes32: String,
    pub tail: String,
    pub asset_address: String,
    pub stablecoin_address: String,
}

/// What a deployer's salt spells, if anything.
pub open spec fn hit_of(search: Search, deployer: Seq<u8>, salt: u128) -> Option<(Pos, Seq<char>)> {
    hit_in(search, text::hex_of(b20::tail_of(deployer, salt)))
}

impl RawHit {
    /// The hit is what the deployer's salt spells.
    pub open spec fn is_hit_of(&self, search: Search, deployer: Seq<u8>) -> bool {
        &&& hit_of(search, deployer, self.salt) == Some((self.pos, self.word@))
        &&& self.tail@ == b20::tail_of(deployer, self.salt)
    }
}

/// What a salt spells, if anything.
pub fn try_salt(matcher: &Matcher, deployer: &[u8; 20], salt: u128) -> (r: Option<RawHit>)
    ensures
        match r {
            Some(h) => h.salt == salt && h.is_hit_of(matcher.search(), deployer@),
            None => hit_of(matcher.search(), deployer@, salt) is None,
        },
{
    let tail: [u8; 9] = b20::tail(deployer, salt);
    let mut tail_hex: [u8; 18] = [0u8; 18];
    b20::hex_lower(&tail, &mut tail_hex);
    assert(tail_hex@ =~= text::hex_of(tail@));
    match matcher.find(&tail_hex) {
        Some((pos, word)) => Some(RawHit { word: word.to_owned(), pos, salt, tail }),
        None => None,
    }
}

/// The hexadecimal text of some bytes.
pub fn hex_text(bytes: &[u8]) -> (s: String)
    ensures
        s@ == text::chars_of(text::hex_of(bytes@)),
{
    let mut s = String::new();
    let n: usize = bytes.len();
    let mut i: usize = 0;
    while i < n
        invariant
            n == bytes@.len(),
            i <= n,
            s@ =~= text::chars_of(text::hex_of(bytes@)).take(2 * i),
        decreases n - i,
    {
        let mut pair: [u8; 2] = [0u8; 2];
        let one: [u8; 1] = [bytes[i]];
        b20::hex_lower(&one, &mut pair);
        s.push(pair[0] as char);
        s.push(pair[1] as char);
        proof {
            assert(pair@ =~= text::hex_of(one@));
            let all = text::hex_of(bytes@);
            assert(all[2 * i as int] == text::hex_of(one@)[0]);
            assert(all[2 * i + 1] == text::hex_of(one@)[1]);
        }
        i = i + 1;
    }
    s
}

/// A text behind `0x`.
fn behind_0x(s: &str) -> (r: String)
    ensures
        r@ == "0x"@ + s@,
{
    let mut r = "0x".to_owned();
    r.append(s);
    r
}

impl HitRecord {
    /// The record holds what there is to say of a hit.
    pub open spec fn records(&self, hit: RawHit) -> bool {
        &&& self.word@ == hit.word@
        &&& self.position@ == hit.pos.name()
        &&& self.salt@ == text::dec_of(hit.salt as nat)
        &&& self.salt_bytes32@ == "0x"@ + text::chars_of(text::hex_of(b20::salt_be(hit.salt)))
        &&& self.tail@ == text::chars_of(text::hex_of(hit.tail@))
        &&& self.asset_address@ == b20::eip55_text(b20::address_of(hit.tail@, 0))
        &&& self.stablecoin_address@ == b20::eip55_text(b20::address_of(hit.tail@, 1))
    }

    /// The record of a hit.
    pub fn of(hit: RawHit) -> (rec: HitRecord)
        ensures
            rec.records(hit),
    {
        let salt_b: [u8; 32] = b20::salt_bytes(hit.salt);
        let salt_hex = hex_text(&salt_b);
        HitRecord {
            position: hit.pos.as_str().to_owned(),
            salt: text::decimal(hit.salt),
            salt_bytes32: behind_0x(&salt_hex),
            tail: hex_text(&hit.tail),
            asset_address: b20::eip55(&b20::b20_address(&hit.tail, 0)),
            stablecoin_address: b20::eip55(&b20::b20_address(&hit.tail, 1)),
            word: hit.word,
        }
    }
}

impl HitRecord {
    /// The line that announces a hit.
    pub fn line(&self) -> (s: String)
        ensures
            s@ == text::blank(text::gap(self.word@, 18)) + self.word@ + " "@ + self.position@
                + text::blank(text::gap(self.position@, 6)) + " salt="@ + self.salt@ + text::blank(
                text::gap(self.salt@, 12),
            ) + " "@ + self.asset_address@,
    {
        let mut s = text::to_the_right(&self.word, 18);
        s.append(" ");
        let position = text::to_the_left(&self.position, 6);
        s.append(&position);
        s.append(" salt=");
        let salt = text::to_the_left(&self.salt, 12);
        s.append(&salt);
        s.append(" ");
        s.append(&self.asset_address);
        assert(s@ =~= text::blank(text::gap(self.word@, 18)) + self.word@ + " "@ + self.position@
            + text::blank(text::gap(self.position@, 6)) + " salt="@ + self.salt@ + text::blank(
            text::gap(self.salt@, 12),
        ) + " "@ + self.asset_address@);
        s
    }
}

/// How many of `count` salts worker `w` of `workers` takes: an equal share, and
/// one of the salts left over for each of the first workers.
pub open spec fn share(count: int, workers: int, w: int) -> int {
    count / workers + if w < count % workers { 1int } else { 0int }
}

/// An exact split of `count` salts: nothing overruns the requested total.
pub fn quotas(count: u64, workers: usize) -> (q: Vec<u64>)
    requires
        workers >= 1,
    ensures
        q@.len() == workers,
        forall|w: int| 0 <= w < workers ==> q@[w] == share(count as int, workers as int, w),
{
    let base: u64 = count / workers as u64;
    let extra: u64 = count % workers as u64;
    let mut q: Vec<u64> = Vec::new();
    let mut w: usize = 0;
    while w < workers
        invariant
            workers >= 1,
            w <= workers,
            q@.len() == w,
            base == count as int / workers as int,
            extra == count as int % workers as int,
            forall|k: int| 0 <= k < w ==> q@[k] == share(count as int, workers as int, k),
        decreases workers - w,
    {
        if (w as u64) < extra {
            proof {
                vstd::arithmetic::div_mod::lemma_fundamental_div_mod(count as int, workers as int);
                assert(base * workers >= base) by (nonlinear_arith)
                    requires
                        workers >= 1,
                        base >= 0,
                ;
            }
            q.push(base + 1);
        } else {
            q.push(base);
        }
        w = w + 1;
    }
    q
}

/// The matcher and the quotas of a run.
pub struct Plan {
    pub matcher: Matcher,
    pub quotas: Option<Vec<u64>>,
}

/// Settles what a run does before its workers start.
pub fn plan(opts: &MineOpts) -> (r: Result<Plan, String>)
    ensures
        match r {
            Ok(p) => {
                &&& opts.workers >= 1
                &&& p.matcher.search() == search_for(
                    words::texts(opts.words@),
                    opts.positions,
                    opts.inner_min as int,
                )
                &&& match (opts.count, p.quotas) {
                    (Some(c), Some(q)) => q@.len() == opts.workers && forall|w: int|
                        0 <= w < opts.workers ==> q@[w] == share(c as int, opts.workers as int, w),
                    (None, None) => true,
                    _ => false,
                }
            },
            Err(e) => opts.workers == 0 && e@ == "--workers must be at least 1"@,
        },
{
    if opts.workers == 0 {
        return Err("--workers must be at least 1".to_owned());
    }
    let matcher = Matcher::new(opts.words.as_slice(), opts.positions, opts.inner_min);
    let quotas: Option<Vec<u64>> = match opts.count {
        Some(c) => Some(quotas(c, opts.workers)),
        None => None,
    };
    Ok(Plan { matcher, quotas })
}

} // verus!
