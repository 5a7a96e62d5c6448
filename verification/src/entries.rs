//! The word list as masks and values on a window, for a device that compares
//! integers: the first entry that a window meets names the hit.

use crate::b20;
use crate::mine;
use crate::mine::{Matcher, Pos};
use crate::text;
use vstd::prelude::*;

verus! {

/// A word at a place: a window meets the entry if, under the mask, it is the value.
#[derive(Clone, Copy, PartialEq, Eq, Structural, Debug)]
pub struct Entry {
    pub mask_hi: u64,
    pub mask_lo: u64,
    pub value_hi: u64,
    pub value_lo: u64,
    /// The number of the word in the list.
    pub word: u32,
    /// The code of the position.
    pub pos: u32,
}

/// Two words side by side.
pub open spec fn joined(hi: u64, lo: u64) -> u128 {
    ((hi as u128) << 64) | (lo as u128)
}

/// Whether a window meets an entry.
pub open spec fn meets(window: u128, e: Entry) -> bool {
    window & joined(e.mask_hi, e.mask_lo) == joined(e.value_hi, e.value_lo)
}

/// The first of some entries that a window meets.
pub open spec fn first_met(es: Seq<Entry>, window: u128) -> Option<Entry>
    decreases es.len(),
{
    if es.len() == 0 {
        None
    } else if meets(window, es[0]) {
        Some(es[0])
    } else {
        first_met(es.skip(1), window)
    }
}

/// The 18 characters that a window shows.
pub open spec fn shown(window: u128) -> Seq<u8> {
    text::hex_of(b20::be_bytes(window).take(9))
}

/// Nibble `j` of a window, the most significant first.
pub open spec fn window_nibble(window: u128, j: int) -> u8 {
    ((window >> ((124 - 4 * j) as u32)) & 0xf) as u8
}

/// The characters that a window shows are its nibbles.
proof fn shown_nibbles(window: u128, j: int)
    requires
        0 <= j < 18,
    ensures
        window_nibble(window, j) < 16,
        shown(window)[j] == text::hex_digit(window_nibble(window, j) as int),
{
    let s: u32 = (8 * (15 - j / 2)) as u32;
    let s4: u32 = (s + 4) as u32;
    assert((((window >> s) & 0xff) as u8) / 16 == ((window >> s4) & 0xf) as u8) by (bit_vector)
        requires
            s <= 120,
            s4 == s + 4,
    ;
    assert((((window >> s) & 0xff) as u8) % 16 == ((window >> s) & 0xf) as u8) by (bit_vector);
    assert(b20::be_bytes(window).take(9)[j / 2] == ((window >> s) & 0xff) as u8);
}

/// A mask without a bit below bit `t`.
spec fn clear_below(m: u128, t: u32) -> bool {
    m & !(0xffff_ffff_ffff_ffff_ffff_ffff_ffff_ffffu128 << t) == 0
}

/// Adding a nibble below the others to a mask adds the test of that nibble.
proof fn mask_takes_a_nibble(x: u128, m: u128, val: u128, s: u32, v: u128)
    requires
        s <= 124,
        v <= 15,
        clear_below(m, (s + 4) as u32),
        val & !m == 0,
    ensures
        (x & (m | (0xfu128 << s)) == (val | (v << s))) <==> (x & m == val && (x >> s) & 0xf == v),
        (val | (v << s)) & !(m | (0xfu128 << s)) == 0,
        clear_below(m | (0xfu128 << s), s),
{
    let t: u32 = (s + 4) as u32;
    assert(((x & (m | (0xfu128 << s)) == (val | (v << s))) <==> (x & m == val && (x >> s) & 0xf
        == v)) && (val | (v << s)) & !(m | (0xfu128 << s)) == 0 && (m | (0xfu128 << s)) & !(
    0xffff_ffff_ffff_ffff_ffff_ffff_ffff_ffffu128 << s) == 0) by (bit_vector)
        requires
            s <= 124,
            v <= 15,
            t == s + 4,
            m & !(0xffff_ffff_ffff_ffff_ffff_ffff_ffff_ffffu128 << t) == 0,
            val & !m == 0,
    ;
}

/// Whether nibbles `k` and on of a window are the values of some characters.
spec fn nibbles_are(window: u128, k: int, w: Seq<u8>) -> bool {
    forall|i: int|
        0 <= i < w.len() ==> #[trigger] window_nibble(window, k + i) == text::nibble_of(w[i] as char)
}

/// Lowercase hexadecimal digits.
spec fn hex_bytes(w: Seq<u8>) -> bool {
    forall|i: int| 0 <= i < w.len() ==> (48 <= #[trigger] w[i] <= 57) || (97 <= w[i] <= 102)
}

/// Hexadecimal digits stand in what a window shows where its nibbles are theirs.
proof fn standing_is_nibbles(window: u128, k: int, w: Seq<u8>)
    requires
        hex_bytes(w),
        0 <= k,
        k + w.len() <= 18,
    ensures
        mine::stands_at(w, shown(window), k) <==> nibbles_are(window, k, w),
{
    let tail = shown(window);
    assert(tail.len() == 18);
    assert forall|i: int| 0 <= i < w.len() implies (tail[k + i] == w[i] <==> #[trigger] window_nibble(
        window,
        k + i,
    ) == text::nibble_of(w[i] as char)) by {
        shown_nibbles(window, k + i);
    }
    if mine::stands_at(w, tail, k) {
        assert forall|i: int| 0 <= i < w.len() implies #[trigger] window_nibble(window, k + i)
            == text::nibble_of(w[i] as char) by {
            assert(tail.subrange(k, k + w.len())[i] == w[i]);
        }
    }
    if nibbles_are(window, k, w) {
        assert forall|i: int| 0 <= i < w.len() implies tail.subrange(k, k + w.len())[i] == w[i] by {
            assert(window_nibble(window, k + i) == text::nibble_of(w[i] as char));
        }
        assert(tail.subrange(k, k + w.len()) =~= w);
    }
}

/// What is not made of hexadecimal digits stands nowhere in what a window shows.
proof fn other_bytes_stand_nowhere(window: u128, k: int, w: Seq<u8>)
    requires
        !hex_bytes(w),
    ensures
        !mine::stands_at(w, shown(window), k),
{
    let tail = shown(window);
    if mine::stands_at(w, tail, k) {
        let i = choose|i: int|
            0 <= i < w.len() && !((48 <= #[trigger] w[i] <= 57) || (97 <= w[i] <= 102));
        assert(tail.subrange(k, k + w.len())[i] == w[i]);
        shown_nibbles(window, k + i);
    }
}

/// Two halves of a word, joined again.
proof fn halves_join(m: u128)
    ensures
        joined((m >> 64) as u64, m as u64) == m,
{
    assert(((((m >> 64) as u64) as u128) << 64) | ((m as u64) as u128) == m) by (bit_vector);
}

/// The entry of a word at a place.
fn entry_at(w: &[u8], k: usize, word: u32, pos: Pos) -> (e: Entry)
    requires
        hex_bytes(w@),
        k + w@.len() <= 18,
    ensures
        e.word == word,
        e.pos == pos.number(),
        forall|window: u128| #[trigger]
            meets(window, e) <==> mine::stands_at(w@, shown(window), k as int),
{
    let n: usize = w.len();
    let mut mask: u128 = 0;
    let mut value: u128 = 0;
    let mut i: usize = 0;
    let ghost t0: u32 = (128 - 4 * k) as u32;
    assert(0u128 & !(0xffff_ffff_ffff_ffff_ffff_ffff_ffff_ffffu128 << t0) == 0 && 0u128 & !0u128
        == 0) by (bit_vector);
    assert forall|x: u128| #[trigger] (x & 0u128) == 0u128 by {
        assert(x & 0u128 == 0u128) by (bit_vector);
    }
    while i < n
        invariant
            n == w@.len(),
            i <= n,
            k + n <= 18,
            hex_bytes(w@),
            clear_below(mask, (128 - 4 * (k + i)) as u32),
            value & !mask == 0,
            forall|x: u128| #[trigger] (x & mask) == value <==> nibbles_are(
                x,
                k as int,
                w@.take(i as int),
            ),
        decreases n - i,
    {
        let s: u32 = 124 - 4 * (k + i) as u32;
        let b: u8 = w[i];
        let v: u128 = if b <= 57 { (b - 48) as u128 } else { (b - 87) as u128 };
        let ghost m0 = mask;
        let ghost v0 = value;
        mask = mask | (0xfu128 << s);
        value = value | (v << s);
        proof {
            mask_takes_a_nibble(0, m0, v0, s, v);
            assert forall|x: u128| #[trigger] (x & mask) == value <==> nibbles_are(
                x,
                k as int,
                w@.take(i + 1),
            ) by {
                mask_takes_a_nibble(x, m0, v0, s, v);
                assert((x & m0) == v0 <==> nibbles_are(x, k as int, w@.take(i as int)));
                nibbles_extend(x, k as int, w@, i as int);
                assert(((x >> s) & 0xf) as u8 == (x >> s) & 0xf) by (bit_vector);
            }
        }
        i = i + 1;
    }
    let e = Entry {
        mask_hi: (mask >> 64) as u64,
        mask_lo: mask as u64,
        value_hi: (value >> 64) as u64,
        value_lo: value as u64,
        word,
        pos: pos.code(),
    };
    proof {
        halves_join(mask);
        halves_join(value);
        assert(w@.take(n as int) =~= w@);
        assert forall|window: u128| #[trigger] meets(window, e) <==> mine::stands_at(
            w@,
            shown(window),
            k as int,
        ) by {
            assert((window & mask) == value <==> nibbles_are(window, k as int, w@));
            standing_is_nibbles(window, k as int, w@);
        }
    }
    e
}

proof fn nibbles_extend(x: u128, k: int, w: Seq<u8>, i: int)
    requires
        0 <= i < w.len(),
    ensures
        nibbles_are(x, k, w.take(i + 1)) <==> nibbles_are(x, k, w.take(i)) && window_nibble(x, k + i)
            == text::nibble_of(w[i] as char),
{
    let (a, b) = (w.take(i), w.take(i + 1));
    if nibbles_are(x, k, b) {
        assert(window_nibble(x, k + i) == text::nibble_of(b[i] as char));
        assert forall|j: int| 0 <= j < a.len() implies #[trigger] window_nibble(x, k + j)
            == text::nibble_of(a[j] as char) by {
            assert(b[j] == a[j]);
        }
    }
    if nibbles_are(x, k, a) && window_nibble(x, k + i) == text::nibble_of(w[i] as char) {
        assert forall|j: int| 0 <= j < b.len() implies #[trigger] window_nibble(x, k + j)
            == text::nibble_of(b[j] as char) by {
            if j < i {
                assert(a[j] == b[j]);
            }
        }
    }
}

/// An entry behind others is met first where none of the others is met.
proof fn first_met_push(es: Seq<Entry>, e: Entry, window: u128)
    ensures
        first_met(es.push(e), window) == (match first_met(es, window) {
            Some(f) => Some(f),
            None => if meets(window, e) {
                Some(e)
            } else {
                None
            },
        }),
    decreases es.len(),
{
    if es.len() > 0 {
        first_met_push(es.skip(1), e, window);
        assert(es.push(e).skip(1) =~= es.skip(1).push(e));
    } else {
        assert(es.push(e).skip(1) =~= es);
    }
}

/// A word behind others is the first that fits where none of the others does.
proof fn first_fit_push(ws: Seq<Seq<char>>, w: Seq<char>, tail: Seq<u8>, pos: Pos)
    ensures
        mine::first_fit(ws.push(w), tail, pos) == (match mine::first_fit(ws, tail, pos) {
            Some(f) => Some(f),
            None => if mine::fits(mine::word_bytes(w), tail, pos) {
                Some(w)
            } else {
                None
            },
        }),
    decreases ws.len(),
{
    if ws.len() > 0 {
        first_fit_push(ws.skip(1), w, tail, pos);
        assert(ws.push(w).skip(1) =~= ws.skip(1).push(w));
    } else {
        assert(ws.push(w).skip(1) =~= ws);
    }
}

/// Whether an entry names a word at a position.
pub open spec fn names(e: Option<Entry>, ws: Seq<Seq<char>>, found: Option<(Pos, Seq<char>)>) -> bool {
    match (e, found) {
        (None, None) => true,
        (Some(e), Some((pos, w))) => e.pos == pos.number() && e.word < ws.len()
            && ws[e.word as int] == w,
        _ => false,
    }
}

/// Whether, of any window, the first entry that it meets names the hit in what it shows.
pub open spec fn name_the_hits(es: Seq<Entry>, search: mine::Search) -> bool {
    forall|window: u128| #[trigger]
        names(first_met(es, window), search.words, mine::hit_in(search, shown(window)))
}

/// Whether bytes are lowercase hexadecimal digits.
fn all_hex(w: &[u8]) -> (r: bool)
    ensures
        r == hex_bytes(w@),
{
    let mut i: usize = 0;
    while i < w.len()
        invariant
            i <= w@.len(),
            forall|j: int| 0 <= j < i ==> (48 <= #[trigger] w@[j] <= 57) || (97 <= w@[j] <= 102),
        decreases w@.len() - i,
    {
        let b: u8 = w[i];
        if !((b >= 48 && b <= 57) || (b >= 97 && b <= 102)) {
            assert(w@[i as int] == b);
            return false;
        }
        i = i + 1;
    }
    true
}

/// What the entries of one word at one position add to those before.
spec fn word_added(
    before: Seq<Entry>,
    after: Seq<Entry>,
    w: Seq<u8>,
    word: u32,
    pos: Pos,
    window: u128,
) -> bool {
    match first_met(before, window) {
        Some(e) => first_met(after, window) == Some(e),
        None => if mine::fits(w, shown(window), pos) {
            first_met(after, window) matches Some(e) && e.word == word && e.pos == pos.number()
        } else {
            first_met(after, window) is None
        },
    }
}

/// Adds the entries of one word at one position.
fn add_word(es: &mut Vec<Entry>, w: &[u8], word: u32, pos: Pos)
    ensures
        forall|window: u128| #[trigger]
            word_added(old(es)@, final(es)@, w@, word, pos, window),
{
    let n: usize = w.len();
    let ghost start = es@;
    if n > 18 || !all_hex(w) {
        proof {
            assert forall|window: u128| #[trigger] word_added(start, es@, w@, word, pos, window) by {
                assert forall|k: int| !#[trigger] mine::stands_at(w@, shown(window), k) by {
                    if n <= 18 {
                        other_bytes_stand_nowhere(window, k, w@);
                    }
                }
            }
        }
        return ;
    }
    match pos {
        Pos::Prefix => {
            let e: Entry = entry_at(w, 0, word, pos);
            es.push(e);
            proof {
                assert forall|window: u128| #[trigger]
                    word_added(start, es@, w@, word, pos, window) by {
                    first_met_push(start, e, window);
                    assert(meets(window, e) <==> mine::stands_at(w@, shown(window), 0));
                }
            }
        },
        Pos::Suffix => {
            let e: Entry = entry_at(w, 18 - n, word, pos);
            es.push(e);
            proof {
                assert forall|window: u128| #[trigger]
                    word_added(start, es@, w@, word, pos, window) by {
                    first_met_push(start, e, window);
                    assert(shown(window).len() == 18);
                    assert(meets(window, e) <==> mine::stands_at(w@, shown(window), 18 - n));
                }
            }
        },
        Pos::Inner => {
            let mut k: usize = 0;
            while k <= 18 - n
                invariant
                    n == w@.len() <= 18,
                    k <= 19 - n,
                    pos == Pos::Inner,
                    hex_bytes(w@),
                    forall|window: u128| #[trigger]
                        inner_added(start, es@, w@, word, k as int, window),
                decreases 19 - n - k,
            {
                let ghost prev = es@;
                let e: Entry = entry_at(w, k, word, pos);
                es.push(e);
                proof {
                    assert forall|window: u128| #[trigger]
                        inner_added(start, es@, w@, word, k + 1, window) by {
                        assert(inner_added(start, prev, w@, word, k as int, window));
                        first_met_push(prev, e, window);
                        assert(meets(window, e) <==> mine::stands_at(w@, shown(window), k as int));
                    }
                }
                k = k + 1;
            }
            proof {
                assert forall|window: u128| #[trigger]
                    word_added(start, es@, w@, word, pos, window) by {
                    assert(inner_added(start, es@, w@, word, k as int, window));
                    assert(shown(window).len() == 18);
                }
            }
        },
    }
}

/// What the entries of one word at the first `n` places add to those before.
spec fn inner_added(
    before: Seq<Entry>,
    after: Seq<Entry>,
    w: Seq<u8>,
    word: u32,
    n: int,
    window: u128,
) -> bool {
    match first_met(before, window) {
        Some(e) => first_met(after, window) == Some(e),
        None => if exists|k: int| k < n && #[trigger] mine::stands_at(w, shown(window), k) {
            first_met(after, window) matches Some(e) && e.word == word && e.pos
                == Pos::Inner.number()
        } else {
            first_met(after, window) is None
        },
    }
}

/// A word at a position, if there is one.
spec fn at_pos(found: Option<Seq<char>>, pos: Pos) -> Option<(Pos, Seq<char>)> {
    match found {
        Some(w) => Some((pos, w)),
        None => None,
    }
}

/// What the entries of a list of words at one position add to those before.
spec fn list_added(
    before: Seq<Entry>,
    after: Seq<Entry>,
    all: Seq<Seq<char>>,
    ws: Seq<Seq<char>>,
    pos: Pos,
    window: u128,
) -> bool {
    match first_met(before, window) {
        Some(e) => first_met(after, window) == Some(e),
        None => names(
            first_met(after, window),
            all,
            at_pos(mine::first_fit(ws, shown(window), pos), pos),
        ),
    }
}

/// One word more.
proof fn list_grows(
    start: Seq<Entry>,
    prev: Seq<Entry>,
    now: Seq<Entry>,
    all: Seq<Seq<char>>,
    ws: Seq<Seq<char>>,
    w: Seq<char>,
    word: u32,
    pos: Pos,
    window: u128,
)
    requires
        list_added(start, prev, all, ws, pos, window),
        word_added(prev, now, mine::word_bytes(w), word, pos, window),
        word < all.len(),
        all[word as int] == w,
    ensures
        list_added(start, now, all, ws.push(w), pos, window),
{
    first_fit_push(ws, w, shown(window), pos);
}

impl Matcher {
    /// Adds the entries of all words at one end.
    fn add_end(&self, es: &mut Vec<Entry>, pos: Pos)
        requires
            self.search().words.len() <= u32::MAX,
        ensures
            forall|window: u128| #[trigger]
                list_added(
                    old(es)@,
                    final(es)@,
                    self.search().words,
                    self.search().words,
                    pos,
                    window,
                ),
    {
        let n: usize = self.word_count();
        let ghost ws = self.search().words;
        let ghost start = es@;
        let mut i: usize = 0;
        assert(ws.take(0) =~= Seq::<Seq<char>>::empty());
        while i < n
            invariant
                n == ws.len() <= u32::MAX,
                ws == self.search().words,
                i <= n,
                forall|window: u128| #[trigger]
                    list_added(start, es@, ws, ws.take(i as int), pos, window),
            decreases n - i,
        {
            let ghost prev = es@;
            if let Some(w) = self.word(i) {
                add_word(es, w.as_bytes(), i as u32, pos);
                proof {
                    assert(ws.take(i + 1) =~= ws.take(i as int).push(w@));
                    assert forall|window: u128| #[trigger]
                        list_added(start, es@, ws, ws.take(i + 1), pos, window) by {
                        assert(list_added(start, prev, ws, ws.take(i as int), pos, window));
                        assert(word_added(prev, es@, mine::word_bytes(w@), i as u32, pos, window));
                        list_grows(
                            start,
                            prev,
                            es@,
                            ws,
                            ws.take(i as int),
                            w@,
                            i as u32,
                            pos,
                            window,
                        );
                    }
                }
            }
            i = i + 1;
        }
        assert(ws.take(n as int) =~= ws);
    }

    /// The number of a word of the list.
    fn number_of(&self, w: &str) -> (i: u32)
        requires
            self.search().words.len() <= u32::MAX,
            self.search().words.contains(w@),
        ensures
            i < self.search().words.len(),
            self.search().words[i as int] == w@,
    {
        let n: usize = self.word_count();
        let ghost ws = self.search().words;
        let wanted = w.to_owned();
        let mut i: usize = 0;
        while i < n
            invariant
                n == ws.len() <= u32::MAX,
                ws == self.search().words,
                wanted@ == w@,
                i <= n,
                forall|j: int| 0 <= j < i ==> ws[j] != w@,
            decreases n - i,
        {
            if let Some(x) = self.word(i) {
                if x.to_owned() == wanted {
                    return i as u32;
                }
            }
            i = i + 1;
        }
        proof {
            let k = ws.index_of(w@);
            assert(ws[k] == w@);
        }
        0
    }

    /// Adds the entries of the words that count inside the window.
    fn add_inner(&self, es: &mut Vec<Entry>)
        requires
            self.search().words.len() <= u32::MAX,
        ensures
            forall|window: u128| #[trigger]
                list_added(
                    old(es)@,
                    final(es)@,
                    self.search().words,
                    self.search().inner,
                    Pos::Inner,
                    window,
                ),
    {
        let ghost all = self.search().words;
        let ghost ws = self.search().inner;
        let ghost start = es@;
        let mut i: usize = 0;
        assert(ws.take(0) =~= Seq::<Seq<char>>::empty());
        loop
            invariant
                all == self.search().words,
                all.len() <= u32::MAX,
                ws == self.search().inner,
                start == old(es)@,
                i <= ws.len(),
                forall|window: u128| #[trigger]
                    list_added(start, es@, all, ws.take(i as int), Pos::Inner, window),
            decreases ws.len() - i,
        {
            let ghost prev = es@;
            match self.inner_word(i) {
                Some(w) => {
                    let word: u32 = self.number_of(w);
                    add_word(es, w.as_bytes(), word, Pos::Inner);
                    proof {
                        assert(ws.take(i + 1) =~= ws.take(i as int).push(w@));
                        assert forall|window: u128| #[trigger]
                            list_added(start, es@, all, ws.take(i + 1), Pos::Inner, window) by {
                            assert(list_added(
                                start,
                                prev,
                                all,
                                ws.take(i as int),
                                Pos::Inner,
                                window,
                            ));
                            assert(word_added(
                                prev,
                                es@,
                                mine::word_bytes(w@),
                                word,
                                Pos::Inner,
                                window,
                            ));
                            list_grows(
                                start,
                                prev,
                                es@,
                                all,
                                ws.take(i as int),
                                w@,
                                word,
                                Pos::Inner,
                                window,
                            );
                        }
                    }
                    i = i + 1;
                },
                None => {
                    assert(ws.take(i as int) =~= ws);
                    return ;
                },
            }
        }
    }

    /// The search as entries, in order of precedence: of any window, the first
    /// entry that it meets names the hit that `find` finds in what it shows.
    pub fn gpu_entries(&self) -> (es: Vec<Entry>)
        requires
            self.search().words.len() <= u32::MAX,
        ensures
            forall|window: u128| #[trigger]
                names(
                    first_met(es@, window),
                    self.search().words,
                    mine::hit_in(self.search(), shown(window)),
                ),
            name_the_hits(es@, self.search()),
    {
        let mut es: Vec<Entry> = Vec::new();
        let ends: (bool, bool) = self.ends();
        let ghost search = self.search();
        let ghost ws = search.words;
        let ghost none = es@;
        if ends.0 {
            self.add_end(&mut es, Pos::Prefix);
        }
        let ghost fronts = es@;
        if ends.1 {
            self.add_end(&mut es, Pos::Suffix);
        }
        let ghost both = es@;
        self.add_inner(&mut es);
        proof {
            assert forall|window: u128| #[trigger]
                names(first_met(es@, window), ws, mine::hit_in(search, shown(window))) by {
                if ends.0 {
                    assert(list_added(none, fronts, ws, ws, Pos::Prefix, window));
                }
                if ends.1 {
                    assert(list_added(fronts, both, ws, ws, Pos::Suffix, window));
                }
                assert(list_added(both, es@, ws, search.inner, Pos::Inner, window));
            }
        }
        es
    }
}

/// The entries one after another, five words each.
pub fn flatten(es: &Vec<Entry>) -> (flat: Vec<u64>)
    requires
        5 * es@.len() <= usize::MAX,
    ensures
        flat@.len() == 5 * es@.len(),
        forall|i: int|
            0 <= i < es@.len() ==> {
                let e = #[trigger] es@[i];
                &&& flat@[5 * i] == e.mask_hi
                &&& flat@[5 * i + 1] == e.mask_lo
                &&& flat@[5 * i + 2] == e.value_hi
                &&& flat@[5 * i + 3] == e.value_lo
                &&& flat@[5 * i + 4] == ((e.word as u64) << 32) | e.pos as u64
            },
{
    let mut flat: Vec<u64> = Vec::new();
    let mut i: usize = 0;
    while i < es.len()
        invariant
            i <= es@.len(),
            flat@.len() == 5 * i,
            forall|k: int|
                0 <= k < i ==> {
                    let e = #[trigger] es@[k];
                    &&& flat@[5 * k] == e.mask_hi
                    &&& flat@[5 * k + 1] == e.mask_lo
                    &&& flat@[5 * k + 2] == e.value_hi
                    &&& flat@[5 * k + 3] == e.value_lo
                    &&& flat@[5 * k + 4] == ((e.word as u64) << 32) | e.pos as u64
                },
        decreases es@.len() - i,
    {
        let e: Entry = es[i];
        flat.push(e.mask_hi);
        flat.push(e.mask_lo);
        flat.push(e.value_hi);
        flat.push(e.value_lo);
        flat.push(((e.word as u64) << 32) | e.pos as u64);
        i = i + 1;
    }
    flat
}

} // verus!
