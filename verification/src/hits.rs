//! What a hit says of the window that it was found in.

use crate::mine;
use crate::mine::Pos;
use crate::words;
use crate::words::Positions;
use vstd::prelude::*;

verus! {

/// Whether a word counts at a position.
pub open spec fn counts_at(w: Seq<char>, positions: Positions, inner_min: int, pos: Pos) -> bool {
    match pos {
        Pos::Prefix => positions != Positions::Suffix,
        Pos::Suffix => positions != Positions::Prefix,
        Pos::Inner => positions == Positions::Any && mine::word_bytes(w).len() >= inner_min,
    }
}

/// Whether a word stands in a tail at a position where it counts.
pub open spec fn is_placed(
    w: Seq<char>,
    tail: Seq<u8>,
    positions: Positions,
    inner_min: int,
    pos: Pos,
) -> bool {
    counts_at(w, positions, inner_min, pos) && mine::fits(mine::word_bytes(w), tail, pos)
}

/// The words that are looked for at a position.
spec fn sought(search: mine::Search, pos: Pos) -> Seq<Seq<char>> {
    match pos {
        Pos::Prefix => if search.prefix {
            search.words
        } else {
            Seq::empty()
        },
        Pos::Suffix => if search.suffix {
            search.words
        } else {
            Seq::empty()
        },
        Pos::Inner => search.inner,
    }
}

/// What is looked for at a position are the words that count there.
proof fn sought_words(ws: Seq<Seq<char>>, positions: Positions, inner_min: int, pos: Pos, w: Seq<char>)
    ensures
        sought(mine::search_for(ws, positions, inner_min), pos).contains(w) <==> ws.contains(w)
            && counts_at(w, positions, inner_min, pos),
{
    mine::long_enough_are_words(ws, inner_min);
    assert(!Seq::<Seq<char>>::empty().contains(w));
    assert(sought(mine::search_for(ws, positions, inner_min), pos) == (match pos {
        Pos::Inner => if positions == Positions::Any {
            mine::long_enough(ws, inner_min)
        } else {
            Seq::empty()
        },
        _ => if counts_at(w, positions, inner_min, pos) {
            ws
        } else {
            Seq::empty()
        },
    }));
}

/// The first fit at a position is missing only where no word is placed there.
proof fn nothing_placed(
    ws: Seq<Seq<char>>,
    positions: Positions,
    inner_min: int,
    tail: Seq<u8>,
    pos: Pos,
    w: Seq<char>,
)
    requires
        ws.contains(w),
        mine::first_fit(sought(mine::search_for(ws, positions, inner_min), pos), tail, pos) is None,
    ensures
        !is_placed(w, tail, positions, inner_min, pos),
{
    let s = sought(mine::search_for(ws, positions, inner_min), pos);
    mine::some_fit(s, tail, pos);
    sought_words(ws, positions, inner_min, pos, w);
    if is_placed(w, tail, positions, inner_min, pos) {
        let k = s.index_of(w);
        assert(mine::fits(mine::word_bytes(s[k]), tail, pos));
    }
}

/// A hit names a word of the list that stands where the hit says, at a position
/// where it counts; and there is a hit wherever there is such a word.
pub proof fn hits_are_the_placed_words(
    ws: Seq<Seq<char>>,
    positions: Positions,
    inner_min: int,
    tail: Seq<u8>,
)
    ensures
        match mine::hit_in(mine::search_for(ws, positions, inner_min), tail) {
            Some((pos, w)) => ws.contains(w) && is_placed(w, tail, positions, inner_min, pos),
            None => forall|w: Seq<char>, pos: Pos| #[trigger]
                is_placed(w, tail, positions, inner_min, pos) ==> !ws.contains(w),
        },
{
    let search = mine::search_for(ws, positions, inner_min);
    let none = Seq::<Seq<char>>::empty();
    assert(mine::first_fit(none, tail, Pos::Prefix) is None);
    assert(mine::first_fit(none, tail, Pos::Suffix) is None);
    match mine::hit_in(search, tail) {
        Some((pos, w)) => {
            assert(mine::first_fit(sought(search, pos), tail, pos) == Some(w));
            mine::some_fit(sought(search, pos), tail, pos);
            sought_words(ws, positions, inner_min, pos, w);
        },
        None => {
            assert forall|w: Seq<char>, pos: Pos| #[trigger]
                is_placed(w, tail, positions, inner_min, pos) implies !ws.contains(w) by {
                assert(mine::first_fit(sought(search, pos), tail, pos) is None);
                if ws.contains(w) {
                    nothing_placed(ws, positions, inner_min, tail, pos, w);
                }
            }
        },
    }
}

/// A prefix beats a suffix, and a suffix beats a word inside: no word of the
/// list is placed at a position that comes before the hit's.
pub proof fn earlier_positions_win(
    ws: Seq<Seq<char>>,
    positions: Positions,
    inner_min: int,
    tail: Seq<u8>,
    pos: Pos,
    w: Seq<char>,
    other: Pos,
    v: Seq<char>,
)
    requires
        mine::hit_in(mine::search_for(ws, positions, inner_min), tail) == Some((pos, w)),
        ws.contains(v),
        is_placed(v, tail, positions, inner_min, other),
    ensures
        pos.number() <= other.number(),
{
    let search = mine::search_for(ws, positions, inner_min);
    let none = Seq::<Seq<char>>::empty();
    assert(mine::first_fit(none, tail, Pos::Prefix) is None);
    assert(mine::first_fit(none, tail, Pos::Suffix) is None);
    if other.number() < pos.number() {
        assert(mine::first_fit(sought(search, other), tail, other) is None);
        nothing_placed(ws, positions, inner_min, tail, other, v);
    }
}

/// The first fit of a ranked list is a longest one.
proof fn first_fit_is_longest(ws: Seq<Seq<char>>, tail: Seq<u8>, pos: Pos, v: Seq<char>)
    requires
        words::is_ranked(ws),
        ws.contains(v),
        mine::fits(mine::word_bytes(v), tail, pos),
    ensures
        mine::first_fit(ws, tail, pos) matches Some(w) && v.len() <= w.len() && (v == w
            || words::ranks_before(w, v)),
    decreases ws.len(),
{
    let k = ws.index_of(v);
    if mine::fits(mine::word_bytes(ws[0]), tail, pos) {
        if k > 0 {
            assert(words::ranks_before(ws[0], ws[k]));
        }
    } else {
        let rest = ws.skip(1);
        assert(rest[k - 1] == v);
        assert forall|i: int, j: int| 0 <= i < j < rest.len() implies words::ranks_before(
            #[trigger] rest[i],
            #[trigger] rest[j],
        ) by {
            assert(words::ranks_before(ws[i + 1], ws[j + 1]));
        }
        first_fit_is_longest(rest, tail, pos, v);
    }
}

/// The long words of a ranked list are ranked.
proof fn long_words_stay_ranked(ws: Seq<Seq<char>>, min: int)
    requires
        words::is_ranked(ws),
    ensures
        words::is_ranked(mine::long_enough(ws, min)),
    decreases ws.len(),
{
    if ws.len() > 0 {
        let rest = ws.drop_last();
        assert forall|i: int, j: int| 0 <= i < j < rest.len() implies words::ranks_before(
            #[trigger] rest[i],
            #[trigger] rest[j],
        ) by {
            assert(words::ranks_before(ws[i], ws[j]));
        }
        long_words_stay_ranked(rest, min);
        mine::long_enough_are_words(rest, min);
        let kept = mine::long_enough(rest, min);
        let now = mine::long_enough(ws, min);
        assert forall|i: int, j: int| 0 <= i < j < now.len() implies words::ranks_before(
            #[trigger] now[i],
            #[trigger] now[j],
        ) by {
            assert(now[i] == kept[i]);
            assert(kept.contains(kept[i]));
            if j < kept.len() {
                assert(now[j] == kept[j]);
            } else {
                let k = rest.index_of(kept[i]);
                assert(words::ranks_before(ws[k], ws[ws.len() - 1]));
            }
        }
    }
}

/// Where several words of a ranked list are placed at the hit's position, the
/// hit names a longest one, and of those the one that ranks first.
pub proof fn longest_word_wins(
    ws: Seq<Seq<char>>,
    positions: Positions,
    inner_min: int,
    tail: Seq<u8>,
    pos: Pos,
    w: Seq<char>,
    v: Seq<char>,
)
    requires
        words::is_ranked(ws),
        mine::hit_in(mine::search_for(ws, positions, inner_min), tail) == Some((pos, w)),
        ws.contains(v),
        is_placed(v, tail, positions, inner_min, pos),
    ensures
        v.len() <= w.len(),
        v == w || words::ranks_before(w, v),
{
    let search = mine::search_for(ws, positions, inner_min);
    sought_words(ws, positions, inner_min, pos, v);
    if pos == Pos::Inner {
        long_words_stay_ranked(ws, inner_min);
    }
    assert(mine::first_fit(sought(search, pos), tail, pos) == Some(w));
    first_fit_is_longest(sought(search, pos), tail, pos, v);
}

} // verus!
