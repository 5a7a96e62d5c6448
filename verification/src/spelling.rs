//! How a word list is written down does not matter, and a ranked list reads back.

use crate::text;
use crate::words;
use vstd::prelude::*;

verus! {

/// What `parse_words` says of a text and its result.
pub open spec fn is_reading(raw: Seq<char>, r: Result<Vec<String>, String>) -> bool {
    words::is_ranking_of(r, words::listed(raw)) && words::lists_ascii(raw)
}

/// Whether two readings came to the same words, or to the same complaint.
pub open spec fn same_result(
    r: Result<Vec<String>, String>,
    s: Result<Vec<String>, String>,
) -> bool {
    match (r, s) {
        (Ok(a), Ok(b)) => words::texts(a@) == words::texts(b@),
        (Err(e), Err(f)) => e@ == f@,
        _ => false,
    }
}

/// What becomes of a list is settled by the words in it.
pub proof fn words_settle_the_result(
    a: Seq<Seq<char>>,
    b: Seq<Seq<char>>,
    r: Result<Vec<String>, String>,
    s: Result<Vec<String>, String>,
)
    requires
        words::is_ranking_of(r, a),
        words::is_ranking_of(s, b),
        forall|w: Seq<char>| #[trigger] words::is_word_in(a, w) <==> words::is_word_in(b, w),
    ensures
        same_result(r, s),
{
    match (r, s) {
        (Ok(x), Ok(y)) => {
            let (tx, ty) = (words::texts(x@), words::texts(y@));
            assert forall|w: Seq<char>| #[trigger] tx.contains(w) <==> ty.contains(w) by {
                assert(words::is_word_in(a, w) <==> words::is_word_in(b, w));
            }
            words::one_ranking(tx, ty);
        },
        (Ok(x), Err(f)) => {
            some_word(x@, a);
            let v = choose|v: Seq<char>| #[trigger]
                words::is_first_bad(b, v) && f@ == words::complaint(v);
            assert(words::is_word_in(a, v));
        },
        (Err(e), Ok(y)) => {
            some_word(y@, b);
            assert(words::is_word_in(a, y@[0]@));
            let w = choose|w: Seq<char>| #[trigger]
                words::is_first_bad(a, w) && e@ == words::complaint(w);
            assert(words::is_word_in(b, w));
        },
        (Err(e), Err(f)) => {
            if exists|w: Seq<char>| #[trigger] words::is_word_in(a, w) {
                let x = choose|x: Seq<char>| #[trigger] words::is_word_in(a, x);
                assert(words::is_word_in(b, x));
                let w = choose|w: Seq<char>| #[trigger]
                    words::is_first_bad(a, w) && e@ == words::complaint(w);
                let v = choose|v: Seq<char>| #[trigger]
                    words::is_first_bad(b, v) && f@ == words::complaint(v);
                assert(words::is_word_in(a, v) && words::is_word_in(b, w));
                words::lex_total(v, w);
            } else {
                assert forall|w: Seq<char>| !words::is_word_in(b, w) by {
                    assert(!words::is_word_in(a, w));
                }
            }
        },
    }
}

/// A ranked list that is not empty holds a word.
proof fn some_word(ws: Seq<String>, list: Seq<Seq<char>>)
    requires
        ws.len() > 0,
        forall|w: Seq<char>| #[trigger]
            words::texts(ws).contains(w) <==> words::is_word_in(list, w),
    ensures
        words::is_word_in(list, ws[0]@),
{
    assert(words::texts(ws)[0] == ws[0]@);
    assert(words::texts(ws).contains(ws[0]@));
}

/// Whether two pieces are the same but for the white space around them and, where
/// they are ASCII, the case of their letters.
pub open spec fn is_same_piece(p: Seq<char>, q: Seq<char>) -> bool {
    let (a, b) = (words::trimmed(p), words::trimmed(q));
    ||| a == b
    ||| vstd::utf8::is_ascii_chars(a) && vstd::utf8::is_ascii_chars(b) && words::ascii_lower(a)
        == words::ascii_lower(b)
}

/// Whether every piece but those that are blank stands among other pieces.
pub open spec fn stands_among(ps: Seq<Seq<char>>, qs: Seq<Seq<char>>) -> bool {
    forall|i: int|
        0 <= i < ps.len() && words::trimmed(#[trigger] ps[i]).len() > 0 ==> exists|j: int|
            0 <= j < qs.len() && is_same_piece(ps[i], #[trigger] qs[j])
}

/// A word of a text is a word of another that has its pieces.
proof fn word_of_both(raw: Seq<char>, other: Seq<char>, w: Seq<char>)
    requires
        words::lists_ascii(raw),
        words::lists_ascii(other),
        stands_among(words::pieces(raw), words::pieces(other)),
        words::is_word_in(words::listed(raw), w),
    ensures
        words::is_word_in(words::listed(other), w),
{
    let (ps, qs) = (words::pieces(raw), words::pieces(other));
    let (la, lb) = (words::listed(raw), words::listed(other));
    let i = la.index_of(w);
    assert(la[i] == w);
    assert(la[i] == words::lowercase_of(words::trimmed(ps[i])));
    if words::trimmed(ps[i]).len() == 0 {
        assert(vstd::utf8::is_ascii_chars(words::trimmed(ps[i])));
        assert(la[i] == words::ascii_lower(words::trimmed(ps[i])));
    } else {
        let j = choose|j: int| 0 <= j < qs.len() && is_same_piece(ps[i], #[trigger] qs[j]);
        assert(lb[j] == words::lowercase_of(words::trimmed(qs[j])));
        assert(lb[j] == w);
        assert(lb.contains(w));
    }
}

/// The order of the pieces, repeats, empty pieces, white space around a piece and
/// the case of ASCII pieces do not matter: of two texts that have the same pieces but
/// for these, one reading gives what the other gives.
pub proof fn spelling_does_not_matter(
    raw: Seq<char>,
    other: Seq<char>,
    r: Result<Vec<String>, String>,
    s: Result<Vec<String>, String>,
)
    requires
        is_reading(raw, r),
        is_reading(other, s),
        stands_among(words::pieces(raw), words::pieces(other)),
        stands_among(words::pieces(other), words::pieces(raw)),
    ensures
        same_result(r, s),
{
    let (la, lb) = (words::listed(raw), words::listed(other));
    assert forall|w: Seq<char>| #[trigger] words::is_word_in(la, w) <==> words::is_word_in(
        lb,
        w,
    ) by {
        if words::is_word_in(la, w) {
            word_of_both(raw, other, w);
        }
        if words::is_word_in(lb, w) {
            word_of_both(other, raw, w);
        }
    }
    words_settle_the_result(la, lb, r, s);
}

/// Texts one after another, with commas between them.
pub open spec fn joined(ps: Seq<Seq<char>>) -> Seq<char>
    decreases ps.len(),
{
    if ps.len() == 0 {
        Seq::empty()
    } else if ps.len() == 1 {
        ps[0]
    } else {
        joined(ps.drop_last()).push(',') + ps.last()
    }
}

/// A text without a comma goes to the end of the last piece.
proof fn last_piece_grows(s: Seq<char>, t: Seq<char>)
    requires
        !t.contains(','),
    ensures
        words::pieces(s).len() > 0,
        words::pieces(s + t) == words::pieces(s).drop_last().push(words::pieces(s).last() + t),
    decreases t.len(),
{
    let p = words::pieces(s);
    words::some_piece(s);
    if t.len() == 0 {
        assert(s + t =~= s);
        assert(p.last() + t =~= p.last());
        assert(p =~= p.drop_last().push(p.last()));
    } else {
        let rest = t.drop_last();
        assert(!rest.contains(',')) by {
            if rest.contains(',') {
                let k = rest.index_of(',');
                assert(t[k] == ',');
            }
        }
        assert(t[t.len() - 1] != ',');
        last_piece_grows(s, rest);
        assert((s + t).drop_last() =~= s + rest);
        let q = p.drop_last().push(p.last() + rest);
        assert(q.drop_last() =~= p.drop_last());
        assert((p.last() + rest).push(t.last()) =~= p.last() + t);
        assert((s + t).last() == t.last());
    }
}

/// Pieces put together come apart again.
pub proof fn pieces_come_apart(ps: Seq<Seq<char>>)
    requires
        ps.len() > 0,
        forall|i: int| 0 <= i < ps.len() ==> !(#[trigger] ps[i]).contains(','),
    ensures
        words::pieces(joined(ps)) == ps,
    decreases ps.len(),
{
    let none = Seq::<char>::empty();
    if ps.len() == 1 {
        last_piece_grows(none, ps[0]);
        assert(words::pieces(none) =~= seq![none]);
        assert(none + ps[0] =~= ps[0]);
        assert(words::pieces(ps[0]) =~= ps);
    } else {
        let rest = ps.drop_last();
        assert forall|i: int| 0 <= i < rest.len() implies !(#[trigger] rest[i]).contains(',') by {
            assert(rest[i] == ps[i]);
        }
        pieces_come_apart(rest);
        let s = joined(rest).push(',');
        assert(s.drop_last() =~= joined(rest));
        assert(words::pieces(s) == rest.push(none));
        last_piece_grows(s, ps[ps.len() - 1]);
        assert(rest.push(none).drop_last() =~= rest);
        assert(none + ps.last() =~= ps.last());
        assert(rest.push(ps.last()) =~= ps);
    }
}

/// A word that an address can spell is read as it stands.
proof fn mineable_word_stays(w: Seq<char>)
    requires
        words::is_mineable(w),
    ensures
        !w.contains(','),
        vstd::utf8::is_ascii_chars(w),
        words::trimmed(w) == w,
        words::ascii_lower(w) == w,
{
    assert forall|i: int| 0 <= i < w.len() implies '\0' <= #[trigger] w[i] <= '\u{7f}' && w[i] != ','
        && !words::is_space(w[i]) && text::lower_char(w[i]) == w[i] by {
        assert(('0' <= w[i] <= '9') || ('a' <= w[i] <= 'f'));
    }
    if w.len() > 0 {
        assert(!words::is_space(w[0]));
        assert(!words::is_space(w[w.len() - 1]));
    }
    assert(words::ascii_lower(w) =~= w);
}

/// A ranked list, written down with commas, reads back as it is.
pub proof fn ranked_words_read_back(
    raw: Seq<char>,
    ranked: Vec<String>,
    s: Result<Vec<String>, String>,
)
    requires
        is_reading(raw, Ok(ranked)),
        is_reading(joined(words::texts(ranked@)), s),
    ensures
        s matches Ok(again) && words::texts(again@) == words::texts(ranked@),
{
    let ws = words::texts(ranked@);
    assert forall|i: int| 0 <= i < ws.len() implies words::is_mineable(#[trigger] ws[i])
        && ws[i].len() > 0 by {
        assert(ws.contains(ws[i]));
        assert(words::is_word_in(words::listed(raw), ws[i]));
    }
    assert forall|i: int| 0 <= i < ws.len() implies !(#[trigger] ws[i]).contains(',') by {
        mineable_word_stays(ws[i]);
    }
    pieces_come_apart(ws);
    let list = words::listed(joined(ws));
    assert forall|i: int| 0 <= i < ws.len() implies list[i] == ws[i] by {
        mineable_word_stays(ws[i]);
        assert(words::pieces(joined(ws))[i] == ws[i]);
    }
    assert(list =~= ws);
    assert forall|w: Seq<char>| #[trigger]
        words::is_word_in(words::listed(raw), w) <==> words::is_word_in(list, w) by {
        assert(ws.contains(w) <==> words::is_word_in(words::listed(raw), w));
        if ws.contains(w) {
            let k = ws.index_of(w);
            assert(ws[k] == w);
        }
    }
    words_settle_the_result(words::listed(raw), list, Ok(ranked), s);
}

} // verus!
