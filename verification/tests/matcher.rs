use b20crunch::mine::{Matcher, Pos};
use b20crunch::words::Positions;

fn t(s: &str) -> [u8; 18] {
    s.as_bytes().try_into().unwrap()
}

#[test]
fn uniform_fast_path_prefix_and_suffix() {
    let m = Matcher::new(&["dead".into(), "beef".into()], Positions::Ends, 6);
    assert_eq!(
        m.find(&t("dead12345678901234")),
        Some((Pos::Prefix, "dead"))
    );
    assert_eq!(
        m.find(&t("12345678901234beef")),
        Some((Pos::Suffix, "beef"))
    );
    assert_eq!(m.find(&t("123456dead89012345")), None); // inner not enabled
    assert_eq!(m.find(&t("123456789012345678")), None);
}

#[test]
fn prefix_beats_suffix_beats_inner() {
    let m = Matcher::new(&["dead".into()], Positions::Ends, 4);
    // both ends match: prefix wins
    assert_eq!(
        m.find(&t("dead1234567890dead")),
        Some((Pos::Prefix, "dead"))
    );
    let m = Matcher::new(&["dead".into(), "c0ffee".into()], Positions::Any, 4);
    // suffix and inner both present: suffix wins
    assert_eq!(
        m.find(&t("12c0ffee901234dead")),
        Some((Pos::Suffix, "dead"))
    );
}

#[test]
fn longest_word_wins_at_same_end() {
    let m = Matcher::new(&["deadbeef".into(), "dead".into()], Positions::Prefix, 6);
    assert_eq!(
        m.find(&t("deadbeef9012345678")),
        Some((Pos::Prefix, "deadbeef"))
    );
}

#[test]
fn inner_respects_inner_min() {
    let m = Matcher::new(&["c0ffee".into(), "dead".into()], Positions::Any, 6);
    assert_eq!(
        m.find(&t("12c0ffee9012345678")),
        Some((Pos::Inner, "c0ffee"))
    );
    assert_eq!(m.find(&t("12dead345678901234")), None); // 4 < inner_min 6
}

#[test]
fn prefix_only_and_suffix_only() {
    let m = Matcher::new(&["dead".into()], Positions::Prefix, 6);
    assert_eq!(m.find(&t("12345678901234dead")), None);
    let m = Matcher::new(&["dead".into()], Positions::Suffix, 6);
    assert_eq!(m.find(&t("dead12345678901234")), None);
}

#[test]
fn the_full_window_matches_as_a_prefix() {
    let m = Matcher::new(&["deadbeefdeadbeef00".into()], Positions::Any, 6);
    assert_eq!(
        m.find(&t("deadbeefdeadbeef00")),
        Some((Pos::Prefix, "deadbeefdeadbeef00"))
    );
    assert_eq!(m.find(&t("deadbeefdeadbeef01")), None);
}

#[test]
fn every_inner_place_is_looked_at() {
    let m = Matcher::new(&["abc".into(), "de".into()], Positions::Any, 3);
    for k in 1..15 {
        let mut s = [b'0'; 18];
        s[k..k + 3].copy_from_slice(b"abc");
        assert_eq!(m.find(&s), Some((Pos::Inner, "abc")));
    }
    // the shorter word still counts at the ends
    assert_eq!(m.find(&t("de0000000000000000")), Some((Pos::Prefix, "de")));
    assert_eq!(m.find(&t("0000000000000000de")), Some((Pos::Suffix, "de")));
    assert_eq!(m.find(&t("00000000de00000000")), None);
}

#[test]
fn longest_word_wins_inside_too() {
    let m = Matcher::new(&["c0ffee".into(), "beef".into()], Positions::Any, 4);
    assert_eq!(
        m.find(&t("0beef0000c0ffee000")),
        Some((Pos::Inner, "c0ffee"))
    );
}

#[test]
fn binary_search_finds_every_word() {
    let mut list: Vec<String> = Vec::new();
    for i in (0..256u32).rev() {
        list.push(format!("{:04x}", i * 257));
    }
    let m = Matcher::new(&list, Positions::Suffix, 6);
    for w in &list {
        let mut s = [b'g'; 18];
        s[14..].copy_from_slice(w.as_bytes());
        assert_eq!(m.find(&s), Some((Pos::Suffix, w.as_str())));
    }
    assert_eq!(m.find(&t("000000000000000001")), None);
}

#[test]
fn names_and_codes_of_positions() {
    assert_eq!(
        [Pos::Prefix, Pos::Suffix, Pos::Inner].map(|p| p.as_str()),
        ["prefix", "suffix", "inner"]
    );
    assert_eq!(
        [Pos::Prefix, Pos::Suffix, Pos::Inner].map(|p| p.code()),
        [0, 1, 2]
    );
}

#[test]
fn words_by_number() {
    let m = Matcher::new(&["c0ffee".into(), "dead".into()], Positions::Any, 6);
    assert_eq!(m.word(1), Some("dead"));
    assert_eq!(m.word(2), None);
    assert_eq!(m.word_count(), 2);
    assert_eq!(m.inner_word(0), Some("c0ffee"));
    assert_eq!(m.inner_word(1), None);
    assert_eq!(m.ends(), (true, true));
}

#[test]
fn no_words_find_nothing() {
    let m = Matcher::new(&[], Positions::Any, 0);
    assert_eq!(m.find(&t("deadbeefdeadbeef00")), None);
}
