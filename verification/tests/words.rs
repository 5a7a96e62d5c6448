use b20crunch::text;
use b20crunch::words::{hit_odds, parse_words, rank_words, split_list, Odds, Positions};

#[test]
fn parses_and_sorts_longest_first() {
    let w = parse_words("dead, C0FFEE,dead,beef").unwrap();
    assert_eq!(w, vec!["c0ffee", "beef", "dead"]);
}

#[test]
fn rejects_non_hex_with_leet_hint() {
    let e = parse_words("hello").unwrap_err();
    assert!(e.contains("leetspeak"), "hint missing: {e}");
}

#[test]
fn rejects_empty_and_too_long() {
    assert!(parse_words("  , ,").is_err());
    assert!(parse_words("aaaaaaaaaaaaaaaaaaa").is_err()); // 19 chars
}

/// Expected salts per hit, out of the odds.
fn expected_salts_per_hit(len: usize, positions: Positions, inner_min: usize) -> f64 {
    let odds = hit_odds(len, positions, inner_min);
    16f64.powi(odds.exponent as i32) / odds.numerator as f64
}

#[test]
fn expected_math() {
    // single end: 16^6
    let one = expected_salts_per_hit(6, Positions::Prefix, 6);
    assert!((one - 16f64.powi(6)).abs() < 1.0);
    // both ends: ~half of that (union, correction negligible at L=6)
    let ends = expected_salts_per_hit(6, Positions::Ends, 6);
    assert!((ends - 16f64.powi(6) / 2.0).abs() / ends < 0.001);
    // full window: single placement, no doubling
    assert_eq!(expected_salts_per_hit(18, Positions::Ends, 6), 16f64.powi(18));
    // any: 19 - L placements at L=8 -> 11x a single end
    let any = expected_salts_per_hit(8, Positions::Any, 6);
    assert!((any - 16f64.powi(8) / 11.0).abs() / any < 0.01);
    // any but word below inner-min: ends only
    let short = expected_salts_per_hit(4, Positions::Any, 6);
    assert!((short - 16f64.powi(4) / 2.0).abs() / short < 0.01);
}

#[test]
fn odds_are_exact() {
    let odds = |numerator, exponent| Odds { numerator, exponent };
    assert_eq!(hit_odds(6, Positions::Prefix, 6), odds(1, 6));
    assert_eq!(hit_odds(6, Positions::Suffix, 6), odds(1, 6));
    assert_eq!(hit_odds(7, Positions::Suffix, 6), odds(1, 7));
    // two ends, less both at once
    assert_eq!(hit_odds(1, Positions::Ends, 6), odds(31, 2));
    assert_eq!(hit_odds(9, Positions::Ends, 6), odds(2 * (1 << 36) - 1, 18));
    // the ends overlap
    assert_eq!(hit_odds(10, Positions::Ends, 6), odds(2, 10));
    assert_eq!(hit_odds(17, Positions::Any, 6), odds(2, 17));
    assert_eq!(hit_odds(8, Positions::Any, 6), odds(11 * (1 << 32) - 1, 16));
    assert_eq!(hit_odds(18, Positions::Any, 6), odds(1, 18));
}

#[test]
fn complaints_name_the_first_word_in_order() {
    assert_eq!(parse_words("").unwrap_err(), "no words given");
    assert_eq!(
        parse_words("dead,zebra,hello").unwrap_err(),
        "not hex-expressible: hello (only 0-9 a-f; leetspeak helps: o=0 l/i=1 s=5 t=7 g=6 z=2)"
    );
    assert_eq!(
        parse_words("aaaaaaaaaaaaaaaaaaa,zebra").unwrap_err(),
        "longer than the 18-char window: aaaaaaaaaaaaaaaaaaa"
    );
    assert_eq!(
        parse_words("zebra,0aaaaaaaaaaaaaaaaaaa").unwrap_err(),
        "longer than the 18-char window: 0aaaaaaaaaaaaaaaaaaa"
    );
}

#[test]
fn the_full_window_is_a_word() {
    assert_eq!(
        parse_words("deadbeefdeadbeef00").unwrap(),
        vec!["deadbeefdeadbeef00"]
    );
}

#[test]
fn white_space_and_order_do_not_matter() {
    let a = parse_words(" \tbeef\n,dead,\u{a0}c0ffee\u{2003}").unwrap();
    let b = parse_words("DEAD,c0FFee,BEEF,,beef").unwrap();
    assert_eq!(a, b);
    assert_eq!(a, vec!["c0ffee", "beef", "dead"]);
    // white space inside a word stays, and is no digit
    assert!(parse_words("de ad").is_err());
}

#[test]
fn lower_case_beyond_ascii() {
    // U+212A KELVIN SIGN lowers to k, U+0130 to two characters
    assert_eq!(
        parse_words("\u{212a}").unwrap_err(),
        "not hex-expressible: k (only 0-9 a-f; leetspeak helps: o=0 l/i=1 s=5 t=7 g=6 z=2)"
    );
    assert_eq!(
        parse_words("\u{130}").unwrap_err(),
        "not hex-expressible: i\u{307} (only 0-9 a-f; leetspeak helps: o=0 l/i=1 s=5 t=7 g=6 z=2)"
    );
}

#[test]
fn decimals_read_back() {
    for n in [0u128, 7, 10, 42, 65_536, u64::MAX as u128 + 1, u128::MAX] {
        assert_eq!(text::decimal(n), n.to_string());
        assert_eq!(text::parse_decimal(&text::decimal(n)), Some(n));
    }
    assert_eq!(text::parse_decimal("+12"), Some(12));
    assert_eq!(text::parse_decimal("007"), Some(7));
    for s in ["", "+", "++1", "-1", "1 ", "0x1", "\u{661}", "340282366920938463463374607431768211456"] {
        assert_eq!(text::parse_decimal(s), None);
        assert!(s.parse::<u128>().is_err());
    }
}

#[test]
fn case_is_ignored_in_ascii_only() {
    assert!(text::eq_ignoring_case("0xABcdef", "0xabCDEF"));
    assert!(!text::eq_ignoring_case("0xabc", "0xabcd"));
    assert!(!text::eq_ignoring_case("\u{c9}", "\u{e9}"));
    assert!(!text::eq_ignoring_case("@", "`"));
}

#[test]
fn a_list_is_split_before_it_is_ranked() {
    let list = split_list(" DEAD ,,c0ffee,dead");
    assert_eq!(list, vec!["dead", "", "c0ffee", "dead"]);
    assert_eq!(rank_words(&list).unwrap(), vec!["c0ffee", "dead"]);
    assert_eq!(split_list(""), vec![""]);
    // ranking takes the words as they are
    assert_eq!(
        rank_words(&["DEAD".to_string()]).unwrap_err(),
        "not hex-expressible: DEAD (only 0-9 a-f; leetspeak helps: o=0 l/i=1 s=5 t=7 g=6 z=2)"
    );
}

#[test]
fn ranked_words_read_back() {
    for raw in ["dead, C0FFEE,dead,beef", "7", "deadbeefdeadbeef00,a,b,,A"] {
        let ws = parse_words(raw).unwrap();
        assert_eq!(parse_words(&ws.join(",")).unwrap(), ws);
    }
}

#[test]
fn the_way_a_list_is_written_does_not_matter() {
    let ws = parse_words("dead,c0ffee,beef").unwrap();
    for raw in [
        "beef,dead,c0ffee",
        "dead,dead,c0ffee,beef,c0ffee",
        "DEAD,c0FFee,bEEf",
        " dead\t,\u{2003}c0ffee, beef\n",
        ",,dead,,c0ffee, ,beef,",
    ] {
        assert_eq!(parse_words(raw).unwrap(), ws, "{raw:?}");
    }
    assert_eq!(
        parse_words("ZEBRA, hello,").unwrap_err(),
        parse_words("HELLO,zebra,hello").unwrap_err()
    );
}
