use tantivy_go::queries::fuzzy::{
    effective_distance, Alternatives, Expansion, MAX_FUZZY_EXPANSIONS, MIN_LEN_D1, MIN_LEN_D2,
};

#[test]
fn short_tokens_are_not_fuzzed() {
    assert_eq!(effective_distance("act", 2), 0);
    assert_eq!(effective_distance("work", 1), 0);
}

#[test]
fn medium_tokens_get_one_edit() {
    assert_eq!(effective_distance("wages", 2), 1);
    assert_eq!(effective_distance("notice", 2), 1);
}

#[test]
fn long_tokens_get_the_full_budget() {
    assert_eq!(effective_distance("dismissal", 2), 2);
    assert_eq!(effective_distance("termination", 2), 2);
    // A request for less is still honoured.
    assert_eq!(effective_distance("termination", 1), 1);
}

#[test]
fn tokens_carrying_a_digit_are_never_fuzzed() {
    // s.64 must not match s.46.
    assert_eq!(effective_distance("64", 2), 0);
    assert_eq!(effective_distance("2019", 2), 0);
    assert_eq!(effective_distance("section64", 2), 0);
}

#[test]
fn zero_request_stays_zero() {
    assert_eq!(effective_distance("termination", 0), 0);
}

#[test]
fn length_gates_sit_at_five_and_nine_characters() {
    assert_eq!(MIN_LEN_D1, 5);
    assert_eq!(MIN_LEN_D2, 9);
    assert_eq!(effective_distance("four", 2), 0);
    assert_eq!(effective_distance("fives", 2), 1);
    assert_eq!(effective_distance("eightchr", 2), 1);
    assert_eq!(effective_distance("ninechars", 2), 2);
}

#[test]
fn length_is_counted_in_characters_not_bytes() {
    // Four characters, eight bytes: still too short for an edit.
    assert_eq!(effective_distance("éééé", 2), 0);
    // Nine characters, more bytes: two edits.
    assert_eq!(effective_distance("déménagés", 2), 2);
}

#[test]
fn only_ascii_digits_block_fuzzing() {
    assert_eq!(effective_distance("abcd0efgh", 2), 0);
    assert_eq!(effective_distance("abcd9efgh", 2), 0);
    // A non-ASCII numeral is not an ASCII digit.
    assert_eq!(effective_distance("abcd٣efgh", 2), 2);
}

#[test]
fn budget_never_exceeds_two_or_the_request() {
    for requested in 0..=255u8 {
        let d = effective_distance("extraordinarily", requested);
        assert!(d <= 2);
        assert!(d <= requested);
        assert_eq!(d, requested.min(2));
    }
}

#[test]
fn budget_is_the_request_capped_by_the_token() {
    for token in ["act", "wages", "termination", "section64"] {
        let cap = effective_distance(token, 2);
        for requested in 0..=4u8 {
            assert_eq!(effective_distance(token, requested), requested.min(cap));
        }
    }
}

#[test]
fn budget_asked_again_is_unchanged() {
    for token in ["act", "wages", "termination", "section64"] {
        for requested in 0..=3u8 {
            let d = effective_distance(token, requested);
            assert_eq!(effective_distance(token, d), d);
        }
    }
}

#[test]
fn budget_is_monotone_in_the_request() {
    let a = effective_distance("dismissal", 1);
    let b = effective_distance("dismissal", 2);
    assert!(a <= b);
    assert_eq!((a, b), (1, 2));
}

fn terms_of(a: Alternatives) -> Vec<(u8, String)> {
    match a {
        Alternatives::ExactOnly => Vec::new(),
        Alternatives::ExactOrFuzzy(v) => v.into_iter().map(|t| (t.distance, t.text)).collect(),
    }
}

#[test]
fn nothing_offered_stays_exact() {
    let e = Expansion::new("dismisal", 1);
    assert_eq!(e.len(), 0);
    assert!(matches!(e.finish(), Alternatives::ExactOnly));
}

#[test]
fn the_token_itself_is_never_an_alternative() {
    let mut e = Expansion::new("dismisal", 2);
    assert!(!e.offer(1, b"dismisal"));
    assert!(!e.offer(2, b"dismisal"));
    assert_eq!(e.len(), 0);
    assert!(matches!(e.finish(), Alternatives::ExactOnly));
}

#[test]
fn a_near_spelling_is_collected_with_its_distance() {
    let mut e = Expansion::new("dismisal", 1);
    assert!(!e.offer(1, b"dismissal"));
    assert_eq!(terms_of(e.finish()), vec![(1, "dismissal".to_string())]);
}

#[test]
fn the_narrowest_pass_keeps_its_distance() {
    let mut e = Expansion::new("termnation", 2);
    e.offer(1, b"termination");
    e.offer(2, b"terminations");
    // Found again by the wider pass: it stays at distance 1.
    e.offer(2, b"termination");
    assert_eq!(
        terms_of(e.finish()),
        vec![(1, "termination".to_string()), (2, "terminations".to_string())]
    );
}

#[test]
fn a_key_that_is_not_utf8_is_skipped() {
    let mut e = Expansion::new("dismisal", 1);
    assert!(!e.offer(1, &[0x64, 0xff, 0x69]));
    assert!(!e.offer(1, &[0xc0, 0x80]));
    assert_eq!(e.len(), 0);
}

#[test]
fn keys_are_decoded_to_their_text() {
    let mut e = Expansion::new("strasse", 1);
    e.offer(1, "straße".as_bytes());
    let terms = terms_of(e.finish());
    assert_eq!(terms.len(), 1);
    assert_eq!(terms[0].1, "straße");
    assert_eq!(terms[0].1.chars().count(), 6);
}

#[test]
fn expansion_stops_at_the_ceiling() {
    assert_eq!(MAX_FUZZY_EXPANSIONS, 50);
    let mut e = Expansion::new("abcdefghij", 2);
    let mut full_at = None;
    for i in 0..MAX_FUZZY_EXPANSIONS {
        let key = format!("term{i:03}");
        let full = e.offer(1, key.as_bytes());
        if full {
            full_at = Some(i);
            break;
        }
    }
    assert_eq!(full_at, Some(MAX_FUZZY_EXPANSIONS - 1));
    assert_eq!(e.len(), MAX_FUZZY_EXPANSIONS);
    let terms = terms_of(e.finish());
    assert_eq!(terms.len(), 50);
    assert_eq!(terms[0], (1, "term000".to_string()));
    assert_eq!(terms[49], (1, "term049".to_string()));
}

#[test]
fn repeats_do_not_count_toward_the_ceiling() {
    let mut e = Expansion::new("abcdefghij", 2);
    for _ in 0..100 {
        assert!(!e.offer(1, b"abcdefghik"));
    }
    assert_eq!(e.len(), 1);
}

#[test]
fn alternatives_keep_the_order_they_were_found_in() {
    let mut e = Expansion::new("wagess", 1);
    e.offer(1, b"wages");
    e.offer(1, b"wagers");
    e.offer(1, b"wages");
    e.offer(1, b"sages");
    assert_eq!(
        terms_of(e.finish()),
        vec![
            (1, "wages".to_string()),
            (1, "wagers".to_string()),
            (1, "sages".to_string())
        ]
    );
}

#[test]
fn a_digit_token_gets_no_budget_and_stays_exact() {
    let d = effective_distance("section64", 2);
    assert_eq!(d, 0);
    let e = Expansion::new("section64", d);
    assert!(matches!(e.finish(), Alternatives::ExactOnly));
}

#[test]
fn the_ceiling_only_cuts_the_widest_pass() {
    let mut e = Expansion::new("abcdefghij", 2);
    for i in 0..10 {
        assert!(!e.offer(1, format!("near{i:02}").as_bytes()));
    }
    let mut full = false;
    for i in 0..100 {
        if e.offer(2, format!("far{i:03}").as_bytes()) {
            full = true;
            break;
        }
    }
    assert!(full);
    let terms = terms_of(e.finish());
    assert_eq!(terms.len(), 50);
    // Every distance-1 term survived, first and in order.
    for i in 0..10 {
        assert_eq!(terms[i], (1, format!("near{i:02}")));
    }
    assert!(terms[10..].iter().all(|(d, _)| *d == 2));
    assert_eq!(terms[49].1, "far039");
}
