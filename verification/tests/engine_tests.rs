use safemask::engine::MaskEngine;
use safemask::engine::MatchSpan;
use safemask::engine::resolve_matches;
use safemask::engine::sort_matches;
use safemask::rules::Rule;

fn rule(name: &str, pattern: &str, mask: &str, priority: i32) -> Rule {
    Rule {
        name: name.to_string(),
        pattern: pattern.to_string(),
        mask: mask.to_string(),
        priority,
        enabled: true,
        is_custom: false,
    }
}

fn mask(engine: &MaskEngine, input: &str) -> String {
    String::from_utf8(engine.mask_line(input.as_bytes())).unwrap()
}

#[test]
fn literal_replacement() {
    let engine = MaskEngine::new(vec![rule("k", "secret", "<X>", 0)]);
    assert_eq!(mask(&engine, "my secret data"), "my <X> data");
}

#[test]
fn regex_replacement() {
    let engine = MaskEngine::new(vec![rule("phone", "1[3-9][0-9]{9}", "<P>", 10)]);
    assert_eq!(mask(&engine, "call 13812345678 now"), "call <P> now");
}

#[test]
fn priority_tie_break_literal_wins() {
    let engine = MaskEngine::new(vec![
        rule("r1", "abc", "<L>", 5),
        rule("r2", "a.c", "<R>", 5),
    ]);
    assert_eq!(mask(&engine, "abc"), "<L>");
}

#[test]
fn overlap_suppression() {
    let engine = MaskEngine::new(vec![
        rule("r1", "foobar", "<1>", 1),
        rule("r2", "oob", "<2>", 10),
    ]);
    // both are literals; r1 covers [0,6), r2 at [1,4) starts inside it and
    // is dropped by the left-to-right walk
    assert_eq!(mask(&engine, "foobar"), "<1>");
}

#[test]
fn clean_input_identical() {
    let engine = MaskEngine::new(vec![rule("k", "secret", "<X>", 0)]);
    let input = "nothing here";
    assert_eq!(engine.mask_line(input.as_bytes()), input.as_bytes());
}

#[test]
fn empty_input_unchanged() {
    let engine = MaskEngine::new(vec![rule("k", "secret", "<X>", 0)]);
    assert_eq!(engine.mask_line(b""), b"");
}

#[test]
fn disabled_rules_are_dropped() {
    let mut r = rule("k", "secret", "<X>", 0);
    r.enabled = false;
    let engine = MaskEngine::new(vec![r]);
    assert_eq!(mask(&engine, "my secret data"), "my secret data");
}

#[test]
fn invalid_regex_is_quarantined() {
    let engine = MaskEngine::new(vec![
        rule("bad", "([", "<B>", 0),
        rule("good", "secret", "<X>", 0),
    ]);
    assert_eq!(mask(&engine, "a secret ( here"), "a <X> ( here");
}

#[test]
fn empty_mask_deletes_match() {
    let engine = MaskEngine::new(vec![rule("k", "secret", "", 0)]);
    assert_eq!(mask(&engine, "a secret b"), "a  b");
}

#[test]
fn adjacent_matches_both_masked() {
    let engine = MaskEngine::new(vec![rule("k", "ab", "<X>", 0)]);
    assert_eq!(mask(&engine, "abab"), "<X><X>");
}

#[test]
fn zero_width_regex_is_non_matching() {
    // x* matches the empty string, so the rule is rejected at construction
    let engine = MaskEngine::new(vec![rule("z", "x*", "<Z>", 0)]);
    assert_eq!(mask(&engine, "abc"), "abc");
}

#[test]
fn zero_width_capable_regex_rejected_at_construction() {
    // a* would match "aaa" with non-empty spans, but it also matches the
    // empty string, so the whole rule is rejected when the engine is built;
    // the other rules stay active
    let engine = MaskEngine::new(vec![
        rule("z", "a*", "<Z>", 5),
        rule("k", "ab", "<K>", 0),
    ]);
    assert_eq!(mask(&engine, "aaab"), "aa<K>");
}

#[test]
fn boundary_zero_width_match_is_ignored_at_runtime() {
    // a bare word boundary does not match the empty string, so it passes
    // construction; every match it produces is zero-width and the scanner
    // treats them all as non-matching
    let engine = MaskEngine::new(vec![rule("b", "\\b", "<B>", 0)]);
    assert_eq!(mask(&engine, "ab cd"), "ab cd");
}

#[test]
fn higher_priority_regex_wins_same_start() {
    let engine = MaskEngine::new(vec![
        rule("low", "ab.", "<LOW>", 1),
        rule("high", "ab", "<HIGH>", 7),
    ]);
    // "ab." is a regex, "ab" a literal: the literal outranks any regex at
    // the same start, whatever the nominal priorities
    assert_eq!(mask(&engine, "abc"), "<HIGH>c");
}

#[test]
fn regex_priority_orders_overlaps() {
    let engine = MaskEngine::new(vec![
        rule("low", "a.c", "<LOW>", 1),
        rule("high", "a..", "<HIGH>", 9),
    ]);
    assert_eq!(mask(&engine, "abc"), "<HIGH>");
}

#[test]
fn longer_match_wins_equal_priority_equal_start() {
    let engine = MaskEngine::new(vec![
        rule("short", "ab", "<S>", 3),
        rule("long", "abcd", "<L>", 3),
    ]);
    // leftmost-longest in the literal automaton prefers the longer keyword
    assert_eq!(mask(&engine, "abcd"), "<L>");
}

#[test]
fn masking_is_deterministic() {
    let engine = MaskEngine::new(vec![
        rule("a", "secret", "<X>", 0),
        rule("b", "1[0-9]{10}", "<P>", 5),
    ]);
    let input = "secret 12345678901 secret";
    let first = mask(&engine, input);
    for _ in 0..5 {
        assert_eq!(mask(&engine, input), first);
    }
}

#[test]
fn masking_is_idempotent_when_masks_are_clean() {
    let engine = MaskEngine::new(vec![rule("k", "secret", "<X>", 0)]);
    let once = engine.mask_line(b"a secret b secret");
    let twice = engine.mask_line(&once);
    assert_eq!(once, twice);
}

#[test]
fn multiple_rules_across_line() {
    let engine = MaskEngine::new(vec![
        rule("mail", "[a-z]+@[a-z]+\\.com", "<EMAIL>", 10),
        rule("key", "secret", "<X>", 0),
    ]);
    assert_eq!(
        mask(&engine, "send secret to bob@example.com today"),
        "send <X> to <EMAIL> today"
    );
}

#[test]
fn clean_input_signals_no_change() {
    let engine = MaskEngine::new(vec![rule("k", "secret", "<X>", 0)]);
    assert!(engine.mask_line_changed(b"nothing here").is_none());
    assert_eq!(
        engine.mask_line_changed(b"a secret").unwrap(),
        b"a <X>".to_vec()
    );
}

#[test]
fn empty_pattern_matches_nothing() {
    // an empty pattern could only match zero-width spans, which are treated
    // as non-matching
    let engine = MaskEngine::new(vec![rule("empty", "", "<E>", 0)]);
    assert_eq!(engine.mask_line(b"abc"), b"abc".to_vec());
}

#[test]
fn resolution_walk_concrete() {
    let spans = vec![
        MatchSpan { start: 3, end: 6, priority: 1, mask: b"<A>".to_vec() },
        MatchSpan { start: 0, end: 2, priority: 5, mask: b"<B>".to_vec() },
        MatchSpan { start: 1, end: 4, priority: 9, mask: b"<C>".to_vec() },
    ];
    let sorted = sort_matches(spans);
    let out = resolve_matches(b"abcdefgh", &sorted);
    // sorted by start: (0,2) <B>, (1,4) <C>, (3,6) <A>; the walk emits <B>,
    // drops (1,4) because it starts inside [0,2)'s emitted span, keeps "c",
    // emits <A>, and keeps the tail
    assert_eq!(out, b"<B>c<A>gh".to_vec());
}
