use jieplag::find_matches;
use jieplag::merge_line_matches;
use jieplag::remove_template_spans;
use jieplag::exceeds_threshold;
use jieplag::LineMatch;
use jieplag::Token;

fn lm(a: u32, b: u32, c: u32, d: u32) -> LineMatch {
    LineMatch { left_from: a, left_to: b, right_from: c, right_to: d }
}

fn token(kind: u8, line: u32) -> Token {
    Token { kind, spelling: String::new(), line, column: 1 }
}

#[test]
fn test_line_merge_adjacent() {
    let merged = merge_line_matches(vec![lm(10, 20, 30, 40), lm(20, 25, 40, 45)]);
    assert_eq!(merged.len(), 1);
    assert_eq!(merged[0], lm(10, 25, 30, 45));
}

#[test]
fn test_line_merge_non_adjacent() {
    let input = vec![lm(10, 20, 30, 40), lm(21, 25, 41, 45)];
    let merged = merge_line_matches(input.clone());
    assert_eq!(merged, input);
}

#[test]
fn test_line_merge_idempotent() {
    let input = vec![
        lm(1, 3, 2, 4),
        lm(3, 6, 4, 7),
        lm(8, 9, 10, 11),
        lm(9, 12, 11, 13),
        lm(20, 21, 30, 31),
    ];
    let once = merge_line_matches(input.clone());
    let twice = merge_line_matches(once.clone());
    assert_eq!(once, twice);
    assert_eq!(once, vec![lm(1, 6, 2, 7), lm(8, 12, 10, 13), lm(20, 21, 30, 31)]);
}

#[test]
fn test_find_matches_identical_streams() {
    let left: Vec<Token> = (0..100u32).map(|i| token((i % 90) as u8, 1 + i / 10)).collect();
    let right = left.clone();
    let matches = find_matches(&left, &right);
    assert_eq!(matches.len(), 1);
    assert_eq!(matches[0], lm(1, 10, 1, 10));
}

#[test]
fn test_find_matches_sorted_by_left() {
    // two shared blocks placed in opposite orders in the two streams
    let block_a: Vec<u8> = (0..50u8).collect();
    let block_b: Vec<u8> = (100..150u8).collect();
    let mut left_kinds = Vec::new();
    left_kinds.extend_from_slice(&block_a);
    left_kinds.extend_from_slice(&[200, 201, 202, 203, 204, 205, 206, 207, 208, 209]);
    left_kinds.extend_from_slice(&block_b);
    let mut right_kinds = Vec::new();
    right_kinds.extend_from_slice(&block_b);
    right_kinds.extend_from_slice(&[210, 211, 212, 213, 214, 215, 216, 217, 218, 219]);
    right_kinds.extend_from_slice(&block_a);
    let left: Vec<Token> =
        left_kinds.iter().enumerate().map(|(i, k)| token(*k, 1 + i as u32)).collect();
    let right: Vec<Token> =
        right_kinds.iter().enumerate().map(|(i, k)| token(*k, 1 + i as u32)).collect();
    let matches = find_matches(&left, &right);
    assert_eq!(matches.len(), 2);
    for w in matches.windows(2) {
        assert!(w[0].left_from <= w[1].left_from);
        assert!(w[0].left_to <= w[1].left_from);
    }
}

#[test]
fn test_remove_template_spans() {
    let tokens: Vec<Token> = (0..10u8).map(|i| token(i, 1 + i as u32)).collect();
    let template_kinds: Vec<u8> = (2..6u8).collect();
    let kinds: Vec<u8> = (0..10u8).collect();
    let matches = jieplag::run(&kinds, &template_kinds, 4, 2);
    assert_eq!(matches.len(), 1);
    let rest = remove_template_spans(tokens, &matches);
    let rest_kinds: Vec<u8> = rest.iter().map(|t| t.kind).collect();
    assert_eq!(rest_kinds, vec![0, 1, 6, 7, 8, 9]);
}

#[test]
fn test_exceeds_threshold() {
    // 61 of 100 matched tokens exceed six tenths; 60 do not
    assert!(exceeds_threshold(61, 100, 6, 10));
    assert!(!exceeds_threshold(60, 100, 6, 10));
    assert!(!exceeds_threshold(0, 100, 6, 10));
}
