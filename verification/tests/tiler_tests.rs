use jieplag::run;

fn pseudo_random(seed: u64, n: usize) -> Vec<u8> {
    let mut state = seed;
    let mut bytes = Vec::new();
    for _ in 0..n {
        state = state.wrapping_mul(6364136223846793005).wrapping_add(1442695040888963407);
        bytes.push((state >> 33) as u8);
    }
    bytes
}

#[test]
fn test_identical_streams_one_match() {
    let s: Vec<u8> = (0..100u8).collect();
    let matches = run(&s, &s, 40, 20);
    assert_eq!(matches.len(), 1);
    assert_eq!(matches[0].pattern_index, 0);
    assert_eq!(matches[0].text_index, 0);
    assert_eq!(matches[0].length, 100);
}

#[test]
fn test_matches_disjoint_and_long_enough() {
    let shared_a = pseudo_random(7, 60);
    let shared_b = pseudo_random(8, 50);
    let mut pattern = pseudo_random(9, 30);
    pattern.extend_from_slice(&shared_a);
    pattern.extend_from_slice(&pseudo_random(10, 20));
    pattern.extend_from_slice(&shared_b);
    let mut text = pseudo_random(11, 10);
    text.extend_from_slice(&shared_b);
    text.extend_from_slice(&pseudo_random(12, 40));
    text.extend_from_slice(&shared_a);
    let minimum = 40;
    let matches = run(&pattern, &text, minimum, 20);
    assert!(!matches.is_empty());
    for m in &matches {
        assert!(m.length >= minimum);
        for d in 0..m.length {
            assert_eq!(pattern[m.pattern_index + d], text[m.text_index + d]);
        }
    }
    for a in 0..matches.len() {
        for b in 0..matches.len() {
            if a != b {
                let (x, y) = (&matches[a], &matches[b]);
                assert!(
                    x.pattern_index + x.length <= y.pattern_index
                        || y.pattern_index + y.length <= x.pattern_index
                );
                assert!(
                    x.text_index + x.length <= y.text_index
                        || y.text_index + y.length <= x.text_index
                );
            }
        }
    }
}

#[test]
fn test_no_match_below_minimum() {
    let pattern = pseudo_random(21, 120);
    let text = pseudo_random(22, 120);
    // unrelated random streams share no 40-byte run
    let matches = run(&pattern, &text, 40, 20);
    assert!(matches.is_empty());
}

#[test]
fn test_small_overlap_tiled_once() {
    let mut pattern = vec![9u8; 0];
    pattern.extend_from_slice(b"0123456789");
    let mut text = vec![];
    text.extend_from_slice(b"xx0123456789yy");
    let matches = run(&pattern, &text, 4, 2);
    assert_eq!(matches.len(), 1);
    assert_eq!(matches[0].pattern_index, 0);
    assert_eq!(matches[0].text_index, 2);
    assert_eq!(matches[0].length, 10);
}
