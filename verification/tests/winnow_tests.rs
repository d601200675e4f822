use jieplag::all_fingerprint;
use jieplag::fingerprint;

#[test]
fn test_all_fingerprint() {
    // example taken from paper
    let text = "adorunrunrunadorunrun";
    let fingerprints = all_fingerprint(text.as_bytes(), 5);
    println!("{:?}", fingerprints);

    // adoru @ 0, 12
    assert_eq!(fingerprints[0].hash, fingerprints[12].hash);

    // dorun @ 1, 13
    assert_eq!(fingerprints[1].hash, fingerprints[13].hash);

    // runru @ 3, 6, 15
    assert_eq!(fingerprints[3].hash, fingerprints[6].hash);
    assert_eq!(fingerprints[3].hash, fingerprints[15].hash);
}

#[test]
fn test_fingerprint() {
    // example taken from paper
    let text = "adorunrunrunadorunrun";
    let all_fingerprints = all_fingerprint(text.as_bytes(), 5);
    println!("{:?}", all_fingerprints);

    // windows size of hashes = 2
    let fingerprints = fingerprint(text.as_bytes(), 5, 6);
    println!("{:?}", fingerprints);

    // check if subset
    for f in &fingerprints {
        assert!(all_fingerprints.contains(f), "{:?} not found", f);
    }
}

#[test]
fn test_all_fingerprint_counts_every_gram() {
    let text = "adorunrunrunadorunrun";
    let fingerprints = all_fingerprint(text.as_bytes(), 5);
    assert_eq!(fingerprints.len(), text.len() - 5 + 1);
    for (i, f) in fingerprints.iter().enumerate() {
        assert_eq!(f.offset, i);
    }
}

#[test]
fn test_hashes_depend_on_content() {
    // different grams must hash apart, so the rolling hash cannot be a
    // constant or an echo of its input length
    let fingerprints = all_fingerprint(&[1, 2, 3, 4, 5, 6], 3);
    assert_eq!(fingerprints.len(), 4);
    assert_ne!(fingerprints[0].hash, fingerprints[1].hash);
    assert_ne!(fingerprints[1].hash, fingerprints[2].hash);
}

#[test]
fn test_short_stream_is_silent() {
    assert!(all_fingerprint(&[1, 2, 3], 5).is_empty());
    assert!(fingerprint(&[1, 2, 3], 5, 8).is_empty());
}

#[test]
fn test_fingerprint_offsets_strictly_increase() {
    let mut state: u64 = 11;
    let mut bytes = Vec::new();
    for _ in 0..500 {
        state = state.wrapping_mul(6364136223846793005).wrapping_add(1442695040888963407);
        bytes.push((state >> 33) as u8);
    }
    let fps = fingerprint(&bytes, 5, 8);
    for w in fps.windows(2) {
        assert!(w[0].offset < w[1].offset);
    }
}

#[test]
fn test_fingerprint_density() {
    // a pseudo-random stream stays within the expected winnowing density
    let mut state: u64 = 42;
    let mut bytes = Vec::new();
    let length = 2000;
    for _ in 0..length {
        state = state.wrapping_mul(6364136223846793005).wrapping_add(1442695040888963407);
        bytes.push((state >> 33) as u8);
    }
    let noise = 40;
    let guarantee = 48;
    let fps = fingerprint(&bytes, noise, guarantee);
    let bound = 2 * length / (guarantee - noise + 2);
    assert!(fps.len() <= bound, "{} fingerprints exceed bound {}", fps.len(), bound);
}

#[test]
fn test_coverage_on_shared_substring() {
    // two distinct streams sharing a long run of equal bytes share a hash
    let mut left = Vec::new();
    let mut right = Vec::new();
    for i in 0..60u16 {
        left.push((i % 251) as u8);
    }
    for i in 0..40u16 {
        right.push(200u8.wrapping_add(i as u8));
    }
    let shared: Vec<u8> = (0..90u16).map(|i| (i * 7 % 253) as u8).collect();
    left.extend_from_slice(&shared);
    right.extend_from_slice(&shared);
    let fl = fingerprint(&left, 5, 8);
    let fr = fingerprint(&right, 5, 8);
    let mut found = false;
    for a in &fl {
        for b in &fr {
            if a.hash == b.hash {
                found = true;
            }
        }
    }
    assert!(found);
}
