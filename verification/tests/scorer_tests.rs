use jieplag::all_fingerprint;
use jieplag::build_index;
use jieplag::fingerprint;
use jieplag::remove_template_hashes;
use jieplag::score_matrix;

fn pseudo_random(seed: u64, n: usize) -> Vec<u8> {
    let mut state = seed;
    let mut bytes = Vec::new();
    for _ in 0..n {
        state = state.wrapping_mul(6364136223846793005).wrapping_add(1442695040888963407);
        bytes.push((state >> 33) as u8);
    }
    bytes
}

#[test]
fn test_shared_fingerprints_scored() {
    // two submissions share a block; a third is unrelated
    let shared = pseudo_random(5, 120);
    let mut sub_a = pseudo_random(6, 30);
    sub_a.extend_from_slice(&shared);
    let mut sub_b = pseudo_random(7, 30);
    sub_b.extend_from_slice(&shared);
    let sub_c = pseudo_random(8, 150);
    let noise = 5;
    let guarantee = 8;
    let all_fps = vec![
        fingerprint(&sub_a, noise, guarantee),
        fingerprint(&sub_b, noise, guarantee),
        fingerprint(&sub_c, noise, guarantee),
    ];
    let index = build_index(&all_fps);
    let template = all_fingerprint(&pseudo_random(9, 60), noise);
    let index = remove_template_hashes(index, &template);
    let k = 3;
    let m = score_matrix(&index, k, 1000);
    assert!(m[0 * k + 1] > 0);
    assert_eq!(m[0 * k + 1], m[1 * k + 0]);
    assert_eq!(m[0 * k + 2], 0);
    assert_eq!(m[1 * k + 2], 0);
    assert_eq!(m[0 * k + 0], 0);
}

#[test]
fn test_template_suppression() {
    // template, first and second submission are all the same stream
    let stream = pseudo_random(10, 200);
    let noise = 5;
    let guarantee = 8;
    let template = all_fingerprint(&stream, noise);
    let all_fps = vec![
        fingerprint(&stream, noise, guarantee),
        fingerprint(&stream, noise, guarantee),
    ];
    let index = build_index(&all_fps);
    let index = remove_template_hashes(index, &template);
    let k = 2;
    let m = score_matrix(&index, k, 1000);
    assert_eq!(m, vec![0, 0, 0, 0]);
}

#[test]
fn test_common_cutoff() {
    // twenty submissions share one noise-gram and nothing else
    let noise = 5;
    let guarantee = 5;
    let k = 20;
    let mut all_fps = Vec::new();
    for i in 0..k {
        let mut sub = vec![1u8, 2, 3, 4, 5];
        // the tail of each submission is its own random noise
        sub.extend_from_slice(&pseudo_random(1000 + i as u64, 10));
        all_fps.push(fingerprint(&sub, noise, guarantee));
    }
    let shared_hash = all_fps[0][0].hash;
    for i in 1..k {
        assert_eq!(all_fps[i][0].hash, shared_hash);
    }
    let index = build_index(&all_fps);
    let template: Vec<jieplag::Fingerprint> = Vec::new();
    let index = remove_template_hashes(index, &template);
    let m = score_matrix(&index, k, 10);
    // the shared bucket holds twenty entries, over the cutoff of ten, so it
    // contributes nothing, and the tails are each submission's own
    for i in 0..k {
        for j in 0..k {
            assert_eq!(m[i * k + j], 0, "pair ({}, {})", i, j);
        }
    }
}
