use block_approx::block::{
    duplicate_block, map_bytes_to_block, perturb, zero_block, BLOCK_CELLS, BLOCK_SIZE, DISTORTION,
};
use block_approx::metric::squared_error;
use block_approx::search::{BlockApproximator, Sha512CpuApproximator};
use sha2::Digest;

fn block_of(bytes: Vec<u8>) -> block_approx::block::Block {
    map_bytes_to_block(bytes).expect("one byte per cell")
}

#[test]
fn squared_error_of_identical_blocks_is_zero() {
    let a = block_of((0..64).map(|i| (i * 3 % 256) as u8).collect());
    let b = duplicate_block(&a);
    assert_eq!(squared_error(&a, &b), 0);
}

#[test]
fn squared_error_exact_values() {
    let zeros = block_of(vec![0u8; 64]);
    let ones = block_of(vec![1u8; 64]);
    assert_eq!(squared_error(&zeros, &ones), 64);
    assert_eq!(squared_error(&ones, &zeros), 64);

    let mut bytes = vec![0u8; 64];
    bytes[13] = 255;
    let spike = block_of(bytes);
    assert_eq!(squared_error(&zeros, &spike), 255 * 255);

    let tens = block_of(vec![10u8; 64]);
    let sevens = block_of(vec![7u8; 64]);
    assert_eq!(squared_error(&tens, &sevens), 64 * 9);
}

#[test]
fn map_bytes_to_block_accepts_exact_length() {
    assert_eq!(BLOCK_CELLS, BLOCK_SIZE * BLOCK_SIZE);
    let bytes: Vec<u8> = (0..BLOCK_CELLS as u8).collect();
    let b = map_bytes_to_block(bytes.clone()).expect("exact length accepted");
    for r in 0..BLOCK_SIZE {
        for c in 0..BLOCK_SIZE {
            assert_eq!(b.get(r, c), bytes[r * BLOCK_SIZE + c]);
        }
    }
}

#[test]
fn map_bytes_to_block_rejects_other_lengths() {
    assert!(map_bytes_to_block(vec![]).is_none());
    assert!(map_bytes_to_block(vec![0u8; 63]).is_none());
    assert!(map_bytes_to_block(vec![0u8; 65]).is_none());
    assert!(map_bytes_to_block(vec![0u8; 128]).is_none());
}

#[test]
fn perturb_adds_with_wraparound() {
    let input = block_of(vec![254u8; 64]);
    let delta = vec![3u8; 64];
    let shifted = perturb(&input, &delta);
    for r in 0..BLOCK_SIZE {
        for c in 0..BLOCK_SIZE {
            assert_eq!(shifted.get(r, c), 1);
        }
    }

    let input = block_of((0..64).collect());
    let delta: Vec<u8> = vec![1u8; 64];
    let shifted = perturb(&input, &delta);
    for t in 0..BLOCK_CELLS {
        assert_eq!(shifted.get(t / BLOCK_SIZE, t % BLOCK_SIZE), t as u8 + 1);
    }
}

#[test]
fn zero_block_is_all_zero() {
    let z = zero_block();
    for r in 0..BLOCK_SIZE {
        for c in 0..BLOCK_SIZE {
            assert_eq!(z.get(r, c), 0);
        }
    }
}

/// With a single all-zero delta the only trial is fixed, so every returned
/// part is recomputable byte for byte with an independent SHA-512.
#[test]
fn single_trial_matches_sha512_recomputation() {
    let approx = Sha512CpuApproximator::new(1);
    let input = block_of(vec![100u8; 64]);
    let target = block_of(vec![0u8; 64]);
    let deltas = vec![vec![0u8; 64]];
    let (err, best_src, best_dig) = approx.approximate_with_trials(&input, &target, &deltas);

    let expected = sha2::Sha512::digest([100u8; 64]);
    let mut expected_err: u64 = 0;
    for t in 0..BLOCK_CELLS {
        assert_eq!(best_src.get(t / BLOCK_SIZE, t % BLOCK_SIZE), 100);
        let d = best_dig.get(t / BLOCK_SIZE, t % BLOCK_SIZE);
        assert_eq!(d, expected[t]);
        expected_err += (d as u64) * (d as u64);
    }
    assert_eq!(err, expected_err);
    assert_eq!(err, squared_error(&target, &best_dig));
}

/// Running the same trials plus more never worsens the best error.
#[test]
fn more_trials_never_worsen_error() {
    let approx = Sha512CpuApproximator::new(0);
    let input = block_of((0..64).map(|i| (i * 5 % 251) as u8).collect());
    let target = block_of(vec![128u8; 64]);

    let mut deltas: Vec<Vec<u8>> = Vec::new();
    let mut last_err = u64::MAX;
    for k in 0..6u8 {
        deltas.push((0..64).map(|i| ((i as u8).wrapping_mul(k + 1)) % DISTORTION).collect());
        let (err, _, _) = approx.approximate_with_trials(&input, &target, &deltas);
        assert!(err <= last_err);
        last_err = err;
    }
}

/// A repeated identical trial cannot beat the first one: strict comparison
/// keeps the earlier candidate.
#[test]
fn repeated_trial_keeps_first_result() {
    let approx = Sha512CpuApproximator::new(0);
    let input = block_of(vec![42u8; 64]);
    let target = block_of(vec![7u8; 64]);
    let d: Vec<u8> = (0..64).map(|i| (i % DISTORTION as usize) as u8).collect();

    let (err1, src1, dig1) = approx.approximate_with_trials(&input, &target, &vec![d.clone()]);
    let (err2, src2, dig2) =
        approx.approximate_with_trials(&input, &target, &vec![d.clone(), d.clone()]);
    assert_eq!(err1, err2);
    for t in 0..BLOCK_CELLS {
        let (r, c) = (t / BLOCK_SIZE, t % BLOCK_SIZE);
        assert_eq!(src1.get(r, c), src2.get(r, c));
        assert_eq!(dig1.get(r, c), dig2.get(r, c));
    }
}

/// With no trials the search returns its start state: maximum error and two
/// all-zero blocks.
#[test]
fn zero_iterations_return_search_start() {
    let approx = Sha512CpuApproximator::new(0);
    let input = block_of(vec![100u8; 64]);
    let target = block_of(vec![0u8; 64]);
    let (err, best_src, best_dig) = approx.approximate(&input, &target);
    assert_eq!(err, u64::MAX);
    for t in 0..BLOCK_CELLS {
        assert_eq!(best_src.get(t / BLOCK_SIZE, t % BLOCK_SIZE), 0);
        assert_eq!(best_dig.get(t / BLOCK_SIZE, t % BLOCK_SIZE), 0);
    }
}

/// The random search only ever adds deltas below DISTORTION to the source,
/// and its winning digest block really is the SHA-512 of its winning source.
#[test]
fn random_search_respects_distortion_bound() {
    let approx = Sha512CpuApproximator::new(4);
    let input = block_of(vec![100u8; 64]);
    let target = block_of(vec![50u8; 64]);
    let (err, best_src, best_dig) = approx.approximate(&input, &target);

    let mut src_bytes = Vec::new();
    for t in 0..BLOCK_CELLS {
        let v = best_src.get(t / BLOCK_SIZE, t % BLOCK_SIZE);
        assert!(v >= 100 && v < 100 + DISTORTION);
        src_bytes.push(v);
    }
    let recomputed = sha2::Sha512::digest(&src_bytes[..]);
    for t in 0..BLOCK_CELLS {
        assert_eq!(best_dig.get(t / BLOCK_SIZE, t % BLOCK_SIZE), recomputed[t]);
    }
    assert_eq!(err, squared_error(&target, &best_dig));
}
