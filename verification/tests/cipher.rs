use chaos_cipher::logistic_map::confuse_xor;
use chaos_cipher::logistic_map::decode;
use chaos_cipher::logistic_map::diffuse;
use chaos_cipher::logistic_map::encode;
use chaos_cipher::logistic_map::keystream_of;
use chaos_cipher::logistic_map::sort_keys_of;
use chaos_cipher::logistic_map::xor_stream;
use chaos_cipher::logistic_map::DiffuseDirection;
use chaos_cipher::logistic_map::Sample;
use chaos_cipher::permutation::apply_backward;
use chaos_cipher::permutation::apply_forward;
use chaos_cipher::permutation::argsort;
use chaos_cipher::permutation::invert;

fn logistic(seed: f64, count: usize) -> Vec<Sample> {
    let mut x = seed;
    let mut out = Vec::with_capacity(count);
    for _ in 0..count {
        x = 4.0 * x * (1.0 - x);
        out.push(Sample { bits: x.to_bits(), level: (x * 255.0) as u8 });
    }
    out
}

fn samples(bits: &[u64], levels: &[u8]) -> Vec<Sample> {
    bits.iter().zip(levels.iter()).map(|(&bits, &level)| Sample { bits, level }).collect()
}

#[test]
fn argsort_orders_by_key_then_index() {
    assert_eq!(argsort(&vec![3, 1, 2, 1]), vec![1, 3, 2, 0]);
    assert_eq!(argsort(&vec![5, 1, 3]), vec![1, 2, 0]);
}

#[test]
fn argsort_of_nothing_and_of_one() {
    assert_eq!(argsort(&vec![]), Vec::<usize>::new());
    assert_eq!(argsort(&vec![42]), vec![0]);
}

#[test]
fn argsort_keeps_equal_keys_in_index_order() {
    assert_eq!(argsort(&vec![7, 7, 7, 7, 7]), vec![0, 1, 2, 3, 4]);
    assert_eq!(argsort(&vec![0, u64::MAX, 0, u64::MAX]), vec![0, 2, 1, 3]);
}

#[test]
fn argsort_is_a_bijection() {
    let keys: Vec<u64> = logistic(0.3141, 1000).iter().map(|s| s.bits).collect();
    let p = argsort(&keys);
    assert_eq!(p.len(), 1000);
    let mut seen = vec![false; 1000];
    for &i in &p {
        assert!(!seen[i]);
        seen[i] = true;
    }
    assert!(seen.iter().all(|&s| s));
    for w in p.windows(2) {
        assert!((keys[w[0]], w[0]) < (keys[w[1]], w[1]));
    }
}

#[test]
fn argsort_matches_a_decorated_sort() {
    let keys: Vec<u64> = (0..257u64).map(|i| (i * 7919) % 64).collect();
    let mut pairs: Vec<(u64, usize)> = keys.iter().cloned().zip(0..).collect();
    pairs.sort();
    let expected: Vec<usize> = pairs.iter().map(|p| p.1).collect();
    assert_eq!(argsort(&keys), expected);
}

#[test]
fn invert_gives_the_inverse() {
    assert_eq!(invert(&vec![1, 2, 0]), vec![2, 0, 1]);
    assert_eq!(invert(&vec![0, 1, 2, 3]), vec![0, 1, 2, 3]);
    assert_eq!(invert(&vec![]), Vec::<usize>::new());
}

#[test]
fn apply_forward_moves_whole_groups() {
    let data = vec![10, 11, 20, 21, 30, 31];
    assert_eq!(apply_forward(&data, &vec![2, 0, 1], 2), vec![30, 31, 10, 11, 20, 21]);
    assert_eq!(apply_forward(&data, &vec![5, 4, 3, 2, 1, 0], 1), vec![31, 30, 21, 20, 11, 10]);
}

#[test]
fn apply_backward_undoes_apply_forward() {
    let data: Vec<u8> = (0..30).collect();
    let p = vec![3, 9, 0, 1, 8, 7, 2, 6, 5, 4];
    let forward = apply_forward(&data, &p, 3);
    assert_ne!(forward, data);
    assert_eq!(apply_backward(&forward, &p, 3), data);
    let backward = apply_backward(&data, &p, 3);
    assert_eq!(apply_forward(&backward, &p, 3), data);
}

#[test]
fn apply_backward_exact_value() {
    let data = vec![30, 31, 10, 11, 20, 21];
    assert_eq!(apply_backward(&data, &vec![2, 0, 1], 2), vec![10, 11, 20, 21, 30, 31]);
}

#[test]
fn xor_stream_shares_one_byte_per_group() {
    let data = vec![1, 2, 3, 4];
    assert_eq!(xor_stream(&data, &vec![0xFF, 0x0F], 2), vec![0xFE, 0xFD, 0x0C, 0x0B]);
    assert_eq!(xor_stream(&data, &vec![1, 2, 3, 4], 1), vec![0, 0, 0, 0]);
}

#[test]
fn xor_stream_twice_restores() {
    let data: Vec<u8> = (0..=255).collect();
    let key: Vec<u8> = (0..64).map(|i| (i * 37 + 11) as u8).collect();
    let once = xor_stream(&data, &key, 4);
    assert_ne!(once, data);
    assert_eq!(xor_stream(&once, &key, 4), data);
}

#[test]
fn xor_stream_on_a_partial_last_group() {
    assert_eq!(xor_stream(&vec![1, 1, 1], &vec![2, 4], 2), vec![3, 3, 5]);
}

#[test]
fn keystream_and_sort_keys_read_the_samples() {
    let seq = samples(&[5, 1, 3], &[0x10, 0x20, 0x30]);
    assert_eq!(keystream_of(&seq), vec![0x10, 0x20, 0x30]);
    assert_eq!(sort_keys_of(&seq, 2), vec![5, 1]);
    assert_eq!(sort_keys_of(&seq, 0), Vec::<u64>::new());
}

#[test]
fn confuse_xor_uses_the_levels() {
    let seq = samples(&[5, 1, 3], &[0x10, 0x20, 0x30]);
    assert_eq!(confuse_xor(&vec![2, 3, 1], &seq, 1), vec![0x12, 0x23, 0x31]);
}

#[test]
fn diffuse_both_directions() {
    let seq = samples(&[5, 1, 3], &[0, 0, 0]);
    let data = vec![1, 2, 3];
    assert_eq!(diffuse(&data, &seq, DiffuseDirection::Forward, 1), vec![2, 3, 1]);
    assert_eq!(diffuse(&vec![2, 3, 1], &seq, DiffuseDirection::Backward, 1), vec![1, 2, 3]);
}

#[test]
fn diffuse_reads_only_the_first_groups_worth_of_samples() {
    let seq = samples(&[5, 1, 3, 0, 0, 0], &[0; 6]);
    let data = vec![1, 1, 2, 2, 3, 3];
    assert_eq!(diffuse(&data, &seq, DiffuseDirection::Forward, 2), vec![2, 2, 3, 3, 1, 1]);
}

#[test]
fn encode_permutes_then_substitutes() {
    let seq = samples(&[5, 1, 3], &[0x10, 0x20, 0x30]);
    assert_eq!(encode(&vec![1, 2, 3], &seq, 1), vec![0x12, 0x23, 0x31]);
    assert_eq!(decode(&vec![0x12, 0x23, 0x31], &seq, 1), vec![1, 2, 3]);
}

#[test]
fn encode_rgb_groups_exact() {
    let seq = samples(&[9, 4], &[0x01, 0x80]);
    let data = vec![1, 2, 3, 4, 5, 6];
    assert_eq!(encode(&data, &seq, 3), vec![4 ^ 1, 5 ^ 1, 6 ^ 1, 1 ^ 0x80, 2 ^ 0x80, 3 ^ 0x80]);
}

#[test]
fn encode_then_decode_restores_zeros() {
    let data = vec![0u8; 64];
    let seq = logistic(0.5, 64);
    let cipher = encode(&data, &seq, 1);
    assert_eq!(cipher.len(), 64);
    assert_eq!(decode(&cipher, &seq, 1), data);
}

#[test]
fn encode_then_decode_restores_pixels() {
    let data: Vec<u8> = (0..3 * 500).map(|i| (i * 31 % 251) as u8).collect();
    let seq = logistic(0.70827894, 500);
    let cipher = encode(&data, &seq, 3);
    assert_ne!(cipher, data);
    assert_eq!(decode(&cipher, &seq, 3), data);
    assert_eq!(encode(&decode(&data, &seq, 3), &seq, 3), data);
}

#[test]
fn encode_accepts_a_longer_sequence() {
    let data: Vec<u8> = (0..40).collect();
    let long = logistic(0.123, 40);
    let short = logistic(0.123, 10);
    assert_eq!(encode(&data, &long, 4), encode(&data, &short, 4));
}

#[test]
fn decode_with_a_wrong_seed_does_not_fail() {
    let data: Vec<u8> = (0..90).collect();
    let cipher = encode(&data, &logistic(0.61, 30), 3);
    let garbage = decode(&cipher, &logistic(0.62, 30), 3);
    assert_eq!(garbage.len(), data.len());
    assert_ne!(garbage, data);
}

#[test]
fn encode_of_an_empty_buffer() {
    assert_eq!(encode(&vec![], &vec![], 3), Vec::<u8>::new());
    assert_eq!(decode(&vec![], &vec![], 1), Vec::<u8>::new());
}

#[test]
fn encode_with_the_sequence_of_one_half() {
    let seq = logistic(0.5, 4);
    assert_eq!(seq[0].bits, 1.0f64.to_bits());
    assert_eq!(seq[0].level, 255);
    assert_eq!((seq[1].bits, seq[1].level), (0, 0));
    assert_eq!(argsort(&sort_keys_of(&seq, 4)), vec![1, 2, 3, 0]);
    assert_eq!(encode(&vec![10, 20, 30, 40], &seq, 1), vec![20 ^ 255, 30, 40, 10]);
    assert_eq!(decode(&vec![20 ^ 255, 30, 40, 10], &seq, 1), vec![10, 20, 30, 40]);
}

#[test]
fn argsort_of_a_large_reversed_input() {
    let keys: Vec<u64> = (0..100_000u64).rev().collect();
    let p = argsort(&keys);
    let expected: Vec<usize> = (0..100_000usize).rev().collect();
    assert_eq!(p, expected);
}

#[test]
fn encode_is_a_function_of_its_inputs() {
    let data: Vec<u8> = (0..120).collect();
    let seq = logistic(0.4242, 40);
    assert_eq!(encode(&data, &seq, 3), encode(&data, &logistic(0.4242, 40), 3));
    assert_ne!(encode(&data, &seq, 3), encode(&data, &logistic(0.4243, 40), 3));
}
