use zook::challenge_indices::{challenge_indices, sponge_indices};
use zook::transcript::{RecordedBytes, Sponge};

const BYTES: [u8; 25] = [
    0x01, 0x23, 0x45, 0x67, 0x89, // Query 1
    0xAB, 0xCD, 0xEF, 0x12, 0x34, // Query 2
    0x56, 0x78, 0x9A, 0xBC, 0xDE, // Query 3
    0xF0, 0x11, 0x22, 0x33, 0x44, // Query 4
    0x55, 0x66, 0x77, 0x88, 0x99, // Query 5
];

#[test]
fn test_challenge_stir_queries_single_byte_indices() {
    let num_leaves = 1 << 7;
    let num_queries = 5;
    let mut transcript = RecordedBytes::new(BYTES.to_vec());
    let result = challenge_indices(&mut transcript, num_leaves, num_queries, true).unwrap();

    let index_0 = 0x01 % num_leaves;
    let index_1 = 0x23 % num_leaves;
    let index_2 = 0x45 % num_leaves;
    let index_3 = 0x67 % num_leaves;
    let index_4 = 0x89 % num_leaves;
    let mut expected_indices = vec![index_0, index_1, index_2, index_3, index_4];
    expected_indices.sort_unstable();
    expected_indices.dedup();
    assert_eq!(
        result, expected_indices,
        "Mismatch in computed indices for domain_size_bytes = 1"
    );
}

#[test]
fn test_challenge_stir_queries_two_byte_indices() {
    let num_leaves = 1 << 13;
    let num_queries = 5;
    let mut transcript = RecordedBytes::new(BYTES.to_vec());
    let result = challenge_indices(&mut transcript, num_leaves, num_queries, true).unwrap();

    let index_0 = ((0x01 << 8) | 0x23) % num_leaves;
    let index_1 = ((0x45 << 8) | 0x67) % num_leaves;
    let index_2 = ((0x89 << 8) | 0xAB) % num_leaves;
    let index_3 = ((0xCD << 8) | 0xEF) % num_leaves;
    let index_4 = ((0x12 << 8) | 0x34) % num_leaves;
    let mut expected_indices = vec![index_0, index_1, index_2, index_3, index_4];
    expected_indices.sort_unstable();
    assert_eq!(
        result, expected_indices,
        "Mismatch in computed indices for domain_size_bytes = 2"
    );
}

#[test]
fn test_challenge_stir_queries_three_byte_indices() {
    let num_leaves = 1 << 20;
    let num_queries = 4;
    let mut transcript = RecordedBytes::new(vec![
        0x12, 0x34, 0x56, // Query 1
        0x78, 0x9A, 0xBC, // Query 2
        0xDE, 0xF0, 0x11, // Query 3
        0x22, 0x33, 0x44, // Query 4
    ]);
    let result = challenge_indices(&mut transcript, num_leaves, num_queries, true).unwrap();

    let index_0 = ((0x12 << 16) | (0x34 << 8) | 0x56) % num_leaves;
    let index_1 = ((0x78 << 16) | (0x9A << 8) | 0xBC) % num_leaves;
    let index_2 = ((0xDE << 16) | (0xF0 << 8) | 0x11) % num_leaves;
    let index_3 = ((0x22 << 16) | (0x33 << 8) | 0x44) % num_leaves;
    let mut expected_indices = vec![index_0, index_1, index_2, index_3];
    expected_indices.sort_unstable();
    assert_eq!(
        result, expected_indices,
        "Mismatch in computed indices for domain_size_bytes = 3"
    );
}

#[test]
fn test_challenge_stir_queries_duplicate_indices() {
    let num_leaves = 128;
    let num_queries = 5;
    // Duplicate indices 0x20 and 0x40.
    let mut transcript = RecordedBytes::new(vec![0x20, 0x40, 0x20, 0x60, 0x40]);
    let result = challenge_indices(&mut transcript, num_leaves, num_queries, true).unwrap();

    let mut expected_indices = vec![0x20 % num_leaves, 0x40 % num_leaves, 0x60 % num_leaves];
    expected_indices.sort_unstable();
    assert_eq!(
        result, expected_indices,
        "Mismatch in computed indices for deduplication test"
    );
}

#[test]
fn test_challenge_indices_non_pow2_rejection_retry() {
    let num_leaves: usize = 589_824;
    let mut transcript = RecordedBytes::new(vec![
        0xFF, 0xFF, 0xFF, // candidate = 16_777_215, at or above the threshold
        0x00, 0x00, 0x05, // candidate = 5, below it
    ]);
    let result = challenge_indices(&mut transcript, num_leaves, 1, false).unwrap();
    assert_eq!(result, vec![5]);
}

#[test]
fn test_challenge_indices_non_pow2_in_range_and_deterministic() {
    let num_leaves: usize = 589_824;
    let count = 5;
    let bytes: Vec<u8> = vec![
        0x12, 0x34, 0x56, 0x78, 0x9A, 0xBC, 0xDE, 0xF0, 0x11, 0x22, 0x33, 0x44, 0x55, 0x66, 0x77,
    ];
    let mut first = RecordedBytes::new(bytes.clone());
    let mut second = RecordedBytes::new(bytes);
    let r1 = challenge_indices(&mut first, num_leaves, count, false).unwrap();
    let r2 = challenge_indices(&mut second, num_leaves, count, false).unwrap();
    assert_eq!(r1, r2, "challenge_indices must be deterministic");
    assert_eq!(r1.len(), count);
    assert!(r1.iter().all(|&i| i < num_leaves));
    assert_eq!(r1[0], 1_193_046 % num_leaves);
}

#[test]
fn recorded_bytes_run_out() {
    let mut transcript = RecordedBytes::new(vec![0xFF, 0xFF, 0xFF]);
    assert!(challenge_indices(&mut transcript, 589_824, 1, false).is_none());
}

#[test]
fn one_leaf_needs_no_entropy() {
    let mut transcript = RecordedBytes::new(vec![]);
    assert_eq!(
        challenge_indices(&mut transcript, 1, 3, false).unwrap(),
        vec![0, 0, 0]
    );
    let mut transcript = RecordedBytes::new(vec![]);
    assert_eq!(challenge_indices(&mut transcript, 1, 3, true).unwrap(), vec![0]);
}

#[test]
fn sponge_indices_are_sorted_and_distinct() {
    let mut sponge = Sponge::new(b"indices");
    let r = sponge_indices(&mut sponge, 64, 200, true);
    assert!(r.len() <= 64);
    for w in r.windows(2) {
        assert!(w[0] < w[1]);
    }
    let mut again = Sponge::new(b"indices");
    assert_eq!(sponge_indices(&mut again, 64, 200, true), r);
}
