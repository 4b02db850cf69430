use keysplit::cipher::encrypt_block;
use keysplit::solver::{
    build_partial_index, full_key_bytes, high_key_bytes, key_matches_pairs, low_key_bytes, search_range,
    validate_pairs, worker_range, PairError,
};

const KEY: [u8; 7] = [0x00, 0x01, 0x23, 0x15, 0xFF, 0xFF, 0xEE];
const PLAINS: [u64; 4] = [0x00DE_ADBE_EF, 0x01_0203_0405, 0xFF_FFFF_FFFF, 0x12_3456_789A];
const CRYPTS: [u64; 4] = [0x7F_79C7_5C24, 0x42_5A89_AF01, 0xCA_BA71_9858, 0xD9_6B07_69F0];

fn check_partition(workers: u32) {
    let mut next: u64 = 0;
    for i in 0..workers {
        let (start, end) = worker_range(workers, i);
        assert_eq!(start, next);
        assert!(start <= end);
        next = end;
    }
    assert_eq!(next, 1u64 << 32);
}

#[test]
fn partition_one_worker() {
    check_partition(1);
    assert_eq!(worker_range(1, 0), (0, 1 << 32));
}

#[test]
fn partition_seven_workers() {
    check_partition(7);
    assert_eq!(worker_range(7, 0), (0, 613_566_756));
}

#[test]
fn partition_eight_workers() {
    check_partition(8);
    assert_eq!(worker_range(8, 7), (0xE000_0000, 1 << 32));
}

#[test]
fn partition_thirteen_workers() {
    check_partition(13);
}

#[test]
fn pairs_come_from_the_key() {
    for i in 0..4 {
        assert_eq!(encrypt_block(PLAINS[i], &KEY, 6), CRYPTS[i]);
    }
    assert!(key_matches_pairs(&KEY, &PLAINS.to_vec(), &CRYPTS.to_vec()));
    let mut wrong = KEY;
    wrong[6] ^= 1;
    assert!(!key_matches_pairs(&wrong, &PLAINS.to_vec(), &CRYPTS.to_vec()));
}

#[test]
fn key_byte_decomposition() {
    assert_eq!(low_key_bytes(0x00_0123), vec![0x00, 0x01, 0x23]);
    assert_eq!(high_key_bytes(0x15FF_FFEE), vec![0x15, 0xFF, 0xFF, 0xEE]);
    assert_eq!(full_key_bytes(0x00_0123, 0x15FF_FFEE), KEY.to_vec());
}

#[test]
fn index_maps_midpoint_to_low_key() {
    let index = build_partial_index(PLAINS[0], 4096);
    let mid = encrypt_block(PLAINS[0], &[0x00, 0x01, 0x23], 3);
    assert_eq!(mid, 0xA2_ECB4_EE05);
    assert_eq!(index.get(mid), Some(0x123));
    assert_eq!(index.get(0xFF_FFFF_FFFF_FFFF), None);
}

#[test]
fn recovers_known_key() {
    let plains = PLAINS.to_vec();
    let crypts = CRYPTS.to_vec();
    let index = build_partial_index(plains[0], 4096);
    let found = search_range(0x15FF_FF00, 0x1600_0000, &index, &plains, &crypts);
    assert_eq!(found, Some(0x0123_15FF_FFEE));
}

#[test]
fn range_without_the_key_finds_nothing() {
    let plains = PLAINS.to_vec();
    let crypts = CRYPTS.to_vec();
    let index = build_partial_index(plains[0], 4096);
    assert_eq!(search_range(0x15FF_FF00, 0x15FF_FFEE, &index, &plains, &crypts), None);
    assert_eq!(search_range(7, 7, &index, &plains, &crypts), None);
}

#[test]
fn corrupted_ciphertext_gives_not_found() {
    let plains = PLAINS.to_vec();
    let mut crypts = CRYPTS.to_vec();
    crypts[2] ^= 0x10;
    let index = build_partial_index(plains[0], 4096);
    assert_eq!(search_range(0x15FF_FF00, 0x1600_0000, &index, &plains, &crypts), None);
}

#[test]
fn validation_of_pairs() {
    assert_eq!(validate_pairs(&PLAINS.to_vec(), &CRYPTS.to_vec()), Ok(()));
    assert_eq!(validate_pairs(&vec![1, 2], &vec![3]), Err(PairError::LengthMismatch));
    assert_eq!(validate_pairs(&vec![], &vec![]), Err(PairError::NoPairs));
    assert_eq!(validate_pairs(&vec![1 << 40], &vec![3]), Err(PairError::OutOfRange));
    assert_eq!(validate_pairs(&vec![1], &vec![u64::MAX]), Err(PairError::OutOfRange));
}
