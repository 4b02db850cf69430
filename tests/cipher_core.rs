use keysplit::cipher::{add_key, decrypt_block, encrypt_block, rol, ror, rsbox, sbox, RSBOX, SBOX};

const KEY: [u8; 7] = [0xC0, 0xFF, 0xEE, 0x15, 0xFF, 0xFF, 0xEE];

#[test]
fn substitution_tables_are_inverse() {
    for x in 0..32usize {
        assert_eq!(RSBOX[SBOX[x] as usize] as usize, x);
        assert_eq!(SBOX[RSBOX[x] as usize] as usize, x);
    }
}

#[test]
fn add_key_mixes_alternating_pattern() {
    assert_eq!(add_key(0x12_3456_7890, 0xC0), 0xD2_0B96_4750);
    assert_eq!(add_key(0, 0x00), 0x00_FF00_FF00);
    assert_eq!(add_key(add_key(0x12_3456_7890, 0x5A), 0x5A), 0x12_3456_7890);
}

#[test]
fn rotations_move_one_byte() {
    assert_eq!(ror(0x12_3456_7890), 0x90_1234_5678);
    assert_eq!(rol(0x12_3456_7890), 0x34_5678_9012);
    assert_eq!(rol(0x01_0203_0405), 0x02_0304_0501);
    assert_eq!(rol(ror(0x12_3456_7890)), 0x12_3456_7890);
    assert_eq!(ror(rol(0x12_3456_7890)), 0x12_3456_7890);
    assert_eq!(rol(ror(1)), 1);
}

#[test]
fn substitution_of_a_block() {
    assert_eq!(sbox(0x12_3456_7890), 0x99_1C3D_C5FD);
    assert_eq!(rsbox(0x12_3456_7890), 0xB5_52D8_E518);
    assert_eq!(rsbox(sbox(0x12_3456_7890)), 0x12_3456_7890);
    assert_eq!(sbox(0), 0xB5_AD6B_5AD6);
}

#[test]
fn fixed_three_round_oracle() {
    assert_eq!(encrypt_block(0x00DE_ADBE_EF, &KEY, 3), 0x95_2545_8A2E);
}

#[test]
fn fixed_full_round_trip() {
    let c = encrypt_block(0x00DE_ADBE_EF, &KEY, 6);
    assert_eq!(c, 0xA8_5A69_2205);
    assert_eq!(decrypt_block(c, &KEY, 6), 0x00DE_ADBE_EF);
}

#[test]
fn round_trip_sampled_keys() {
    let keys: [[u8; 7]; 4] = [
        [0, 0, 0, 0, 0, 0, 0],
        [0xFF; 7],
        [1, 2, 3, 4, 5, 6, 7],
        [0x9E, 0x37, 0x79, 0xB9, 0x7F, 0x4A, 0x7C],
    ];
    let msgs: [u64; 4] = [0, 1, 0xFF_FFFF_FFFF, 0x12_3456_789A];
    for k in keys.iter() {
        for &m in msgs.iter() {
            let c = encrypt_block(m, k, 6);
            assert!(c < 1 << 40);
            assert_eq!(decrypt_block(c, k, 6), m);
        }
    }
}

#[test]
fn full_encryption_is_one_round_and_whitening_after_five() {
    let m = 0x00DE_ADBE_EF;
    let five = encrypt_block(m, &KEY, 5);
    assert_eq!(five, 0xE1_8AD1_A5CC);
    let round = ror(sbox(add_key(five, KEY[5])));
    assert_eq!(encrypt_block(m, &KEY, 6), add_key(round, KEY[6]));
}

#[test]
fn partial_encryption_ignores_last_key_byte() {
    let mut other = KEY;
    other[6] = 0x00;
    for r in 0..6usize {
        assert_eq!(encrypt_block(0x00DE_ADBE_EF, &KEY, r), encrypt_block(0x00DE_ADBE_EF, &other, r));
    }
    assert_ne!(encrypt_block(0x00DE_ADBE_EF, &KEY, 6), encrypt_block(0x00DE_ADBE_EF, &other, 6));
}

#[test]
fn zero_rounds_leave_block() {
    assert_eq!(encrypt_block(0x12_3456_7890, &KEY, 0), 0x12_3456_7890);
}

#[test]
fn halves_meet_in_the_middle() {
    let c = encrypt_block(0x00DE_ADBE_EF, &KEY, 6);
    let front = encrypt_block(0x00DE_ADBE_EF, &KEY[0..3], 3);
    let back = decrypt_block(c, &KEY[3..7], 3);
    assert_eq!(front, back);
}

#[test]
fn partial_round_trip_keeps_last_byte_whitening() {
    let zero = [0u8; 7];
    let c = encrypt_block(0, &zero, 1);
    assert_eq!(decrypt_block(c, &zero, 1), 0x19_417C_0000);
    assert_eq!(decrypt_block(encrypt_block(0, &zero, 6), &zero, 6), 0);
}
