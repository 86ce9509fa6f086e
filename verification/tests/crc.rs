//! Page checksums.
use oxideav_ogg::crc::{
    advance_four_zero_bytes, checksum, compute_page_checksum, continue_checksum,
    read_page_checksum, validate_page_crc, CRC_FIELD_LEN, CRC_FIELD_OFFSET,
};
use oxideav_ogg::crc_tables::{T0, T1, T2, T3};

/// The checksum, one byte at a time.
fn scalar(bytes: &[u8]) -> u32 {
    let mut crc: u32 = 0;
    for &b in bytes {
        crc = (crc << 8) ^ T0[((crc >> 24) as u8 ^ b) as usize];
    }
    crc
}



#[test]
fn empty_is_zero() {
    assert_eq!(checksum(&[]), 0);
}

#[test]
fn deterministic() {
    assert_eq!(checksum(b"hello world"), checksum(b"hello world"));
    assert_ne!(checksum(b"hello world"), checksum(b"hello WORLD"));
}

#[test]
fn validate_rejects_short_buffers() {
    assert_eq!(validate_page_crc(&[]), None);
    assert_eq!(validate_page_crc(&[0u8; 25]), None);
    assert!(validate_page_crc(&[0u8; 26]).is_some());
}

#[test]
fn validate_round_trips_a_built_page() {
    let mut page = vec![0u8; 27 + 1 + 2];
    page[0..4].copy_from_slice(b"OggS");
    page[4] = 0;
    page[5] = 0x02;
    page[14..18].copy_from_slice(&0x1234_5678u32.to_le_bytes());
    page[26] = 1;
    page[27] = 2;
    page[28] = 0xAA;
    page[29] = 0xBB;
    let crc = compute_page_checksum(&page).expect("len >= 26");
    page[22..26].copy_from_slice(&crc.to_le_bytes());

    assert_eq!(validate_page_crc(&page), Some(true));

    let mut tampered = page.clone();
    tampered[29] ^= 0x01;
    assert_eq!(validate_page_crc(&tampered), Some(false));

    let mut tampered2 = page.clone();
    tampered2[14] ^= 0x80;
    assert_eq!(validate_page_crc(&tampered2), Some(false));

    let mut tampered3 = page.clone();
    tampered3[22] ^= 0xFF;
    assert_eq!(validate_page_crc(&tampered3), Some(false));
}

#[test]
fn compute_matches_zero_field_invariant() {
    let mut page = vec![0u8; 30];
    page[0..4].copy_from_slice(b"OggS");
    page[26] = 1;
    page[27] = 2;
    let with_zero_crc = compute_page_checksum(&page).expect("len >= 26");
    page[22..26].copy_from_slice(&0xDEAD_BEEFu32.to_le_bytes());
    let with_garbage_crc = compute_page_checksum(&page).expect("len >= 26");
    assert_eq!(with_zero_crc, with_garbage_crc);
}

#[test]
fn slice_by_4_matches_scalar_oracle() {
    let mut rng_state: u32 = 0x1234_5678;
    let mut bytes = Vec::with_capacity(65_535);
    for _ in 0..65_535 {
        rng_state = rng_state.wrapping_mul(1_103_515_245).wrapping_add(12_345);
        bytes.push((rng_state >> 16) as u8);
    }
    for &len in &[
        0, 1, 2, 3, 4, 5, 6, 7, 8, 9, 11, 15, 16, 17, 23, 31, 32, 33, 63, 64, 65, 127, 255,
        256, 257, 1023, 1024, 1025, 65_534, 65_535,
    ] {
        let prefix = &bytes[..len];
        assert_eq!(
            checksum(prefix),
            scalar(prefix),
            "slice-by-4 mismatch at len {}",
            len
        );
    }
}

#[test]
fn continue_checksum_associative() {
    let payload: Vec<u8> = (0u8..200).collect();
    let one_shot = checksum(&payload);
    for split in 0..=payload.len() {
        let a = continue_checksum(0, &payload[..split]);
        let b = continue_checksum(a, &payload[split..]);
        assert_eq!(b, one_shot, "split at {}", split);
    }
}

#[test]
fn advance_four_zero_bytes_matches_scalar_loop() {
    let mut expected: u32 = 0;
    for _ in 0..CRC_FIELD_LEN {
        expected = (expected << 8) ^ T0[(expected >> 24) as usize];
    }
    assert_eq!(advance_four_zero_bytes(0), expected);
}

#[test]
fn slice_tables_consistent_with_t0_recurrence() {
    for i in 0u32..256 {
        let from_table = T1[i as usize];
        let mut crc = T0[i as usize];
        crc = (crc << 8) ^ T0[(crc >> 24) as usize];
        assert_eq!(
            from_table, crc,
            "T1 disagrees with T0+1 zero byte at i={}",
            i
        );
    }
    for i in 0u32..256 {
        let from_table = T2[i as usize];
        let mut crc = T0[i as usize];
        for _ in 0..2 {
            crc = (crc << 8) ^ T0[(crc >> 24) as usize];
        }
        assert_eq!(
            from_table, crc,
            "T2 disagrees with T0+2 zero bytes at i={}",
            i
        );
    }
    for i in 0u32..256 {
        let from_table = T3[i as usize];
        let mut crc = T0[i as usize];
        for _ in 0..3 {
            crc = (crc << 8) ^ T0[(crc >> 24) as usize];
        }
        assert_eq!(
            from_table, crc,
            "T3 disagrees with T0+3 zero bytes at i={}",
            i
        );
    }
}

#[test]
fn tail_lengths_match_scalar() {
    for &len in &[80usize, 81, 82, 83] {
        let buf: Vec<u8> = (0..len).map(|i| (i ^ 0xA5) as u8).collect();
        assert_eq!(checksum(&buf), scalar(&buf), "mismatch at len {}", len);
    }
}

#[test]
fn checksum_of_one_byte_is_a_table_entry() {
    assert_eq!(checksum(&[1]), 0x04C1_1DB7);
    assert_eq!(checksum(&[2]), 0x0982_3B6E);
    assert_eq!(T0[1], 0x04C1_1DB7);
}

#[test]
fn stored_checksum_is_little_endian() {
    assert_eq!(CRC_FIELD_OFFSET, 22);
    assert_eq!(read_page_checksum(&[0u8; 25]), None);
    let mut page = [0u8; 26];
    page[22] = 0x78;
    page[23] = 0x56;
    page[24] = 0x34;
    page[25] = 0x12;
    assert_eq!(read_page_checksum(&page), Some(0x1234_5678));
    assert_eq!(compute_page_checksum(&[0u8; 25]), None);
}
