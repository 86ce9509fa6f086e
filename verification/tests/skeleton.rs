//! Skeleton packets.
use oxideav_ogg::skeleton::{
    is_fisbone, is_fishead, is_index, read_vbi_u64, write_vbi_u64, FisBone, FisHead, Rational,
    SkelIndex, Skeleton, Version, FISBONE_MAGIC, FISHEAD_LEN_3_0, FISHEAD_LEN_4_0, FISHEAD_MAGIC,
    INDEX_MAGIC,
};

#[test]
fn vbi_round_trip_small() {
    for n in [0u64, 1, 0x7F, 0x80, 0xFF, 0x3FFF, 0x4000, 7843, u64::MAX] {
        let mut buf = Vec::new();
        write_vbi_u64(&mut buf, n);
        let (decoded, used) = read_vbi_u64(&buf).expect("decode");
        assert_eq!(decoded, n);
        assert_eq!(used, buf.len());
    }
}

#[test]
fn vbi_spec_example_7843() {
    let mut buf = Vec::new();
    write_vbi_u64(&mut buf, 7843);
    assert_eq!(buf, vec![0x23, 0xBD]);
    let (v, n) = read_vbi_u64(&buf).unwrap();
    assert_eq!(v, 7843);
    assert_eq!(n, 2);
}

#[test]
fn vbi_read_returns_none_on_empty_or_unterminated() {
    assert!(read_vbi_u64(&[]).is_none());
    let unterm = vec![0x01u8; 11];
    assert!(read_vbi_u64(&unterm).is_none());
}

#[test]
fn fishead_3_0_round_trip() {
    let mut head = FisHead::new(Version::v3_0());
    head.presentation_time = Rational::new(7, 1000);
    head.basetime = Rational::new(0, 1);
    head.utc[..15].copy_from_slice(b"20260529T064100");
    assert_eq!(head.segment_length, None);
    let bytes = head.to_bytes();
    assert_eq!(bytes.len(), FISHEAD_LEN_3_0);
    let back = FisHead::parse(&bytes).unwrap();
    assert_eq!(back, head);
}

#[test]
fn fishead_4_0_round_trip() {
    let mut head = FisHead::new(Version::v4_0());
    head.presentation_time = Rational::new(0, 1000);
    head.basetime = Rational::new(0, 1000);
    head.segment_length = Some(1_234_567);
    head.content_byte_offset = Some(4096);
    let bytes = head.to_bytes();
    assert_eq!(bytes.len(), FISHEAD_LEN_4_0);
    let back = FisHead::parse(&bytes).unwrap();
    assert_eq!(back, head);
}

#[test]
fn fishead_rejects_short_packet() {
    assert!(FisHead::parse(b"fishead\0only_a_bit").is_err());
}

#[test]
fn fishead_rejects_wrong_magic() {
    let mut bytes = FisHead::new(Version::v4_0()).to_bytes();
    bytes[0] = b'X';
    assert!(FisHead::parse(&bytes).is_err());
}

#[test]
fn fisbone_round_trip() {
    let mut bone = FisBone::new(0xdead_beef, Rational::new(48_000, 1));
    bone.num_headers = 3;
    bone.basegranule = 0;
    bone.preroll = 2;
    bone.granuleshift = 6;
    bone.set_header("Content-Type", "audio/vorbis");
    bone.set_header("Role", "audio/main");
    bone.set_header("Name", "english_main");
    let bytes = bone.to_bytes();
    let back = FisBone::parse(&bytes).unwrap();
    assert_eq!(back, bone);
    assert_eq!(back.header("content-type"), Some("audio/vorbis"));
    assert_eq!(back.header("role"), Some("audio/main"));
}

#[test]
fn fisbone_set_header_replaces_case_insensitively() {
    let mut bone = FisBone::new(1, Rational::new(48_000, 1));
    bone.set_header("Role", "audio/main");
    bone.set_header("role", "audio/alternate");
    assert_eq!(bone.headers.len(), 1);
    assert_eq!(bone.header("Role"), Some("audio/alternate"));
}

#[test]
fn fisbone_parse_tolerates_skipped_lines() {
    let mut bone = FisBone::new(7, Rational::new(25, 1));
    bone.set_header("Content-Type", "video/theora");
    let mut bytes = bone.to_bytes();
    bytes.extend_from_slice(b"not-a-header-line\r\n");
    let back = FisBone::parse(&bytes).unwrap();
    assert_eq!(back.headers.len(), 1);
    assert_eq!(back.header("Content-Type"), Some("video/theora"));
}

#[test]
fn index_round_trip() {
    let mut idx = SkelIndex::new(0x2A, 1_000_000);
    idx.first_sample_time = 0;
    idx.last_sample_time = 60_000_000;
    idx.push(4096, 0);
    idx.push(4096 + 7843, 1_000_000);
    idx.push(4096 + 7843 + 65_536, 2_500_000);
    let bytes = idx.to_bytes();
    let back = SkelIndex::parse(&bytes).unwrap();
    assert_eq!(back, idx);
    assert_eq!(back.keypoints.len(), 3);
}

#[test]
fn index_empty_round_trip() {
    let idx = SkelIndex::new(99, 48_000);
    let bytes = idx.to_bytes();
    let back = SkelIndex::parse(&bytes).unwrap();
    assert_eq!(back, idx);
    assert!(back.keypoints.is_empty());
}

#[test]
fn index_rejects_truncated_keypoints() {
    let mut bytes = Vec::new();
    bytes.extend_from_slice(&INDEX_MAGIC);
    bytes.extend_from_slice(&1u32.to_le_bytes());
    bytes.extend_from_slice(&1u64.to_le_bytes());
    bytes.extend_from_slice(&1_000_000i64.to_le_bytes());
    bytes.extend_from_slice(&0i64.to_le_bytes());
    bytes.extend_from_slice(&0i64.to_le_bytes());
    write_vbi_u64(&mut bytes, 4096);
    assert!(SkelIndex::parse(&bytes).is_err());
}

#[test]
fn index_capacity_bounded_by_remaining_payload() {
    let mut bytes = Vec::with_capacity(42);
    bytes.extend_from_slice(&INDEX_MAGIC);
    bytes.extend_from_slice(&7u32.to_le_bytes());
    bytes.extend_from_slice(&u64::MAX.to_le_bytes());
    bytes.extend_from_slice(&1_000_000i64.to_le_bytes());
    bytes.extend_from_slice(&0i64.to_le_bytes());
    bytes.extend_from_slice(&0i64.to_le_bytes());
    assert_eq!(bytes.len(), 42);
    assert!(SkelIndex::parse(&bytes).is_err());
}

#[test]
fn skeleton_lookups() {
    let mut sk = Skeleton::new();
    sk.set_head(FisHead::new(Version::v4_0()));
    let mut bone_a = FisBone::new(10, Rational::new(48_000, 1));
    bone_a.set_header("Content-Type", "audio/vorbis");
    let mut bone_b = FisBone::new(20, Rational::new(25, 1));
    bone_b.set_header("Content-Type", "video/theora");
    sk.push_bone(bone_a);
    sk.push_bone(bone_b);
    sk.push_index(SkelIndex::new(10, 48_000));
    assert!(sk.is_parsed());
    assert_eq!(sk.version(), Version::v4_0());
    assert_eq!(
        sk.bone_for_serial(10).unwrap().header("Content-Type"),
        Some("audio/vorbis")
    );
    assert!(sk.bone_for_serial(999).is_none());
    assert!(sk.index_for_serial(10).is_some());
    assert!(sk.index_for_serial(20).is_none());
}

#[test]
fn detector_helpers() {
    assert!(is_fishead(&FISHEAD_MAGIC));
    assert!(is_fisbone(&FISBONE_MAGIC));
    assert!(is_index(&INDEX_MAGIC));
    assert!(!is_fishead(b"opus    "));
    assert!(!is_fisbone(b"vorbis "));
    assert!(!is_index(b"fishead"));
}

#[test]
fn version_ordering() {
    assert!(Version::v4_0().at_least(Version::v3_0()));
    assert!(Version::v4_0().at_least(Version::v4_0()));
    assert!(!Version::v3_0().at_least(Version::v4_0()));
}

fn build_demo_index() -> SkelIndex {
    let mut idx = SkelIndex::new(0x2A, 1_000_000);
    idx.first_sample_time = 0;
    idx.last_sample_time = 60_000_000;
    idx.push(4096, 0);
    idx.push(4096 + 7843, 1_000_000);
    idx.push(4096 + 7843 + 65_536, 2_500_000);
    idx
}

#[test]
fn skel_index_is_sorted_by_offset_invariant() {
    let idx = build_demo_index();
    assert!(idx.is_sorted_by_offset());

    let mut bad = SkelIndex::new(0xCAFE, 1_000_000);
    bad.push(2_000, 100);
    bad.push(1_000, 50);
    assert!(!bad.is_sorted_by_offset());
}

#[test]
fn extract_granules_unshifted_passthrough() {
    let bone = FisBone::new(1, Rational::new(48_000, 1));
    assert_eq!(bone.granuleshift, 0);
    assert_eq!(bone.extract_granules(0), 0);
    assert_eq!(bone.extract_granules(48_000), 48_000);
    assert_eq!(bone.extract_granules(123_456_789), 123_456_789);
}

#[test]
fn extract_granules_theora_shift_sums_halves() {
    let mut bone = FisBone::new(1, Rational::new(30, 1));
    bone.granuleshift = 6;
    let granulepos = (10i64 << 6) | 5;
    assert_eq!(bone.extract_granules(granulepos), 15);
    let on_key = 7i64 << 6;
    assert_eq!(bone.extract_granules(on_key), 7);
}

#[test]
fn extract_granules_negative_sentinel_passthrough() {
    let mut bone = FisBone::new(1, Rational::new(48_000, 1));
    bone.granuleshift = 6;
    assert_eq!(bone.extract_granules(-1), -1);
}

#[test]
fn extract_granules_degenerate_shift_clamps_to_zero() {
    let mut bone = FisBone::new(1, Rational::new(48_000, 1));
    bone.granuleshift = 63;
    assert_eq!(bone.extract_granules(i64::MAX), 0);
}
