//! The conformance validator.
use oxideav_ogg::crc::{compute_page_checksum, CRC_FIELD_LEN, CRC_FIELD_OFFSET};
use oxideav_ogg::framing::PageWriter;
use oxideav_ogg::page::{flags, Page};
use oxideav_ogg::validate::{validate, ConformanceReport, Rule, Severity, MAX_ISSUES};
fn raw(serial: u32, seq: u32, fl: u8, granule: i64, lacing: Vec<u8>) -> Vec<u8> {
    let body_len: usize = lacing.iter().map(|&v| v as usize).sum();
    Page {
        flags: fl,
        granule_position: granule,
        serial,
        seq_no: seq,
        lacing,
        data: vec![0xA5; body_len],
    }
    .to_bytes()
}

fn clean_stream(serial: u32) -> Vec<u8> {
    let mut w = PageWriter::new(serial);
    w.push_packet(&[1u8; 40], 0);
    w.flush_page();
    w.push_packet(&[2u8; 300], 100);
    w.flush_page();
    w.push_packet(&[3u8; 25], 200);
    w.finish()
}

fn rules(report: &ConformanceReport) -> Vec<Rule> {
    report.issues.iter().map(|i| i.rule).collect()
}

#[test]
fn clean_single_stream_is_clean() {
    let bytes = clean_stream(0x11);
    let r = validate(&bytes);
    assert!(r.is_clean(), "unexpected issues:\n{}", r.to_text());
    assert_eq!(r.pages, 3);
    assert_eq!(r.streams, 1);
    assert_eq!(r.links, 1);
    assert_eq!(r.junk_bytes, 0);
}

#[test]
fn empty_input_reports_truncated() {
    let r = validate(&[]);
    assert_eq!(rules(&r), vec![Rule::Truncated]);
    assert_eq!(r.pages, 0);
    assert_eq!(r.links, 0);
}

#[test]
fn leading_and_trailing_junk_are_one_issue_each() {
    let stream = clean_stream(1);
    let mut bytes = b"garbage!".to_vec();
    bytes.extend_from_slice(&stream);
    bytes.extend_from_slice(b"tail-junk");
    let r = validate(&bytes);
    assert_eq!(rules(&r), vec![Rule::CapturePattern, Rule::CapturePattern]);
    assert_eq!(r.junk_bytes, 8 + 9);
    assert_eq!(r.pages, 3, "pages after the junk must still be walked");
    assert_eq!(r.issues[0].byte_offset, 0);
    assert_eq!(r.issues[1].byte_offset, (8 + stream.len()) as u64);
}

#[test]
fn crc_damage_reports_once_and_rebaselines() {
    let bytes = clean_stream(2);
    let p0 = Page::parse(&bytes).unwrap().1;
    let p1 = Page::parse(&bytes[p0..]).unwrap().1;
    let mut damaged = bytes.clone();
    let mid_body = p0 + p1 - 1;
    damaged[mid_body] ^= 0xFF;
    let r = validate(&damaged);
    assert_eq!(rules(&r), vec![Rule::CrcMismatch]);
    assert_eq!(r.issues[0].serial, Some(2));
    assert_eq!(r.pages, 2, "the damaged page is not accepted");
}

#[test]
fn truncated_final_page_is_reported() {
    let bytes = clean_stream(3);
    let cut = &bytes[..bytes.len() - 5];
    let r = validate(cut);
    assert!(r.has(Rule::Truncated), "issues:\n{}", r.to_text());
    assert!(r.has(Rule::MissingEos));
}

#[test]
fn version_nonzero_is_reported_when_crc_is_recomputed() {
    let mut bytes = raw(4, 0, flags::FIRST_PAGE | flags::LAST_PAGE, 10, vec![20]);
    bytes[4] = 1;
    let crc = compute_page_checksum(&bytes).unwrap();
    bytes[CRC_FIELD_OFFSET..CRC_FIELD_OFFSET + CRC_FIELD_LEN]
        .copy_from_slice(&crc.to_le_bytes());
    let r = validate(&bytes);
    assert!(r.has(Rule::Version), "issues:\n{}", r.to_text());
}

#[test]
fn missing_bos_and_missing_eos() {
    let bytes = raw(5, 3, 0, 50, vec![10]);
    let r = validate(&bytes);
    assert_eq!(rules(&r), vec![Rule::MissingBos, Rule::MissingEos]);
    assert_eq!(r.streams, 1);
}

#[test]
fn duplicate_bos_on_live_serial() {
    let mut bytes = raw(6, 0, flags::FIRST_PAGE, 0, vec![7]);
    bytes.extend_from_slice(&raw(6, 0, flags::FIRST_PAGE | flags::LAST_PAGE, 5, vec![7]));
    let r = validate(&bytes);
    assert_eq!(rules(&r), vec![Rule::DuplicateBos]);
}

#[test]
fn serial_reuse_across_links() {
    let mut bytes = clean_stream(7);
    bytes.extend_from_slice(&clean_stream(7));
    let r = validate(&bytes);
    assert_eq!(rules(&r), vec![Rule::SerialReuse]);
    assert_eq!(r.links, 2, "the reuse still forms a second link");
}

#[test]
fn valid_chain_counts_links_and_stays_clean() {
    let mut bytes = clean_stream(8);
    bytes.extend_from_slice(&clean_stream(9));
    bytes.extend_from_slice(&clean_stream(10));
    let r = validate(&bytes);
    assert!(r.is_clean(), "issues:\n{}", r.to_text());
    assert_eq!(r.links, 3);
    assert_eq!(r.streams, 3);
}

#[test]
fn grouped_streams_interleaved_stay_clean() {
    let mut bytes = raw(0xA, 0, flags::FIRST_PAGE, 0, vec![7]);
    bytes.extend_from_slice(&raw(0xB, 0, flags::FIRST_PAGE, 0, vec![7]));
    bytes.extend_from_slice(&raw(0xA, 1, 0, 10, vec![9]));
    bytes.extend_from_slice(&raw(0xB, 1, 0, 10, vec![9]));
    bytes.extend_from_slice(&raw(0xA, 2, flags::LAST_PAGE, 20, vec![3]));
    bytes.extend_from_slice(&raw(0xB, 2, flags::LAST_PAGE, 20, vec![3]));
    let r = validate(&bytes);
    assert!(r.is_clean(), "issues:\n{}", r.to_text());
    assert_eq!(r.streams, 2);
    assert_eq!(r.links, 1);
}

#[test]
fn late_bos_while_link_open_is_not_contiguous() {
    let mut bytes = raw(0xA, 0, flags::FIRST_PAGE, 0, vec![7]);
    bytes.extend_from_slice(&raw(0xA, 1, 0, 10, vec![9]));
    bytes.extend_from_slice(&raw(0xB, 0, flags::FIRST_PAGE, 0, vec![7]));
    bytes.extend_from_slice(&raw(0xA, 2, flags::LAST_PAGE, 20, vec![3]));
    bytes.extend_from_slice(&raw(0xB, 1, flags::LAST_PAGE, 5, vec![3]));
    let r = validate(&bytes);
    assert_eq!(rules(&r), vec![Rule::BosNotContiguous]);
}

#[test]
fn page_after_eos_is_reported_once() {
    let mut bytes = raw(0xC, 0, flags::FIRST_PAGE, 0, vec![7]);
    bytes.extend_from_slice(&raw(0xC, 1, flags::LAST_PAGE, 10, vec![9]));
    bytes.extend_from_slice(&raw(0xC, 2, 0, 20, vec![9]));
    bytes.extend_from_slice(&raw(0xC, 3, 0, 30, vec![9]));
    let r = validate(&bytes);
    assert_eq!(rules(&r), vec![Rule::PageAfterEos]);
}

#[test]
fn continued_bos_is_reported() {
    let bytes = raw(
        0xD,
        0,
        flags::FIRST_PAGE | flags::CONTINUED | flags::LAST_PAGE,
        0,
        vec![7],
    );
    let r = validate(&bytes);
    assert_eq!(rules(&r), vec![Rule::ContinuedBos]);
}

#[test]
fn nonzero_sequence_start_is_a_warning() {
    let bytes = raw(0xE, 4, flags::FIRST_PAGE | flags::LAST_PAGE, 0, vec![7]);
    let r = validate(&bytes);
    assert_eq!(rules(&r), vec![Rule::SequenceStart]);
    assert_eq!(r.issues[0].severity, Severity::Warning);
    assert_eq!(r.error_count(), 0);
    assert_eq!(r.warning_count(), 1);
}

#[test]
fn sequence_gap_and_regression() {
    let mut bytes = raw(0xF, 0, flags::FIRST_PAGE, 0, vec![7]);
    bytes.extend_from_slice(&raw(0xF, 5, 0, 10, vec![9]));
    bytes.extend_from_slice(&raw(0xF, 2, flags::LAST_PAGE, 20, vec![3]));
    let r = validate(&bytes);
    assert_eq!(rules(&r), vec![Rule::SequenceGap, Rule::SequenceRegression]);
}

#[test]
fn granule_regression_is_reported() {
    let mut bytes = raw(0x10, 0, flags::FIRST_PAGE, 0, vec![7]);
    bytes.extend_from_slice(&raw(0x10, 1, 0, 100, vec![9]));
    bytes.extend_from_slice(&raw(0x10, 2, flags::LAST_PAGE, 50, vec![3]));
    let r = validate(&bytes);
    assert_eq!(rules(&r), vec![Rule::GranuleRegression]);
}

#[test]
fn spurious_granule_on_packetless_page() {
    let mut bytes = raw(0x11, 0, flags::FIRST_PAGE, 77, vec![255, 255]);
    bytes.extend_from_slice(&raw(
        0x11,
        1,
        flags::CONTINUED | flags::LAST_PAGE,
        99,
        vec![4],
    ));
    let r = validate(&bytes);
    assert_eq!(rules(&r), vec![Rule::SpuriousGranule]);
}

#[test]
fn missing_granule_on_completing_page_is_a_warning() {
    let mut bytes = raw(0x12, 0, flags::FIRST_PAGE, -1, vec![7]);
    bytes.extend_from_slice(&raw(0x12, 1, flags::LAST_PAGE, 10, vec![3]));
    let r = validate(&bytes);
    assert_eq!(rules(&r), vec![Rule::MissingGranule]);
    assert_eq!(r.issues[0].severity, Severity::Warning);
}

#[test]
fn continued_flag_mismatches() {
    let mut a = raw(0x13, 0, flags::FIRST_PAGE, 0, vec![7]);
    a.extend_from_slice(&raw(
        0x13,
        1,
        flags::CONTINUED | flags::LAST_PAGE,
        10,
        vec![3],
    ));
    let ra = validate(&a);
    assert_eq!(rules(&ra), vec![Rule::ContinuedWithoutPartial]);

    let mut b = raw(0x14, 0, flags::FIRST_PAGE, -1, vec![255]);
    b.extend_from_slice(&raw(0x14, 1, flags::LAST_PAGE, 10, vec![3]));
    let rb = validate(&b);
    assert_eq!(rules(&rb), vec![Rule::PartialNotContinued]);
}

#[test]
fn eos_mid_packet_is_reported() {
    let bytes = raw(0x15, 0, flags::FIRST_PAGE | flags::LAST_PAGE, -1, vec![255]);
    let r = validate(&bytes);
    assert_eq!(rules(&r), vec![Rule::EosMidPacket]);
}

#[test]
fn hole_suppresses_continuity_noise() {
    let mut bytes = raw(0x16, 0, flags::FIRST_PAGE, -1, vec![255]);
    bytes.extend_from_slice(&raw(0x16, 7, flags::LAST_PAGE, 10, vec![3]));
    let r = validate(&bytes);
    assert_eq!(rules(&r), vec![Rule::SequenceGap]);
}

#[test]
fn issue_cap_counts_overflow() {
    let mut bytes = raw(0x17, 0, flags::FIRST_PAGE, 3, vec![255]);
    for seq in 1..1100u32 {
        bytes.extend_from_slice(&raw(0x17, seq, flags::CONTINUED, 3, vec![255]));
    }
    let r = validate(&bytes);
    assert_eq!(r.issues.len(), MAX_ISSUES);
    assert!(r.suppressed_issues > 0, "cap must count, not drop silently");
    assert!(!r.is_clean());
}

#[test]
fn nil_eos_page_is_clean() {
    let mut bytes = raw(0x18, 0, flags::FIRST_PAGE, 0, vec![7]);
    bytes.extend_from_slice(&raw(0x18, 1, flags::LAST_PAGE, 10, Vec::new()));
    let r = validate(&bytes);
    assert!(r.is_clean(), "issues:\n{}", r.to_text());
}

#[test]
fn report_display_is_stable() {
    let bytes = raw(0x19, 0, flags::FIRST_PAGE, 0, vec![7]);
    let r = validate(&bytes);
    let text = r.to_text();
    assert!(text.contains("1 pages"), "display: {text}");
    assert!(text.contains("missing-eos"), "display: {text}");
}
