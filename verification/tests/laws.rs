//! What holds of the library as a whole, on concrete values.
use oxideav_ogg::chars::{is_real_notation, is_whitespace, to_chars};
use oxideav_ogg::codec_id::CodecId;
use oxideav_ogg::framing::{parse_pages, pages_to_packets, PageWriter};
use oxideav_ogg::header_packets::{
    theora_comment_packet, theora_id_packet, theora_setup_packet, vorbis_comment_packet,
    vorbis_id_packet, vorbis_setup_packet,
};
use oxideav_ogg::mux::{
    open_concrete, open_with_skeleton_indexed, streams_fit, xiph_lace, AutoIndexConfig, Patch,
};
use oxideav_ogg::page::{lace, Page};
use oxideav_ogg::probe::probe;
use oxideav_ogg::skeleton::{
    is_index, ContentType, FisBone, FisHead, Rational, Role, SkelIndex, Skeleton, Version,
};
use oxideav_ogg::stream::{CodecParameters, MediaType, Packet, StreamInfo, TimeBase};
use oxideav_ogg::theora::TheoraGranule;
use oxideav_ogg::validate::{validate, Rule};

fn vorbis(index: u32) -> StreamInfo {
    let id = vorbis_id_packet();
    let comment = vorbis_comment_packet();
    let setup = vorbis_setup_packet();
    StreamInfo {
        index,
        time_base: TimeBase::new(1, 48_000),
        params: CodecParameters {
            codec_id: CodecId::new("vorbis"),
            media_type: MediaType::Audio,
            channels: Some(2),
            sample_rate: Some(48_000),
            bit_rate: None,
            extradata: xiph_lace(&[&id, &comment, &setup]).unwrap(),
        },
    }
}

fn packet(index: u32, pts: i64, len: usize) -> Packet {
    let mut p = Packet::new(index, vec![pts as u8; len]);
    p.pts = Some(pts);
    p.keyframe = true;
    p.unit_boundary = true;
    p
}

fn apply(bytes: &mut [u8], patches: &[Patch]) {
    for p in patches {
        let at = p.offset as usize;
        bytes[at..at + p.bytes.len()].copy_from_slice(&p.bytes);
    }
}

#[test]
fn a_page_writer_writes_clean_streams() {
    for target in [None, Some(1), Some(500), Some(100_000)] {
        let mut w = PageWriter::new(77);
        w.set_page_target(target);
        let packets: Vec<Vec<u8>> = vec![vec![1; 30], vec![2; 255], vec![3; 70_000], vec![4; 1]];
        for (i, p) in packets.iter().enumerate() {
            w.push_packet(p, i as i64 * 10);
        }
        let bytes = w.finish();
        let report = validate(&bytes);
        assert!(report.is_clean(), "{}", report.to_text());
        assert_eq!((report.streams, report.links, report.junk_bytes), (1, 1, 0));
        assert_eq!(pages_to_packets(&bytes), Ok(packets));
    }
}

#[test]
fn the_report_names_what_is_wrong() {
    let mut w = PageWriter::new(77);
    w.push_packet(&[1, 2, 3], 10);
    w.flush_page();
    w.push_packet(&[4, 5, 6], 5);
    let bytes = w.finish();
    let report = validate(&bytes);
    assert!(!report.is_clean());
    assert!(report.has(Rule::GranuleRegression));
    let found = report.of_rule(Rule::GranuleRegression);
    assert_eq!(found.len(), 1);
    assert_eq!(found[0].serial, Some(77));
    assert!(report.of_rule(Rule::MissingEos).is_empty());
}

#[test]
fn links_are_clean_and_keep_their_serials_apart() {
    let mut m = open_concrete(0, &[vorbis(0), vorbis(1)]);
    assert_eq!(m.write_header(), Ok(()));
    for i in 0..4i64 {
        assert_eq!(m.write_packet(&packet(0, i * 100, 300)), Ok(()));
        assert_eq!(m.write_packet(&packet(1, i * 100, 66_000)), Ok(()));
    }
    let first: Vec<u32> = vec![m.stream_serial(0).unwrap(), m.stream_serial(1).unwrap()];
    assert_eq!(m.begin_new_link(&[vorbis(1), vorbis(0)]), Ok(()));
    assert_eq!(m.link_index(), 1);
    let second: Vec<u32> = vec![m.stream_serial(0).unwrap(), m.stream_serial(1).unwrap()];
    for s in &second {
        assert!(!first.contains(s));
    }
    assert_eq!(m.write_packet(&packet(1, 0, 10)), Ok(()));
    assert_eq!(m.write_packet(&packet(0, 5, 10)), Ok(()));
    m.write_trailer();
    let bytes = m.take_output();
    let report = validate(&bytes);
    assert!(report.is_clean(), "{}", report.to_text());
    assert_eq!((report.streams, report.links), (4, 2));
}

#[test]
fn keypoints_are_where_pages_of_their_stream_begin() {
    let mut skel = Skeleton::new();
    skel.set_head(FisHead::new(Version { major: 4, minor: 0 }));
    let config = AutoIndexConfig {
        max_keypoints: 8,
        min_keypoint_byte_gap: 0,
        min_keypoint_time_gap_ms: 0,
    };
    let mut m = open_with_skeleton_indexed(0, &[vorbis(0), vorbis(1)], skel, config).unwrap();
    assert!(m.headers_fit());
    assert_eq!(m.write_header(), Ok(()));
    for i in 0..6i64 {
        assert_eq!(m.write_packet(&packet(0, i * 48_000, 5_000)), Ok(()));
        assert_eq!(m.write_packet(&packet(1, i * 48_000, 70_000)), Ok(()));
    }
    let patches = m.write_trailer();
    let mut bytes = m.take_output();
    let before = parse_pages(&bytes).unwrap();
    apply(&mut bytes, &patches);
    let report = validate(&bytes);
    assert!(report.is_clean(), "{}", report.to_text());
    let pages = parse_pages(&bytes).unwrap();
    assert_eq!(pages.len(), before.len());
    for (p, q) in pages.iter().zip(&before) {
        assert_eq!(
            (p.flags, p.granule_position, p.serial, p.seq_no, &p.lacing),
            (q.flags, q.granule_position, q.serial, q.seq_no, &q.lacing)
        );
    }
    let head = FisHead::parse(&pages[0].data).unwrap();
    assert_eq!(head.segment_length, Some(bytes.len() as u64));
    let mut found = 0;
    for p in &pages {
        if is_index(&p.data) {
            let x = SkelIndex::parse(&p.data).unwrap();
            assert!(x.is_sorted_by_offset());
            assert!(!x.keypoints.is_empty());
            for k in &x.keypoints {
                let (at, _) = Page::parse(&bytes[k.offset as usize..]).unwrap();
                assert_eq!(at.serial, x.serial);
            }
            found += 1;
        }
    }
    assert_eq!(found, 2);
}

#[test]
fn a_skeleton_frames_the_headers_and_tells_of_the_content() {
    let mut skel = Skeleton::new();
    skel.set_head(FisHead::new(Version { major: 4, minor: 0 }));
    let config = AutoIndexConfig {
        max_keypoints: 4,
        min_keypoint_byte_gap: 0,
        min_keypoint_time_gap_ms: 0,
    };
    let mut m = open_with_skeleton_indexed(0, &[vorbis(7), vorbis(3)], skel, config).unwrap();
    assert_eq!(m.stream_serial(7), Some(7));
    assert_eq!(m.stream_serial(3), Some(3));
    assert_eq!(m.write_header(), Ok(()));
    for i in 2..9i64 {
        assert_eq!(m.write_packet(&packet(3, i * 100, 500)), Ok(()));
        assert_eq!(m.write_packet(&packet(7, i * 10, 600)), Ok(()));
    }
    let patches = m.write_trailer();
    let mut bytes = m.take_output();
    apply(&mut bytes, &patches);
    let pages = parse_pages(&bytes).unwrap();
    let opening: Vec<(u8, u32)> = pages[..3].iter().map(|p| (p.flags, p.serial)).collect();
    assert_eq!(opening, vec![(2, 8), (2, 7), (2, 3)]);
    let last = pages.iter().rposition(|p| p.serial == 8).unwrap();
    assert_eq!(pages[last].flags, 4);
    assert!(pages[last].data.is_empty());
    let before: usize = pages[..=last].iter().map(|p| p.to_bytes().len()).sum();
    let head = FisHead::parse(&pages[0].data).unwrap();
    assert_eq!(head.content_byte_offset, Some(before as u64));
    assert_eq!(head.segment_length, Some(bytes.len() as u64));
    let mut times: Vec<(u32, i64, i64)> = Vec::new();
    for p in &pages {
        if is_index(&p.data) {
            let x = SkelIndex::parse(&p.data).unwrap();
            times.push((x.serial, x.first_sample_time, x.last_sample_time));
        }
    }
    assert_eq!(times, vec![(7, 20, 80), (3, 200, 800)]);
}

#[test]
fn a_page_bears_the_last_time_that_ends_on_it() {
    let mut m = open_concrete(0, &[vorbis(0)]);
    assert_eq!(m.write_header(), Ok(()));
    let sent: Vec<(Option<i64>, bool)> = vec![
        (Some(10), false),
        (Some(20), false),
        (None, true),
        (None, true),
        (Some(30), false),
        (Some(25), true),
    ];
    for (pts, unit_boundary) in sent {
        let mut p = Packet::new(0, vec![1; 40]);
        p.pts = pts;
        p.unit_boundary = unit_boundary;
        assert_eq!(m.write_packet(&p), Ok(()));
    }
    assert!(m.write_trailer().is_empty());
    let pages = parse_pages(&m.take_output()).unwrap();
    let told: Vec<(usize, i64)> =
        pages[3..].iter().map(|p| (p.lacing.len(), p.granule_position)).collect();
    assert_eq!(told, vec![(3, 20), (1, -1), (2, 25)]);
}

#[test]
fn pages_are_emitted_once_they_come_to_the_target() {
    let mut w = PageWriter::new(1);
    w.set_page_target(Some(1000));
    for i in 0..20 {
        w.push_packet(&[7; 300], i);
    }
    let pages = parse_pages(&w.finish()).unwrap();
    assert!(pages.len() > 4);
    let mut ended = 0;
    for (i, p) in pages.iter().enumerate() {
        assert!(p.data.len() < 1000 + 300, "{}", p.data.len());
        assert!(p.data.len() >= 1000 || i + 1 == pages.len());
        assert!(p.lacing[p.lacing.len() - 1] < 255);
        ended += p.lacing.iter().filter(|v| **v < 255).count() as i64;
        assert_eq!(p.granule_position, ended - 1);
    }
    assert_eq!(ended, 20);
}

#[test]
fn a_forced_boundary_leaves_nothing_behind_and_is_not_repeated() {
    let mut w = PageWriter::new(3);
    w.flush_page();
    assert_eq!(w.pages_emitted(), 0);
    w.push_packet(&[], 0);
    w.flush_page();
    assert_eq!((w.pages_emitted(), w.pending_body_len()), (1, 0));
    w.flush_page();
    assert_eq!(w.pages_emitted(), 1);
    w.push_packet(&[4; 510], 1);
    w.flush_page();
    w.push_packet(&[5; 90_000], 2);
    let bytes = w.finish();
    let pages = parse_pages(&bytes).unwrap();
    assert!(!pages[1].is_continued() && !pages[2].is_continued());
    let r = validate(&bytes);
    assert!(r.is_clean());
    assert_eq!(r.pages, pages.len() as u64);
    assert_eq!((r.streams, r.links, r.junk_bytes), (1, 1, 0));
}

#[test]
fn issues_are_listed_in_file_order() {
    let mut bytes = vec![9u8; 5];
    for s in 0..3u32 {
        let mut w = PageWriter::new(s % 2);
        w.push_packet(&[1; 30], 0);
        w.flush_page();
        w.push_packet(&[2; 300], 5);
        bytes.extend_from_slice(&w.finish());
        bytes.extend_from_slice(&[0; 7]);
    }
    let r = validate(&bytes);
    assert!(r.issues.len() >= 5);
    assert!(r.issues.windows(2).all(|w| w[0].byte_offset <= w[1].byte_offset));
    assert!(r.issues.iter().all(|i| i.byte_offset <= bytes.len() as u64));
}

#[test]
fn clean_files_add_up_and_a_second_use_of_a_serial_is_told() {
    let file = |serials: &[u32]| -> Vec<u8> {
        let mut out: Vec<u8> = Vec::new();
        for s in serials {
            let mut w = PageWriter::new(*s);
            w.push_packet(&[1; 40], 0);
            w.flush_page();
            w.push_packet(&[2; 70_000], 9);
            out.extend_from_slice(&w.finish());
        }
        out
    };
    let (a, b) = (file(&[1, 2]), file(&[3]));
    let both = [a.clone(), b.clone()].concat();
    let (ra, rb, r) = (validate(&a), validate(&b), validate(&both));
    assert!(ra.is_clean() && rb.is_clean() && r.is_clean());
    assert_eq!(r.pages, ra.pages + rb.pages);
    assert_eq!((ra.streams, rb.streams, r.streams), (2, 1, 3));
    assert_eq!((ra.links, rb.links, r.links), (2, 1, 3));
    assert_eq!(r.junk_bytes, 0);
    let again = [a, file(&[4, 2])].concat();
    assert!(validate(&again).has(Rule::SerialReuse));
    let page_of = |serial: u32| -> Vec<u8> {
        let mut w = PageWriter::new(serial);
        w.push_packet(&[5; 10], 0);
        w.finish()
    };
    let r = validate(&[page_of(7), file(&[8, 9])].concat());
    assert!(r.is_clean());
    assert_eq!((r.streams, r.links), (3, 2));
    assert!(validate(&[page_of(7), page_of(7)].concat()).has(Rule::SerialReuse));
}

#[test]
fn streams_without_header_packets_may_have_long_setup_data() {
    let raw = |index: u32, codec: &str, n: usize| StreamInfo {
        index,
        time_base: TimeBase::new(1, 1000),
        params: CodecParameters {
            codec_id: CodecId::new(codec),
            media_type: MediaType::Unknown,
            channels: None,
            sample_rate: None,
            bit_rate: None,
            extradata: vec![7; n],
        },
    };
    let long = raw(0, "text", 70_000);
    assert!(streams_fit(&[raw(0, "text", 70_000)]));
    assert!(!streams_fit(&[raw(0, "flac", 65_025)]));
    assert!(streams_fit(&[raw(0, "flac", 65_024)]));
    let mut m = open_concrete(0, &[long]);
    assert!(m.headers_fit());
    assert_eq!(m.begin_new_link(&[raw(0, "flac", 70_000)]), m.link_refusal(1).map_or(Ok(()), Err));
    assert!(!m.has_header());
    assert_eq!(m.write_header(), Ok(()));
    assert!(m.has_header());
    assert_eq!(m.write_packet(&packet(0, 5, 10)), Ok(()));
    assert_eq!(m.link_refusal(1), None);
    m.write_trailer();
    let bytes = m.take_output();
    assert_eq!(pages_to_packets(&bytes), Ok(vec![vec![5; 10]]));
}

#[test]
fn lines_without_a_colon_and_missing_bytes() {
    let mut b = FisBone::new(9, Rational::new(48_000, 1));
    b.set_header("Name", "main");
    let mut bytes = b.to_bytes();
    bytes.extend_from_slice(b"no header here\r\nnor here\r\n\xFF\xFE");
    assert_eq!(FisBone::parse(&bytes), Ok(b));
    let mut x = SkelIndex::new(9, 1000);
    x.push(5, -7);
    x.push(5_000_000, i64::MIN);
    let bytes = x.to_bytes();
    for k in 0..bytes.len() {
        assert!(SkelIndex::parse(&bytes[..k]).is_err());
    }
    assert_eq!(SkelIndex::parse(&bytes), Ok(x));
}

#[test]
fn bones_are_read_back_as_they_were_written() {
    let mut b = FisBone::new(0xDEAD_BEEF, Rational::new(30_000, 1001));
    b.num_headers = 3;
    b.basegranule = -7;
    b.preroll = 2;
    b.granuleshift = 6;
    b.set_header("Content-type", "video/theora; codecs=\"a;b\"");
    b.set_header("Role", "video/main");
    let bytes = b.to_bytes();
    assert_eq!(FisBone::parse(&bytes).unwrap(), b);
    assert_eq!(FisBone::parse(&bytes).unwrap().to_bytes(), bytes);
}

#[test]
fn message_headers_may_hold_what_is_not_utf8() {
    let mut b = FisBone::new(1, Rational::new(1, 1));
    b.set_header("Title", "abXcd");
    let mut bytes = b.to_bytes();
    let at = bytes.windows(5).position(|w| w == b"abXcd").unwrap();
    bytes[at + 2] = 0xFF;
    let read = FisBone::parse(&bytes).unwrap();
    assert_eq!(read.header("title"), Some("ab\u{FFFD}cd"));
}

#[test]
fn heads_and_indexes_are_read_back_as_they_were_written() {
    let mut h = FisHead::new(Version { major: 4, minor: 0 });
    h.presentation_time = Rational::new(5, 1000);
    h.basetime = Rational::new(-1, 2);
    h.utc = *b"20260101T000000.000Z";
    h.segment_length = Some(12345);
    h.content_byte_offset = Some(678);
    assert_eq!(FisHead::parse(&h.to_bytes()).unwrap(), h);
    let mut x = SkelIndex::new(3, 1000);
    x.first_sample_time = -10;
    x.last_sample_time = 99;
    x.push(100, 0);
    x.push(100_000, -5);
    x.push(100_000_000_000, 400);
    assert_eq!(SkelIndex::parse(&x.to_bytes()).unwrap(), x);
}

#[test]
fn roles_and_kinds_are_read_back_as_they_were_written() {
    for raw in ["text/caption", "VIDEO/Main", " audio/sfx ", "something/else", "text"] {
        let role = Role::parse(raw);
        let again = Role::parse(role.kind.as_wire());
        assert_eq!(again.kind, role.kind);
        let classes = [role.kind.is_text(), role.kind.is_video(), role.kind.is_audio()];
        assert!(classes.iter().filter(|c| **c).count() <= 1);
    }
    for raw in ["audio/vorbis", "Video/theora", "model/x", "application/kate"] {
        let t = ContentType::parse(raw).unwrap();
        let again = ContentType::parse(&format!("{}/{}", t.kind.as_wire(), t.subtype)).unwrap();
        assert_eq!(again, t);
    }
}

#[test]
fn granules_since_the_start_of_a_stream() {
    let mut b = FisBone::new(1, Rational::new(25, 1));
    b.granuleshift = 6;
    b.basegranule = 15;
    assert!(b.has_time());
    assert_eq!(b.extract_granules((20 << 6) + 3), 23);
    assert_eq!(b.timed_granules((20 << 6) + 3), Some(23));
    assert_eq!(b.start_granules(), Some(15));
    assert_eq!(b.elapsed_granules((20 << 6) + 3), Some(8));
    b.granule_rate = Rational::new(25, 0);
    assert!(!b.has_time());
    assert_eq!(b.timed_granules((20 << 6) + 3), None);
}

#[test]
fn the_last_keypoint_that_is_not_late() {
    let mut x = SkelIndex::new(3, 1000);
    assert_eq!(x.keypoint_at_or_before(5), None);
    x.push(10, 0);
    x.push(20, 100);
    x.push(30, 100);
    x.push(40, 250);
    assert_eq!(x.keypoint_at_or_before(-1), None);
    assert_eq!(x.keypoint_at_or_before(0), Some(0));
    assert_eq!(x.keypoint_at_or_before(100), Some(2));
    assert_eq!(x.keypoint_at_or_before(249), Some(2));
    assert_eq!(x.keypoint_at_or_before(10_000), Some(3));
}

#[test]
fn packed_granules_unpack_and_grow() {
    let g = TheoraGranule { shift: 4, count_from_one: true };
    let mut last = -1;
    for (frame, key) in [(0, 0), (1, 0), (15, 0), (16, 16), (17, 16), (31, 16)] {
        let granule = g.pack(frame, key).unwrap();
        assert!(granule > last);
        last = granule;
        assert_eq!(g.frame_index(granule), Some(frame));
        assert_eq!(g.keyframe_index(granule), Some(key));
        assert_eq!(g.is_keyframe(granule), frame == key);
        assert_eq!(g.frame_count(granule), Some(frame + 1));
    }
}

#[test]
fn theora_header_packets_have_their_tags() {
    let id = theora_id_packet();
    assert_eq!((id.len(), &id[..7]), (42, &b"\x80theora"[..]));
    assert_eq!(&theora_comment_packet()[..7], b"\x81theora");
    assert_eq!(&theora_setup_packet()[..7], b"\x82theora");
}

#[test]
fn only_pages_are_probed_as_such() {
    assert_eq!(probe(b"OggS"), 100);
    assert_eq!(probe(b"OggS and more"), 100);
    assert_eq!(probe(b"Ogg"), 0);
    assert_eq!(probe(b"oggS"), 0);
    assert_eq!(probe(b""), 0);
}

#[test]
fn lacing_values_say_how_long_a_packet_is() {
    assert_eq!(lace(0), vec![0]);
    assert_eq!(lace(254), vec![254]);
    assert_eq!(lace(255), vec![255, 0]);
    assert_eq!(lace(600), vec![255, 255, 90]);
}

#[test]
fn whitespace_is_what_char_says() {
    let mut n: u32 = 0;
    while n <= 0x10FFFF {
        if let Some(c) = char::from_u32(n) {
            assert_eq!(is_whitespace(c), c.is_whitespace(), "{:x}", n);
        }
        n += 1;
    }
}

#[test]
fn real_notation_is_what_f32_reads() {
    let samples = [
        "", "1", "-1", "+1", "1.", ".5", "1.5", ".", "+", "-", "1e5", "1e", "1e+5", "1E-5", "e5",
        "inf", "-inf", "Infinity", "infinit", "nan", "NaN", "+nan", "1_000", " 1", "1 ", "0x10",
        "1.2.3", "--1", "1e5.0", "1e5e5", "00012", "1f",
    ];
    for s in samples {
        assert_eq!(is_real_notation(&to_chars(s)), s.parse::<f32>().is_ok(), "{:?}", s);
    }
}
