//! Multiplexing.
use oxideav_ogg::codec_id::CodecId;
use oxideav_ogg::error::{Error, Fault};
use oxideav_ogg::framing::{parse_pages, PacketAssembler};
use oxideav_ogg::header_packets::{
    vorbis_comment_packet, vorbis_id_packet, vorbis_setup_packet,
};
use oxideav_ogg::mux::codec_headers::extract_codec_headers;
use oxideav_ogg::mux::{
    open_concrete, open_with_skeleton, open_with_skeleton_indexed, streams_fit, xiph_lace,
    xiph_unlace, AutoIndexConfig,
};
use oxideav_ogg::page::Page;
use oxideav_ogg::skeleton::{
    is_fishead, is_index, FisBone, FisHead, Rational, SkelIndex, Skeleton, Version,
};
use oxideav_ogg::stream::{CodecParameters, MediaType, Packet, StreamInfo, TimeBase};
use oxideav_ogg::validate::validate;



#[test]
fn xiph_lace_round_trips_three_packets() {
    let id = vec![0x01u8; 30];
    let comment = vec![0x03u8; 300];
    let setup = vec![0x05u8; 700];
    let blob = xiph_lace(&[&id, &comment, &setup]).unwrap();
    assert_eq!(blob[0], 0x02);
    let packets = xiph_unlace(&blob).unwrap();
    assert_eq!(packets, vec![id, comment, setup]);
}

#[test]
fn xiph_lace_handles_exact_255_multiples_and_empties() {
    let a = vec![0xAAu8; 255];
    let b: Vec<u8> = Vec::new();
    let c = vec![0xCCu8; 3];
    let blob = xiph_lace(&[&a, &b, &c]).unwrap();
    let packets = xiph_unlace(&blob).unwrap();
    assert_eq!(packets, vec![a, b, c]);
    let solo = xiph_lace(&[&[1u8, 2, 3][..]]).unwrap();
    assert_eq!(solo, vec![0x00, 1, 2, 3]);
    assert_eq!(xiph_unlace(&solo).unwrap(), vec![vec![1u8, 2, 3]]);
}

#[test]
fn xiph_lace_rejects_empty_and_oversize_inputs() {
    assert!(xiph_lace(&[]).is_none());
    let one = [0u8; 1];
    let too_many: Vec<&[u8]> = vec![&one; 257];
    assert!(xiph_lace(&too_many).is_none());
    assert!(xiph_unlace(&[]).is_none());
    assert!(xiph_unlace(&[0x02, 255]).is_none());
}

#[test]
fn xiph_lace_matches_extract_codec_headers() {
    let id = {
        let mut p = vec![0x01u8];
        p.extend_from_slice(b"vorbis");
        p
    };
    let comment = vec![0x03u8; 12];
    let setup = vec![0x05u8; 40];
    let blob = xiph_lace(&[&id, &comment, &setup]).unwrap();
    let packets = extract_codec_headers(&CodecId::new("vorbis"), &blob);
    assert_eq!(packets, vec![id, comment, setup]);
}

fn header_blob() -> Vec<u8> {
    let id = vorbis_id_packet();
    let comment = vorbis_comment_packet();
    let setup = vorbis_setup_packet();
    xiph_lace(&[&id, &comment, &setup]).unwrap()
}

fn stream(index: u32, codec: &str, extradata: Vec<u8>) -> StreamInfo {
    StreamInfo {
        index,
        time_base: TimeBase::new(1, 48_000),
        params: CodecParameters {
            codec_id: CodecId::new(codec),
            media_type: MediaType::Audio,
            channels: Some(2),
            sample_rate: Some(48_000),
            bit_rate: None,
            extradata,
        },
    }
}

fn vorbis(index: u32) -> StreamInfo {
    stream(index, "vorbis", header_blob())
}

fn packet(index: u32, pts: i64, data: Vec<u8>) -> Packet {
    let mut p = Packet::new(index, data);
    p.pts = Some(pts);
    p.keyframe = true;
    p.unit_boundary = true;
    p
}

fn pages_of(serial: u32, bytes: &[u8]) -> Vec<Page> {
    parse_pages(bytes)
        .unwrap()
        .into_iter()
        .filter(|p| p.serial == serial)
        .collect()
}

fn packets_of(pages: &[Page]) -> Vec<Vec<u8>> {
    let mut assembler = PacketAssembler::new();
    let mut out = Vec::new();
    for p in pages {
        out.extend(assembler.push_page(p).unwrap());
    }
    assert!(!assembler.mid_packet());
    out
}

#[test]
fn one_stream_is_written_clean_and_whole() {
    let mut m = open_concrete(0, &[vorbis(0)]);
    assert!(m.headers_fit());
    assert_eq!(m.write_header(), Ok(()));
    assert_eq!(m.write_header(), Err(Error::Other(Fault::HeaderTwice)));
    for i in 0..5i64 {
        assert_eq!(m.write_packet(&packet(0, (i + 1) * 1024, vec![i as u8; 300])), Ok(()));
    }
    let big = vec![7u8; 70_000];
    assert_eq!(m.write_packet(&packet(0, 6 * 1024, big.clone())), Ok(()));
    let patches = m.write_trailer();
    assert!(patches.is_empty());
    let bytes = m.take_output();
    assert!(m.take_output().is_empty());
    let report = validate(&bytes);
    assert!(report.is_clean(), "{}", report.to_text());
    assert_eq!(report.streams, 1);
    let serial = m.stream_serial(0).unwrap();
    assert_eq!(m.stream_serial(1), None);
    let packets = packets_of(&pages_of(serial, &bytes));
    assert_eq!(packets.len(), 9);
    assert_eq!(packets[0], vorbis_id_packet());
    assert_eq!(packets[1], vorbis_comment_packet());
    assert_eq!(packets[2], vorbis_setup_packet());
    assert_eq!(packets[3], vec![0u8; 300]);
    assert_eq!(packets[8], big);
    assert_eq!(m.link_index(), 0);
}

#[test]
fn packets_wait_for_the_header_and_for_known_streams() {
    let mut m = open_concrete(0, &[vorbis(0)]);
    assert_eq!(
        m.write_packet(&packet(0, 0, vec![1])),
        Err(Error::Other(Fault::HeaderMissing))
    );
    assert_eq!(
        m.begin_new_link(&[vorbis(0)]),
        Err(Error::Other(Fault::LinkBeforeHeader))
    );
    assert_eq!(m.write_header(), Ok(()));
    assert_eq!(
        m.write_packet(&packet(9, 0, vec![1])),
        Err(Error::InvalidData(Fault::UnknownStream { index: 9 }))
    );
}

#[test]
fn links_are_chained_with_serials_of_their_own() {
    let mut m = open_concrete(0, &[vorbis(0)]);
    m.write_header().unwrap();
    let first = m.stream_serial(0).unwrap();
    m.write_packet(&packet(0, 1024, vec![1; 50])).unwrap();
    assert_eq!(
        m.begin_new_link(&[]),
        Err(Error::InvalidData(Fault::LinkWithoutStreams))
    );
    assert!(streams_fit(&[vorbis(0)]));
    assert_eq!(m.begin_new_link(&[vorbis(0)]), Ok(()));
    assert_eq!(
        m.begin_new_link(&[vorbis(0)]),
        Err(Error::InvalidData(Fault::LinkWithoutContent))
    );
    let second = m.stream_serial(0).unwrap();
    assert_ne!(first, second);
    assert_eq!(m.link_index(), 1);
    m.write_packet(&packet(0, 1024, vec![2; 50])).unwrap();
    m.write_trailer();
    assert_eq!(
        m.begin_new_link(&[vorbis(0)]),
        Err(Error::Other(Fault::LinkAfterTrailer))
    );
    let bytes = m.take_output();
    let report = validate(&bytes);
    assert!(report.is_clean(), "{}", report.to_text());
    assert_eq!(report.links, 2);
    assert_eq!(packets_of(&pages_of(first, &bytes))[3], vec![1; 50]);
    assert_eq!(packets_of(&pages_of(second, &bytes))[3], vec![2; 50]);
}

#[test]
fn a_skeleton_stands_before_the_content() {
    let mut sk = Skeleton::new();
    sk.set_head(FisHead::new(Version::v4_0()));
    let mut bone = FisBone::new(0, Rational::new(48_000, 1));
    bone.set_header("Content-Type", "audio/vorbis");
    sk.push_bone(bone);
    let mut m = open_with_skeleton(0, &[vorbis(0)], Some(sk));
    assert!(m.headers_fit());
    m.write_header().unwrap();
    m.write_packet(&packet(0, 1024, vec![1; 50])).unwrap();
    assert_eq!(
        m.begin_new_link(&[vorbis(0)]),
        Err(Error::InvalidData(Fault::LinkWithSkeleton))
    );
    let patches = m.write_trailer();
    let mut bytes = m.take_output();
    for patch in &patches {
        let at = patch.offset as usize;
        bytes[at..at + patch.bytes.len()].copy_from_slice(&patch.bytes);
    }
    let report = validate(&bytes);
    assert!(report.is_clean(), "{}", report.to_text());
    let pages = parse_pages(&bytes).unwrap();
    assert!(is_fishead(&pages[0].data));
    let head = FisHead::parse(&pages[0].data).unwrap();
    assert_eq!(head.segment_length, Some(bytes.len() as u64));
}

#[test]
fn keyframes_are_indexed() {
    let mut sk = Skeleton::new();
    sk.set_head(FisHead::new(Version::v4_0()));
    let config = AutoIndexConfig::default();
    let mut m = open_with_skeleton_indexed(0, &[vorbis(0)], sk, config).unwrap();
    assert!(m.headers_fit());
    m.write_header().unwrap();
    let serial = m.stream_serial(0).unwrap();
    for i in 0..20i64 {
        m.write_packet(&packet(0, (i + 1) * 48_000, vec![i as u8; 30_000])).unwrap();
    }
    let patches = m.write_trailer();
    let mut bytes = m.take_output();
    for patch in &patches {
        let at = patch.offset as usize;
        bytes[at..at + patch.bytes.len()].copy_from_slice(&patch.bytes);
    }
    let report = validate(&bytes);
    assert!(report.is_clean(), "{}", report.to_text());
    let mut offset = 0usize;
    let mut index = None;
    let mut starts = Vec::new();
    for page in parse_pages(&bytes).unwrap() {
        if is_index(&page.data) {
            index = Some(SkelIndex::parse(&page.data).unwrap());
        }
        if page.serial == serial {
            starts.push(offset as u64);
        }
        offset += page.to_bytes().len();
    }
    let index = index.unwrap();
    assert_eq!(index.serial, serial);
    assert!(index.is_sorted_by_offset());
    assert!(!index.keypoints.is_empty());
    for kp in &index.keypoints {
        assert!(starts.contains(&kp.offset));
    }
}

#[test]
fn index_configurations_are_checked() {
    let mut sk = Skeleton::new();
    sk.set_head(FisHead::new(Version::v4_0()));
    let mut config = AutoIndexConfig::default();
    config.max_keypoints = 0;
    assert_eq!(
        open_with_skeleton_indexed(0, &[vorbis(0)], sk.clone(), config).err(),
        Some(Error::InvalidData(Fault::IndexKeypoints { max_keypoints: 0 }))
    );
    let mut old = Skeleton::new();
    old.set_head(FisHead::new(Version::v3_0()));
    assert_eq!(
        open_with_skeleton_indexed(0, &[vorbis(0)], old, AutoIndexConfig::default()).err(),
        Some(Error::InvalidData(Fault::IndexVersion))
    );
    let mut timeless = vorbis(3);
    timeless.time_base = TimeBase::new(0, 1);
    assert_eq!(
        open_with_skeleton_indexed(0, &[timeless], sk, AutoIndexConfig::default()).err(),
        Some(Error::InvalidData(Fault::IndexTimeBase { index: 3 }))
    );
}
