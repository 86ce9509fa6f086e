//! Long runs of operations and inputs drawn from a fixed pseudo-random sequence.
use oxideav_ogg::codec_id::CodecId;
use oxideav_ogg::crc::{compute_page_checksum, read_page_checksum, validate_page_crc};
use oxideav_ogg::demux::index_build::{BuildStage, IndexBuild};
use oxideav_ogg::demux::{bytes_wanted, input_ended, OggDemuxer};
use oxideav_ogg::error::Error;
use oxideav_ogg::framing::{pages_to_packets, parse_pages, PacketAssembler, PageWriter};
use oxideav_ogg::header_packets::{
    opus_head_packet, vorbis_comment_packet, vorbis_id_packet, vorbis_setup_packet,
};
use oxideav_ogg::mux::{open_concrete, xiph_lace};
use oxideav_ogg::page::{flags, lace, Page};
use oxideav_ogg::skeleton::{
    is_fisbone, is_fishead, is_index, read_vbi_u64, write_vbi_u64, FisBone, FisHead, SkelIndex,
};
use oxideav_ogg::stream::{CodecParameters, MediaType, Packet, StreamInfo, TimeBase};
use oxideav_ogg::validate::{validate, MAX_ISSUES};

/// A pseudo-random sequence.
struct Draw(u64);

impl Draw {
    fn next(&mut self) -> u64 {
        self.0 ^= self.0 << 13;
        self.0 ^= self.0 >> 7;
        self.0 ^= self.0 << 17;
        self.0
    }

    fn below(&mut self, n: u64) -> u64 {
        self.next() % n
    }

    fn bytes(&mut self, n: usize) -> Vec<u8> {
        (0..n).map(|_| self.next() as u8).collect()
    }
}

const SIZES: [usize; 8] = [0, 1, 254, 255, 256, 510, 8192, 66_000];

#[test]
fn page_writer_operations_round_trip() {
    let mut draw = Draw(0x9E37_79B9_7F4A_7C15);
    for _ in 0..40 {
        let mut w = PageWriter::new(0x0BAD_CAFE);
        let mut expected: Vec<Vec<u8>> = Vec::new();
        let mut granule: i64 = 0;
        for _ in 0..draw.below(30) {
            match draw.below(8) {
                0..=5 => {
                    let packet = vec![draw.next() as u8; SIZES[draw.below(8) as usize]];
                    granule = granule.wrapping_add(draw.next() as i8 as i64);
                    w.push_packet(&packet, granule);
                    expected.push(packet);
                }
                6 => w.flush_page(),
                _ => {
                    let target = match draw.below(4) {
                        0 => None,
                        1 => Some(1),
                        2 => Some(4096),
                        _ => Some(draw.below(16_000) as usize + 1),
                    };
                    w.set_page_target(target);
                }
            }
        }
        let bytes = w.finish();
        if expected.is_empty() {
            assert!(bytes.is_empty());
            continue;
        }
        let pages = parse_pages(&bytes).unwrap();
        assert!(pages[0].is_first());
        assert!(pages[pages.len() - 1].is_last());
        for (i, page) in pages.iter().enumerate() {
            assert_eq!((page.seq_no, page.serial), (i as u32, 0x0BAD_CAFE));
            assert!(page.lacing.len() <= 255);
            if i > 0 {
                assert_eq!(page.is_continued(), pages[i - 1].lacing.last() == Some(&255));
            }
        }
        assert_eq!(pages_to_packets(&bytes), Ok(expected.clone()));
        let mut assembler = PacketAssembler::new();
        let mut got = Vec::new();
        for page in &pages {
            got.extend(assembler.push_page(page).unwrap());
        }
        assert_eq!(got, expected);
        assert!(!assembler.mid_packet());
    }
}

#[test]
fn pages_that_are_read_are_written_the_same() {
    let mut draw = Draw(0x1234_5678_9ABC_DEF1);
    for _ in 0..300 {
        let n = draw.below(6) as usize;
        let lacing = draw.bytes(n);
        let len: usize = lacing.iter().map(|v| *v as usize).sum();
        let page = Page {
            flags: draw.next() as u8,
            granule_position: draw.next() as i64,
            serial: draw.next() as u32,
            seq_no: draw.next() as u32,
            lacing,
            data: draw.bytes(len),
        };
        let bytes = page.to_bytes();
        let (again, used) = Page::parse(&bytes).unwrap();
        assert_eq!(used, bytes.len());
        assert_eq!(again, page);
        assert_eq!(again.try_to_bytes(), Ok(bytes.clone()));
        assert_eq!(validate_page_crc(&bytes), Some(true));
        assert_eq!(read_page_checksum(&bytes), compute_page_checksum(&bytes));
        let k = draw.below(bytes.len() as u64) as usize;
        let mut damaged = bytes.clone();
        damaged[k] ^= 1 << draw.below(8);
        if let Ok((other, _)) = Page::parse(&damaged) {
            assert_ne!(other, page);
        }
    }
}

#[test]
fn any_bytes_can_be_judged() {
    let mut draw = Draw(77);
    for round in 0..200usize {
        let mut bytes = draw.bytes(round * 3);
        if round % 2 == 0 && bytes.len() > 40 {
            let at = draw.below(bytes.len() as u64 - 30) as usize;
            bytes[at..at + 4].copy_from_slice(b"OggS");
            bytes[at + 4] = 0;
        }
        let report = validate(&bytes);
        let again = validate(&bytes);
        assert!(report.issues.len() <= MAX_ISSUES);
        assert!(report.junk_bytes <= bytes.len() as u64);
        assert_eq!(report.to_text(), again.to_text());
        assert_eq!(report.is_clean(), report.issues.is_empty() && report.suppressed_issues == 0);
        for at in 0..bytes.len() {
            let _ = Page::parse(&bytes[at..]);
        }
        assert_eq!(lace(round).iter().map(|v| *v as usize).sum::<usize>(), round);
    }
}

#[test]
fn skeleton_packets_that_are_read_are_read_again_the_same() {
    let mut draw = Draw(4242);
    for _ in 0..400 {
        let n = draw.below(140) as usize;
        let mut bytes = draw.bytes(n);
        let magic: &[u8] = match draw.below(3) {
            0 => b"fishead\0",
            1 => b"fisbone\0",
            _ => b"index\0",
        };
        let m = magic.len().min(n);
        bytes[..m].copy_from_slice(&magic[..m]);
        if magic[3] == b'h' && n > 12 {
            bytes[8] = 3 + draw.below(2) as u8;
            bytes[9] = 0;
        }
        if magic[3] == b'b' && n > 12 {
            bytes[8..12].copy_from_slice(&44u32.to_le_bytes());
        }
        if magic[0] == b'i' && magic[1] == b'n' && n > 18 {
            bytes[10..18].copy_from_slice(&draw.below(4).to_le_bytes());
        }
        if let Ok(head) = FisHead::parse(&bytes) {
            assert!(is_fishead(&bytes));
            let written = head.to_bytes();
            assert_eq!(&bytes[..written.len()], &written[..]);
        }
        if let Ok(bone) = FisBone::parse(&bytes) {
            assert!(is_fisbone(&bytes));
            assert_eq!(FisBone::parse(&bone.to_bytes()), Ok(bone));
        }
        if let Ok(index) = SkelIndex::parse(&bytes) {
            assert!(is_index(&bytes));
            assert_eq!(SkelIndex::parse(&index.to_bytes()), Ok(index));
        }
        let v = draw.next() >> draw.below(64);
        let mut out = Vec::new();
        write_vbi_u64(&mut out, v);
        assert_eq!(read_vbi_u64(&out), Some((v, out.len())));
    }
}

fn stream(index: u32, opus: bool) -> StreamInfo {
    let extradata = if opus {
        opus_head_packet(312)
    } else {
        let (id, comment, setup) =
            (vorbis_id_packet(), vorbis_comment_packet(), vorbis_setup_packet());
        xiph_lace(&[&id, &comment, &setup]).unwrap()
    };
    StreamInfo {
        index,
        time_base: TimeBase::new(1, 48_000),
        params: CodecParameters {
            codec_id: CodecId::new(if opus { "opus" } else { "vorbis" }),
            media_type: MediaType::Audio,
            channels: Some(2),
            sample_rate: Some(48_000),
            bit_rate: None,
            extradata,
        },
    }
}

/// The pages of a file in memory.
struct Reader {
    bytes: Vec<u8>,
    at: usize,
}

impl Reader {
    fn page(&mut self) -> Result<Option<(u64, Vec<u8>)>, Error> {
        let start = self.at;
        let mut have: Vec<u8> = Vec::new();
        loop {
            let want = bytes_wanted(&have)?;
            if want == 0 {
                return Ok(Some((start as u64, have)));
            }
            let n = want.min(self.bytes.len() - self.at);
            have.extend_from_slice(&self.bytes[self.at..self.at + n]);
            self.at += n;
            if n < want {
                input_ended(have.len())?;
                return Ok(None);
            }
        }
    }
}

fn read_all(bytes: Vec<u8>) -> Result<(OggDemuxer, Vec<Packet>), Error> {
    let mut r = Reader { bytes, at: 0 };
    let mut d = OggDemuxer::new();
    while let Some((offset, data)) = r.page()? {
        if !d.take_opening_page(offset, &data)? {
            break;
        }
    }
    d.end_opening()?;
    while d.absorb_headers()? {
        match r.page()? {
            None => break,
            Some((offset, data)) => d.feed_page(offset, &data)?,
        }
    }
    d.finish_opening();
    let mut out = Vec::new();
    loop {
        match d.next_ready()? {
            Some(p) => {
                assert!((p.stream_index as usize) < d.streams().len());
                out.push(p);
            }
            None => match r.page()? {
                None => return Ok((d, out)),
                Some((offset, data)) => d.feed_page(offset, &data)?,
            },
        }
    }
}

#[test]
fn links_that_are_written_are_read_back() {
    let mut draw = Draw(31_337);
    for _ in 0..15 {
        let links = 1 + draw.below(3) as usize;
        let mut expected: Vec<Vec<Vec<u8>>> = Vec::new();
        let mut shapes: Vec<Vec<StreamInfo>> = Vec::new();
        for _ in 0..links {
            let n = 1 + draw.below(2) as u32;
            shapes.push((0..n).map(|i| stream(i, draw.below(2) == 0)).collect());
        }
        let mut m = open_concrete(0, &shapes[0]);
        m.write_header().unwrap();
        for (j, streams) in shapes.iter().enumerate() {
            if j > 0 {
                m.begin_new_link(streams).unwrap();
            }
            let base = expected.len();
            expected.resize(base + streams.len(), Vec::new());
            let mut pts = vec![0i64; streams.len()];
            for k in 0..streams.len() as u64 + draw.below(20) {
                let s = if k < streams.len() as u64 {
                    k as usize
                } else {
                    draw.below(streams.len() as u64) as usize
                };
                let data = vec![draw.next() as u8; SIZES[draw.below(8) as usize]];
                let mut p = Packet::new(s as u32, data.clone());
                pts[s] += draw.below(2000) as i64;
                p.pts = Some(pts[s]);
                p.keyframe = true;
                p.unit_boundary = draw.below(3) == 0;
                m.write_packet(&p).unwrap();
                expected[base + s].push(data);
            }
        }
        m.write_trailer();
        let bytes = m.take_output();
        let report = validate(&bytes);
        assert!(report.is_clean(), "{}", report.to_text());
        assert_eq!(report.links as usize, links);
        let (d, packets) = read_all(bytes).unwrap();
        assert_eq!(d.streams().len(), expected.len());
        assert_eq!(d.hole_count(), 0);
        let mut got: Vec<Vec<Vec<u8>>> = vec![Vec::new(); expected.len()];
        for p in packets {
            got[p.stream_index as usize].push(p.data);
        }
        assert_eq!(got, expected);
    }
}

#[test]
fn packets_that_end_their_pages_come_back_with_their_times() {
    let mut draw = Draw(60_606);
    for _ in 0..8 {
        let mut m = open_concrete(0, &[stream(0, false), stream(1, true)]);
        m.write_header().unwrap();
        let mut expected: Vec<Packet> = Vec::new();
        for link in 0..2u32 {
            if link > 0 {
                m.begin_new_link(&[stream(0, true), stream(1, false)]).unwrap();
            }
            for k in 0..12u64 {
                let s = draw.below(2) as u32;
                let mut p =
                    Packet::new(s, vec![k as u8; SIZES[draw.below(8) as usize]]);
                p.pts = match draw.below(4) {
                    0 => None,
                    1 => Some(-5),
                    _ => Some(draw.below(1 << 40) as i64),
                };
                p.unit_boundary = true;
                m.write_packet(&p).unwrap();
                let mut back = Packet::new(2 * link + s, p.data.clone());
                back.pts = p.pts.filter(|t| *t >= 0);
                back.keyframe = true;
                back.unit_boundary = true;
                expected.push(back);
            }
        }
        m.write_trailer();
        let (d, packets) = read_all(m.take_output()).unwrap();
        assert_eq!(d.streams().len(), 4);
        for number in 0..4u32 {
            let got: Vec<&Packet> =
                packets.iter().filter(|p| p.stream_index == number).collect();
            let sent: Vec<&Packet> =
                expected.iter().filter(|p| p.stream_index == number).collect();
            assert_eq!(got, sent);
        }
    }
}

#[test]
fn seeks_in_an_indexed_file_find_the_best_page() {
    let mut draw = Draw(112_358);
    for _ in 0..6 {
        let mut m = open_concrete(0, &[stream(0, false), stream(1, true)]);
        m.write_header().unwrap();
        for k in 0..40u64 {
            let s = if k < 2 { k as u32 } else { draw.below(2) as u32 };
            let mut p = Packet::new(s, vec![79; SIZES[draw.below(8) as usize]]);
            p.pts = Some(draw.below(1000) as i64);
            p.unit_boundary = draw.below(2) == 0;
            m.write_packet(&p).unwrap();
        }
        m.write_trailer();
        let bytes = m.take_output();
        let pages = parse_pages(&bytes).unwrap();
        let (mut d, _) = read_all(bytes.clone()).unwrap();
        let size = bytes.len() as u64;
        let mut build = IndexBuild::new(size);
        while let Some((offset, len)) = build.request() {
            let at = offset as usize;
            let end = (at + len).min(bytes.len());
            build.answer(&mut d, &bytes[at..end]);
        }
        assert_eq!(build.stage(), BuildStage::Done { complete: true });
        d.mark_index_built();
        for number in 0..2u32 {
            for target in [-1i64, 0, 77, 500, 999, 5000] {
                let best = pages
                    .iter()
                    .filter(|p| p.serial == number)
                    .map(|p| p.granule_position)
                    .filter(|g| 0 <= *g && *g <= target)
                    .max();
                let seek = d.begin_seek(number, target, size).unwrap();
                match (best, seek.outcome()) {
                    (Some(g), Some(Ok((offset, landed)))) => {
                        assert_eq!(landed, g);
                        let (p, _) = Page::parse(&bytes[offset as usize..]).unwrap();
                        assert_eq!((p.serial, p.granule_position), (number, g));
                    }
                    (None, None) => {}
                    other => panic!("{other:?}"),
                }
            }
        }
        assert!(d.begin_seek(2, 0, size).is_err());
    }
}

#[test]
fn damaged_pages_never_deliver_for_unknown_streams() {
    let mut draw = Draw(8_675_309);
    for _ in 0..60 {
        let mut bytes: Vec<u8> = Vec::new();
        let serials = [1u32, 2];
        for s in serials {
            let id = vorbis_id_packet();
            let page = Page {
                flags: flags::FIRST_PAGE,
                granule_position: 0,
                serial: s,
                seq_no: 0,
                lacing: lace(id.len()),
                data: id,
            };
            bytes.extend(page.to_bytes());
        }
        for _ in 0..draw.below(20) {
            let lacing: Vec<u8> = (0..draw.below(4))
                .map(|_| if draw.below(2) == 0 { 255 } else { draw.next() as u8 })
                .collect();
            let len: usize = lacing.iter().map(|v| *v as usize).sum();
            let page = Page {
                flags: draw.below(8) as u8 & !flags::FIRST_PAGE,
                granule_position: draw.next() as i64,
                serial: 1 + draw.below(3) as u32,
                seq_no: draw.below(5) as u32,
                lacing,
                data: draw.bytes(len),
            };
            bytes.extend(page.to_bytes());
        }
        if let Ok((d, packets)) = read_all(bytes) {
            assert_eq!(d.streams().len(), 2);
            assert!(packets.iter().all(|p| p.stream_index < 2));
        }
    }
}
