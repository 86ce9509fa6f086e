//! Demultiplexing.
use oxideav_ogg::codec_id::CodecId;
use oxideav_ogg::demux::bisect::Bisect;
use oxideav_ogg::demux::codec_params::{guess_params, stream_time_base};
use oxideav_ogg::demux::codec_private::build_codec_private;
use oxideav_ogg::demux::comments::parse_vorbis_comment;
use oxideav_ogg::demux::durations::{last_granules, longest, tail_window, total_duration};
use oxideav_ogg::demux::index_build::{BuildStage, IndexBuild};
use oxideav_ogg::demux::page_scan::{PageScan, ScanStage};
use oxideav_ogg::demux::seek_index::SeekIndex;
use oxideav_ogg::demux::{bytes_wanted, input_ended, OggDemuxer};
use oxideav_ogg::error::{Error, Fault};
use oxideav_ogg::framing::PageWriter;
use oxideav_ogg::header_packets::{
    opus_head_packet, opus_tags_packet, theora_id_packet, vorbis_comment_packet,
    vorbis_id_packet, vorbis_setup_packet,
};
use oxideav_ogg::mux::{open_concrete, xiph_lace, xiph_unlace};
use oxideav_ogg::page::{flags, Page};
use oxideav_ogg::stream::{CodecParameters, MediaType, Packet, StreamInfo, TimeBase};

/// A file in memory, read from front to back.
struct Reader {
    bytes: Vec<u8>,
    at: usize,
}

impl Reader {
    fn page(&mut self) -> Result<Option<(u64, Vec<u8>)>, Error> {
        let start = self.at;
        let mut have: Vec<u8> = Vec::new();
        loop {
            let want = bytes_wanted(&have)?;
            if want == 0 {
                return Ok(Some((start as u64, have)));
            }
            let left = self.bytes.len() - self.at;
            let n = want.min(left);
            have.extend_from_slice(&self.bytes[self.at..self.at + n]);
            self.at += n;
            if n < want {
                input_ended(have.len())?;
                return Ok(None);
            }
        }
    }
}

fn open(bytes: &[u8]) -> Result<(OggDemuxer, Reader), Error> {
    let mut r = Reader { bytes: bytes.to_vec(), at: 0 };
    let mut d = OggDemuxer::new();
    loop {
        match r.page()? {
            None => break,
            Some((offset, data)) => {
                if !d.take_opening_page(offset, &data)? {
                    break;
                }
            }
        }
    }
    d.end_opening()?;
    while d.absorb_headers()? {
        match r.page()? {
            None => break,
            Some((offset, data)) => d.feed_page(offset, &data)?,
        }
    }
    d.finish_opening();
    Ok((d, r))
}

fn drain(d: &mut OggDemuxer, r: &mut Reader) -> Vec<Packet> {
    let mut out = Vec::new();
    loop {
        match d.next_ready().unwrap() {
            Some(p) => out.push(p),
            None => match r.page().unwrap() {
                None => return out,
                Some((offset, data)) => d.feed_page(offset, &data).unwrap(),
            },
        }
    }
}

fn piece(bytes: &[u8], offset: u64, len: usize) -> &[u8] {
    let start = (offset as usize).min(bytes.len());
    let end = (start + len).min(bytes.len());
    &bytes[start..end]
}

fn vorbis(index: u32) -> StreamInfo {
    let (id, comment, setup) = (vorbis_id_packet(), vorbis_comment_packet(), vorbis_setup_packet());
    StreamInfo {
        index,
        time_base: TimeBase::new(1, 48_000),
        params: CodecParameters {
            codec_id: CodecId::new("vorbis"),
            media_type: MediaType::Audio,
            channels: Some(2),
            sample_rate: Some(48_000),
            bit_rate: None,
            extradata: xiph_lace(&[&id, &comment, &setup]).unwrap(),
        },
    }
}

fn opus(index: u32) -> StreamInfo {
    StreamInfo {
        index,
        time_base: TimeBase::new(1, 48_000),
        params: CodecParameters {
            codec_id: CodecId::new("opus"),
            media_type: MediaType::Audio,
            channels: Some(2),
            sample_rate: Some(48_000),
            bit_rate: None,
            extradata: opus_head_packet(312),
        },
    }
}

fn packet(index: u32, pts: i64, data: Vec<u8>) -> Packet {
    let mut p = Packet::new(index, data);
    p.pts = Some(pts);
    p.keyframe = true;
    p.unit_boundary = true;
    p
}

/// Two streams, with packets of all lacing lengths.
fn two_streams() -> (Vec<u8>, Vec<Packet>) {
    let mut m = open_concrete(0, &[vorbis(0), opus(1)]);
    m.write_header().unwrap();
    let mut sent = Vec::new();
    for (i, len) in [0usize, 1, 254, 255, 256, 510, 65_024, 65_025, 65_026, 140_000]
        .iter()
        .enumerate()
    {
        for s in 0..2u32 {
            let p = packet(s, (i as i64 + 1) * 960, vec![(i as u8) ^ (s as u8); *len]);
            m.write_packet(&p).unwrap();
            sent.push(p);
        }
    }
    m.write_trailer();
    (m.take_output(), sent)
}

/// One stream of a page a packet.
fn many_pages(count: i64) -> Vec<u8> {
    let mut m = open_concrete(0, &[vorbis(0)]);
    m.write_header().unwrap();
    for i in 0..count {
        m.write_packet(&packet(0, (i + 1) * 1000, vec![i as u8; 4000])).unwrap();
    }
    m.write_trailer();
    m.take_output()
}

#[test]
fn what_is_multiplexed_comes_back() {
    let (bytes, sent) = two_streams();
    let (mut d, mut r) = open(&bytes).unwrap();
    assert_eq!(d.streams().len(), 2);
    let got = drain(&mut d, &mut r);
    for s in 0..2u32 {
        let mine: Vec<&Vec<u8>> = got
            .iter()
            .filter(|p| p.stream_index == s)
            .map(|p| &p.data)
            .collect();
        let theirs: Vec<&Vec<u8>> = sent
            .iter()
            .filter(|p| p.stream_index == s)
            .map(|p| &p.data)
            .collect();
        assert_eq!(mine, theirs);
        let times: Vec<Option<i64>> = got
            .iter()
            .filter(|p| p.stream_index == s)
            .map(|p| p.pts)
            .collect();
        assert_eq!(times, (1..11i64).map(|i| Some(i * 960)).collect::<Vec<_>>());
    }
    assert_eq!(d.hole_count(), 0);
    assert!(got.iter().all(|p| (p.stream_index as usize) < d.streams().len()));
    let v = &d.streams()[0];
    assert_eq!(v.params.codec_id.as_str(), "vorbis");
    assert_eq!(
        xiph_unlace(&v.params.extradata).unwrap(),
        vec![vorbis_id_packet(), vorbis_comment_packet(), vorbis_setup_packet()]
    );
    let o = &d.streams()[1];
    assert_eq!(o.params.codec_id.as_str(), "opus");
    assert_eq!(o.params.extradata, opus_head_packet(312));
    assert_eq!(o.time_base, TimeBase::new(1, 48_000));
}

#[test]
fn a_lost_page_is_one_hole_and_splices_nothing() {
    let (bytes, _) = two_streams();
    let mut pages = Vec::new();
    let mut at = 0;
    while at < bytes.len() {
        let (p, used) = Page::parse(&bytes[at..]).unwrap();
        pages.push((p, at, used));
        at += used;
    }
    let whole = {
        let (mut d, mut r) = open(&bytes).unwrap();
        drain(&mut d, &mut r)
    };
    let lost = pages
        .iter()
        .position(|(p, _, _)| p.is_continued())
        .unwrap();
    let (_, from, used) = &pages[lost];
    let mut cut = bytes[..*from].to_vec();
    cut.extend_from_slice(&bytes[from + used..]);
    let (mut d, mut r) = open(&cut).unwrap();
    let got = drain(&mut d, &mut r);
    assert_eq!(d.hole_count(), 1);
    assert!(got.len() < whole.len());
    for p in &got {
        assert!(whole.iter().any(|q| q.stream_index == p.stream_index && q.data == p.data));
    }
}

#[test]
fn broken_input_is_told() {
    assert_eq!(open(&[]).err(), Some(Error::InvalidData(Fault::NoStreams)));
    let (bytes, _) = two_streams();
    assert_eq!(
        open(&bytes[..10]).err(),
        Some(Error::InvalidData(Fault::TruncatedRead { got: 10, want: 27 }))
    );
    let mut lost = bytes.clone();
    lost[0] = b'X';
    assert_eq!(open(&lost).err(), Some(Error::InvalidData(Fault::LostSync)));
    let mut damaged = bytes.clone();
    damaged[40] ^= 1;
    assert!(matches!(
        open(&damaged).err(),
        Some(Error::InvalidData(Fault::PageChecksum { .. }))
    ));
    let empty = Page {
        flags: flags::FIRST_PAGE,
        granule_position: 0,
        serial: 1,
        seq_no: 0,
        lacing: Vec::new(),
        data: Vec::new(),
    };
    assert_eq!(
        open(&empty.to_bytes()).err(),
        Some(Error::InvalidData(Fault::OpeningWithoutPacket))
    );
}

#[test]
fn parameters_are_read_from_the_first_packet() {
    let v = guess_params(&CodecId::new("vorbis"), &vorbis_id_packet()).unwrap();
    assert_eq!(v.channels, Some(2));
    assert_eq!(v.sample_rate, Some(48_000));
    assert_eq!(v.bit_rate, Some(128_000));
    assert_eq!(v.media_type, MediaType::Audio);
    assert_eq!(
        guess_params(&CodecId::new("vorbis"), &vorbis_id_packet()[..29]).err(),
        Some(Error::InvalidData(Fault::VorbisIdLength))
    );
    let mut versioned = vorbis_id_packet();
    versioned[7] = 1;
    assert_eq!(
        guess_params(&CodecId::new("vorbis"), &versioned).err(),
        Some(Error::Unsupported(Fault::VorbisVersion { version: 1 }))
    );
    let mut silent = vorbis_id_packet();
    silent[11] = 0;
    assert_eq!(
        guess_params(&CodecId::new("vorbis"), &silent).err(),
        Some(Error::InvalidData(Fault::VorbisIdZero))
    );
    let o = guess_params(&CodecId::new("opus"), &opus_head_packet(0)).unwrap();
    assert_eq!(o.channels, Some(2));
    assert_eq!(o.sample_rate, Some(48_000));
    assert_eq!(
        guess_params(&CodecId::new("opus"), &opus_head_packet(0)[..18]).err(),
        Some(Error::InvalidData(Fault::OpusIdLength))
    );
    let t = guess_params(&CodecId::new("theora"), &theora_id_packet()).unwrap();
    assert_eq!(t.media_type, MediaType::Video);
    assert_eq!(stream_time_base(&CodecId::new("theora"), None), TimeBase::new(1, 1_000_000));
    assert_eq!(
        stream_time_base(&CodecId::new("vorbis"), Some(44_100)),
        TimeBase::new(1, 44_100)
    );
}

#[test]
fn private_data_is_what_the_headers_make() {
    let packets = vec![vorbis_id_packet(), vorbis_comment_packet(), vorbis_setup_packet()];
    let blob = build_codec_private(&CodecId::new("vorbis"), &packets);
    assert_eq!(xiph_unlace(&blob).unwrap(), packets);
    let packets = vec![opus_head_packet(7), opus_tags_packet()];
    assert_eq!(build_codec_private(&CodecId::new("opus"), &packets), opus_head_packet(7));
    assert!(build_codec_private(&CodecId::new("vorbis"), &Vec::new()).is_empty());
}

fn comment_block(vendor: &[u8], entries: &[&[u8]]) -> Vec<u8> {
    let mut b = Vec::new();
    b.extend_from_slice(&(vendor.len() as u32).to_le_bytes());
    b.extend_from_slice(vendor);
    b.extend_from_slice(&(entries.len() as u32).to_le_bytes());
    for e in entries {
        b.extend_from_slice(&(e.len() as u32).to_le_bytes());
        b.extend_from_slice(e);
    }
    b
}

#[test]
fn comments_are_read() {
    let block = comment_block(
        b"maker",
        &[b"TITLE= A song ", b"no separator", b"Artist=\xC3\xA9\xFF"],
    );
    let mut out = Vec::new();
    parse_vorbis_comment(&block, &mut out);
    assert_eq!(
        out,
        vec![
            ("vendor".to_string(), "maker".to_string()),
            ("title".to_string(), "A song".to_string()),
            ("artist".to_string(), "\u{E9}\u{FFFD}".to_string()),
        ]
    );
    let mut cut = Vec::new();
    parse_vorbis_comment(&block[..block.len() - 1], &mut cut);
    assert_eq!(cut.len(), 2);
}

#[test]
fn the_seek_index_keeps_its_order() {
    let mut x = SeekIndex::new();
    x.record(1, 300, 30);
    x.record(1, 100, 10);
    x.record(1, 200, 20);
    x.record(1, -1, 40);
    x.record(2, 50, 5);
    assert_eq!(x.len(), 4);
    assert_eq!(x.floor(1, 99), None);
    assert_eq!(x.floor(1, 100), Some((100, 10)));
    assert_eq!(x.floor(1, 250), Some((200, 20)));
    assert_eq!(x.floor(1, 1000), Some((300, 30)));
    assert_eq!(x.floor(3, 1000), None);
    assert_eq!(x.last_of(1), Some((300, 30)));
    assert_eq!(x.last_of(3), None);
}

/// Runs a scan over a file in memory.
fn scan(bytes: &[u8], start: u64, limit: u64, serial: u32) -> Option<(u64, i64)> {
    let mut s = PageScan::new(start, limit, serial);
    while let Some((offset, len)) = s.request() {
        s.answer(piece(bytes, offset, len));
    }
    match s.stage() {
        ScanStage::Found { offset, granule } => Some((offset, granule)),
        _ => None,
    }
}

#[test]
fn a_scan_finds_the_next_page() {
    let mut w = PageWriter::new(5);
    w.push_packet(&[1u8; 100], 10);
    w.flush_page();
    w.push_packet(&[2u8; 70_000], 20);
    w.flush_page();
    w.push_packet(&[3u8; 10], 30);
    let bytes = w.finish();
    let n = bytes.len() as u64;
    let first = Page::parse(&bytes).unwrap().1 as u64;
    assert_eq!(scan(&bytes, 0, n, 5), Some((0, 10)));
    let (at, granule) = scan(&bytes, 1, n, 5).unwrap();
    assert_eq!(granule, 20);
    assert!(at > first);
    assert_eq!(scan(&bytes, at + 1, n, 5).map(|f| f.1), Some(30));
    assert_eq!(scan(&bytes, 0, n, 6), None);
    assert_eq!(scan(&bytes, n, n, 5), None);
}

#[test]
fn a_bisection_comes_close() {
    let bytes = many_pages(400);
    let n = bytes.len() as u64;
    let serial = Page::parse(&bytes).unwrap().0.serial;
    for target in [0i64, 999, 1000, 1001, 123_456, 399_999, 400_000, 1_000_000] {
        let mut b = Bisect::new(target, n);
        let mut questions = 0;
        while let Some((start, end)) = b.request() {
            b = b.answer(scan(&bytes, start, end, serial));
            questions += 1;
            assert!(questions < 200);
        }
        let (_, granule) = b.landed.unwrap();
        assert!(granule <= target);
        let best = if target < 100_000 { 0 } else { (target / 1000).min(400) * 1000 };
        assert_eq!(granule, best);
    }
}

#[test]
fn seeks_land_with_and_without_an_index() {
    let bytes = many_pages(300);
    let n = bytes.len() as u64;
    let (mut d, mut r) = open(&bytes).unwrap();
    assert!(!d.index_is_built());
    assert_eq!(
        d.begin_seek(4, 0, n).err(),
        Some(Error::InvalidData(Fault::StreamRange { index: 4 }))
    );
    assert_eq!(
        d.begin_seek(0, 0, 0).err(),
        Some(Error::Unsupported(Fault::SeekEmpty))
    );
    let mut s = d.begin_seek(0, 150_500, n).unwrap();
    while let Some((offset, len)) = s.request() {
        s.answer(&mut d, piece(&bytes, offset, len));
    }
    let (offset, granule) = s.outcome().unwrap().unwrap();
    assert_eq!(granule, 150_000);
    r.at = offset as usize;
    let rest = drain(&mut d, &mut r);
    assert_eq!(rest[0].pts, Some(150_000));
    assert_eq!(rest.len(), 151);
    assert_eq!(d.hole_count(), 0);

    let mut build = IndexBuild::new(n);
    while let Some((offset, len)) = build.request() {
        build.answer(&mut d, piece(&bytes, offset, len));
    }
    assert_eq!(build.stage(), BuildStage::Done { complete: true });
    d.mark_index_built();
    assert!(d.seek_index_len() >= 300);
    let s = d.begin_seek(0, 77_001, n).unwrap();
    assert_eq!(s.request(), None);
    assert_eq!(s.outcome(), Some(Ok((d.index_floor(d.seek_target(0).unwrap(), 77_001).unwrap().1, 77_000))));
    let ends = d.stream_ends();
    assert_eq!(ends.len(), 1);
    assert_eq!(ends[0].granule, 300_000);
    assert_eq!(ends[0].time_base, TimeBase::new(1, 48_000));
}

#[test]
fn reading_on_behind_a_seek_has_no_holes_and_whole_packets() {
    let (bytes, _) = two_streams();
    let whole = {
        let (mut d, mut r) = open(&bytes).unwrap();
        drain(&mut d, &mut r)
    };
    let first = open(&bytes).unwrap().1.at;
    let mut starts = Vec::new();
    let mut at = 0;
    while at < bytes.len() {
        let (p, used) = Page::parse(&bytes[at..]).unwrap();
        if at >= first {
            starts.push((at, p.is_continued()));
        }
        at += used;
    }
    assert!(starts.iter().any(|(_, continued)| *continued));
    let of = |packets: &[Packet], s: u32| -> Vec<Vec<u8>> {
        packets.iter().filter(|p| p.stream_index == s).map(|p| p.data.clone()).collect()
    };
    let mut shorter = 0;
    for (stop, _) in &starts {
        for (land, _) in &starts {
            let (mut d, mut r) = open(&bytes).unwrap();
            while r.at < *stop {
                let (offset, data) = r.page().unwrap().unwrap();
                d.feed_page(offset, &data).unwrap();
                while d.next_ready().unwrap().is_some() {}
            }
            d.flush();
            r.at = *land;
            let got = drain(&mut d, &mut r);
            assert_eq!(d.hole_count(), 0);
            for s in 0..2u32 {
                assert!(of(&whole, s).ends_with(&of(&got, s)));
            }
            if got.len() < whole.len() {
                shorter += 1;
            }
        }
    }
    assert!(shorter > 0);
}

#[test]
fn a_continued_page_behind_a_flush_gives_no_tail() {
    let (bytes, _) = two_streams();
    let (mut d, mut r) = open(&bytes).unwrap();
    loop {
        let (_, data) = r.page().unwrap().unwrap();
        let (p, _) = Page::parse(&data).unwrap();
        if p.is_continued() {
            d.flush();
            d.feed_page(0, &data).unwrap();
            let mut got = 0;
            while d.next_ready().unwrap().is_some() {
                got += 1;
            }
            let ended = p.lacing.iter().filter(|v| **v < 255).count();
            assert!(ended > 0);
            assert_eq!(got, ended - 1);
            assert_eq!(d.hole_count(), 0);
            return;
        }
        d.feed_page(0, &data).unwrap();
        while d.next_ready().unwrap().is_some() {}
    }
}

#[test]
fn a_seek_without_pages_lands_nowhere() {
    let bytes = many_pages(3);
    let (mut d, _) = open(&bytes).unwrap();
    let blank = vec![0u8; 500_000];
    let mut s = d.begin_seek(0, -5, blank.len() as u64).unwrap();
    while let Some((offset, len)) = s.request() {
        s.answer(&mut d, piece(&blank, offset, len));
    }
    assert_eq!(
        s.outcome(),
        Some(Err(Error::Unsupported(Fault::SeekNoPage { index: 0 })))
    );
}

#[test]
fn codecs_without_timestamps_are_not_sought() {
    let mut w = PageWriter::new(1);
    w.push_packet(&theora_id_packet(), 0);
    w.flush_page();
    for _ in 0..2 {
        w.push_packet(&[0x81, 1, 2], 0);
    }
    let bytes = w.finish();
    let (d, _) = open(&bytes).unwrap();
    assert_eq!(
        d.seek_target(0),
        Err(Error::Unsupported(Fault::SeekCodec { index: 0 }))
    );
}

#[test]
fn chained_links_are_surveyed() {
    let mut m = open_concrete(0, &[vorbis(0)]);
    m.write_header().unwrap();
    m.write_packet(&packet(0, 48_000, vec![1; 50])).unwrap();
    m.begin_new_link(&[vorbis(0)]).unwrap();
    m.write_packet(&packet(0, 96_000, vec![2; 50])).unwrap();
    m.write_trailer();
    let bytes = m.take_output();
    let (mut d, _) = open(&bytes).unwrap();
    assert_eq!(d.streams().len(), 1);
    let mut build = IndexBuild::new(bytes.len() as u64);
    while let Some((offset, len)) = build.request() {
        build.answer(&mut d, piece(&bytes, offset, len));
    }
    assert_eq!(d.streams().len(), 2);
    let ends = d.stream_ends();
    assert_eq!(ends.len(), 2);
    let micros: Vec<(u32, i64)> = ends
        .iter()
        .map(|e| (e.link_index, e.granule * 1_000_000 / 48_000))
        .collect();
    assert_eq!(total_duration(&micros), 3_000_000);

    let (mut d, mut r) = open(&bytes).unwrap();
    let got = drain(&mut d, &mut r);
    assert_eq!(got.len(), 2);
    assert_eq!(got[0].stream_index, 0);
    assert_eq!(got[1].stream_index, 1);
    assert_eq!(got[1].data, vec![2; 50]);
}

#[test]
fn durations_are_measured() {
    assert_eq!(longest(&[]), 0);
    assert_eq!(longest(&[-5]), 0);
    assert_eq!(longest(&[3, 9, 4]), 9);
    assert_eq!(total_duration(&[]), 0);
    assert_eq!(total_duration(&[(0, 5), (0, 7), (1, 2), (1, 1)]), 9);
    assert_eq!(total_duration(&[(0, i64::MAX), (1, 5)]), i64::MAX);
    assert_eq!(tail_window(10), (0, 10));
    assert_eq!(tail_window(100_000), (34_464, 65_536));
    let (bytes, _) = two_streams();
    let found = last_granules(&bytes[bytes.len() / 2..]);
    assert!(found.len() > 0);
    let (d, _) = open(&bytes).unwrap();
    let ends = d.tail_ends(&bytes);
    assert_eq!(ends.len(), 2);
    assert_eq!(ends[0].granule, 9600);
    assert_eq!(ends[1].granule, 9600);
    assert!(d.tail_ends(&[]).is_empty());
}
