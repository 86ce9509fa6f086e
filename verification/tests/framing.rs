//! Packets and pages.
use oxideav_ogg::error::Error;
use oxideav_ogg::framing::{pages_to_packets, parse_pages, PacketAssembler, PageWriter};
use oxideav_ogg::page::{flags, Page};



fn writer_roundtrip(packets: &[(Vec<u8>, i64)]) -> (Vec<Page>, Vec<Vec<u8>>) {
    let mut w = PageWriter::new(0xDEAD_BEEF);
    for (p, g) in packets {
        w.push_packet(p, *g);
    }
    let bytes = w.finish();
    let pages = parse_pages(&bytes).unwrap();
    let got = pages_to_packets(&bytes).unwrap();
    (pages, got)
}

#[test]
fn writer_roundtrips_simple_packets() {
    let packets: Vec<(Vec<u8>, i64)> = vec![
        (vec![1u8; 30], 0),
        (vec![2u8; 300], 128),
        (vec![3u8; 1], 256),
    ];
    let (pages, got) = writer_roundtrip(&packets);
    assert_eq!(
        got,
        packets.iter().map(|(p, _)| p.clone()).collect::<Vec<_>>()
    );
    assert!(pages[0].is_first());
    assert!(pages.last().unwrap().is_last());
    assert_eq!(pages.last().unwrap().granule_position, 256);
}

#[test]
fn exact_255_multiple_packet_gets_zero_lacing_terminator() {
    let (pages, got) = writer_roundtrip(&[(vec![9u8; 510], 42)]);
    assert_eq!(got, vec![vec![9u8; 510]]);
    let all_lacing: Vec<u8> = pages.iter().flat_map(|p| p.lacing.clone()).collect();
    assert_eq!(all_lacing, vec![255, 255, 0]);
}

#[test]
fn zero_length_packet_is_a_single_zero_lacing() {
    let (pages, got) = writer_roundtrip(&[(Vec::new(), 5), (vec![1u8; 4], 6)]);
    assert_eq!(got, vec![Vec::new(), vec![1u8; 4]]);
    assert_eq!(pages[0].lacing[0], 0);
}

#[test]
fn oversize_packet_spans_pages_with_continued_flag_and_minus_one_granule() {
    let (pages, got) = writer_roundtrip(&[(vec![7u8; 70_000], 99)]);
    assert_eq!(got, vec![vec![7u8; 70_000]]);
    assert!(pages.len() >= 2);
    assert!(!pages[0].is_continued());
    assert!(pages[1].is_continued(), "page 1 must continue the packet");
    assert_eq!(
        pages[0].granule_position, -1,
        "no packet completes on page 0"
    );
    assert_eq!(pages.last().unwrap().granule_position, 99);
    for (i, p) in pages.iter().enumerate() {
        assert_eq!(p.seq_no, i as u32);
    }
}

#[test]
fn flush_page_forces_a_boundary() {
    let mut w = PageWriter::new(1);
    w.push_packet(&[1u8; 10], 0);
    w.flush_page();
    w.push_packet(&[2u8; 10], 1);
    let bytes = w.finish();
    let pages = parse_pages(&bytes).unwrap();
    assert_eq!(pages.len(), 2);
    assert_eq!(pages[0].lacing, vec![10]);
    assert_eq!(pages[1].lacing, vec![10]);
    assert!(!pages[1].is_continued());
}

#[test]
fn finish_patches_eos_onto_an_already_flushed_final_page() {
    let mut w = PageWriter::new(1);
    w.push_packet(&[1u8; 10], 7);
    w.flush_page();
    let bytes = w.finish();
    let pages = parse_pages(&bytes).unwrap();
    assert_eq!(pages.len(), 1);
    assert!(pages[0].is_last(), "EOS must be patched in place");
    assert_eq!(pages[0].granule_position, 7);
}

#[test]
fn empty_writer_finish_produces_no_pages() {
    let w = PageWriter::new(1);
    assert!(w.finish().is_empty());
}

#[test]
fn page_target_keeps_pages_in_the_rfc_band() {
    let mut w = PageWriter::new(7).with_page_target(4096);
    for i in 0..100i64 {
        w.push_packet(&[i as u8; 600], (i + 1) * 512);
    }
    let bytes = w.finish();
    let pages = parse_pages(&bytes).unwrap();
    assert!(pages.len() > 10, "target must split the stream");
    let mut done = 0usize;
    for (i, page) in pages.iter().enumerate() {
        if i + 1 < pages.len() {
            assert!(
                (4096..4096 + 600).contains(&page.data.len()),
                "page {i} body {} outside the target band",
                page.data.len()
            );
        }
        done += page.lacing.iter().filter(|&&l| l < 255).count();
        assert_eq!(page.granule_position, done as i64 * 512);
    }
    assert_eq!(pages_to_packets(&bytes).unwrap().len(), 100);

    let mut w = PageWriter::new(7);
    for i in 0..100i64 {
        w.push_packet(&[i as u8; 600], (i + 1) * 512);
    }
    let pages = parse_pages(&w.finish()).unwrap();
    assert!(pages.iter().any(|p| p.data.len() > 8192));
}

#[test]
fn pending_body_len_tracks_the_open_page() {
    let mut w = PageWriter::new(1);
    assert_eq!(w.pending_body_len(), 0);
    w.push_packet(&[0u8; 100], 1);
    assert_eq!(w.pending_body_len(), 100);
    w.flush_page();
    assert_eq!(w.pending_body_len(), 0);
    assert_eq!(w.pages_emitted(), 1);
}

#[test]
fn assembler_rejects_serial_switch_and_broken_continuity() {
    let page_a = Page {
        flags: flags::FIRST_PAGE,
        granule_position: 0,
        serial: 1,
        seq_no: 0,
        lacing: vec![255],
        data: vec![0; 255],
    };
    let mut joiner = PacketAssembler::new();
    assert!(joiner.push_page(&page_a).unwrap().is_empty());
    assert!(joiner.mid_packet());
    assert_eq!(joiner.serial(), Some(1));

    let mut other = page_a.clone();
    other.serial = 2;
    assert!(matches!(joiner.push_page(&other), Err(Error::InvalidData(_))));

    let mut fresh = page_a.clone();
    fresh.seq_no = 1;
    fresh.lacing = vec![3];
    fresh.data = vec![0; 3];
    assert!(matches!(joiner.push_page(&fresh), Err(Error::InvalidData(_))));

    joiner.reset();
    assert_eq!(joiner.serial(), None);
    assert!(!joiner.mid_packet());
    assert!(joiner.push_page(&other).is_ok());
}

#[test]
fn pages_to_packets_rejects_grouped_streams() {
    let mut w1 = PageWriter::new(1);
    w1.push_packet(&[1u8; 4], 0);
    let mut w2 = PageWriter::new(2);
    w2.push_packet(&[2u8; 4], 0);
    let mut interleaved = w1.finish();
    interleaved.extend_from_slice(&w2.finish());
    assert!(pages_to_packets(&interleaved).is_err());
    let pages = parse_pages(&interleaved).unwrap();
    let mut a1 = PacketAssembler::new();
    let mut a2 = PacketAssembler::new();
    let mut got1 = Vec::new();
    let mut got2 = Vec::new();
    for p in &pages {
        match p.serial {
            1 => got1.extend(a1.push_page(p).unwrap()),
            2 => got2.extend(a2.push_page(p).unwrap()),
            _ => unreachable!(),
        }
    }
    assert_eq!(got1, vec![vec![1u8; 4]]);
    assert_eq!(got2, vec![vec![2u8; 4]]);
}

#[test]
fn parse_pages_surfaces_truncation() {
    let mut w = PageWriter::new(1);
    w.push_packet(&[1u8; 40], 0);
    let bytes = w.finish();
    assert!(matches!(
        parse_pages(&bytes[..bytes.len() - 1]),
        Err(Error::NeedMore)
    ));
}
