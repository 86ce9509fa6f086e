//! Every way in which an input is refused.
use oxideav_ogg::error::{Error, Fault};
use oxideav_ogg::framing::PacketAssembler;
use oxideav_ogg::page::{flags, Page};
use oxideav_ogg::skeleton::{
    ContentType, DisplayHint, FisBone, FisHead, Rational, SkelIndex, Version,
};
use oxideav_ogg::theora::{TheoraGranule, TheoraIdHeader};

fn page(serial: u32, marks: u8, lacing: Vec<u8>) -> Page {
    let len: usize = lacing.iter().map(|v| *v as usize).sum();
    Page {
        flags: marks,
        granule_position: 0,
        serial,
        seq_no: 0,
        lacing,
        data: vec![1u8; len],
    }
}

#[test]
fn pages_that_cannot_be_read() {
    let good = page(1, flags::FIRST_PAGE, vec![3]).to_bytes();
    assert_eq!(Page::parse(&good[..26]).err(), Some(Error::NeedMore));
    assert_eq!(Page::parse(&good[..good.len() - 1]).err(), Some(Error::NeedMore));
    let mut bad = good.clone();
    bad[0] = b'o';
    assert_eq!(Page::parse(&bad).err(), Some(Error::InvalidData(Fault::CapturePattern)));
    let mut bad = good.clone();
    bad[4] = 7;
    assert_eq!(
        Page::parse(&bad).err(),
        Some(Error::Unsupported(Fault::PageVersion { version: 7 }))
    );
    let mut bad = good.clone();
    let last = bad.len() - 1;
    bad[last] ^= 1;
    assert!(matches!(
        Page::parse(&bad),
        Err(Error::InvalidData(Fault::PageChecksum { .. }))
    ));
}

#[test]
fn pages_that_cannot_be_written() {
    let mut p = page(1, 0, vec![3]);
    assert!(p.try_to_bytes().is_ok());
    p.data.push(0);
    assert_eq!(
        p.try_to_bytes(),
        Err(Error::InvalidData(Fault::BodyLength { laced: 3, actual: 4 }))
    );
    let p = page(1, 0, vec![0; 256]);
    assert_eq!(
        p.try_to_bytes(),
        Err(Error::InvalidData(Fault::TooManySegments { segments: 256 }))
    );
}

#[test]
fn pages_that_an_assembler_refuses() {
    let mut a = PacketAssembler::new();
    assert_eq!(a.push_page(&page(1, flags::FIRST_PAGE, vec![3])), Ok(vec![vec![1u8; 3]]));
    assert_eq!(
        a.push_page(&page(2, 0, vec![3])),
        Err(Error::InvalidData(Fault::SerialMismatch { page: 2, locked: 1 }))
    );
    assert_eq!(
        a.push_page(&page(1, flags::CONTINUED, vec![3])),
        Err(Error::InvalidData(Fault::Continuity {
            seq_no: 0,
            continued: true,
            mid_packet: false,
        }))
    );
    assert_eq!(a.push_page(&page(1, 0, vec![255])), Ok(vec![]));
    assert!(a.mid_packet());
    assert_eq!(
        a.push_page(&page(1, 0, vec![3])),
        Err(Error::InvalidData(Fault::Continuity {
            seq_no: 0,
            continued: false,
            mid_packet: true,
        }))
    );
}

#[test]
fn theora_headers_that_are_refused() {
    let header = TheoraIdHeader {
        vmaj: 3,
        vmin: 2,
        vrev: 1,
        fmbw: 20,
        fmbh: 15,
        picw: 320,
        pich: 240,
        picx: 0,
        picy: 0,
        frn: 30,
        frd: 1,
        parn: 0,
        pard: 0,
        cs: 0,
        nombr: 0,
        qual: 32,
        kfgshift: 6,
        pf: 0,
    };
    let good = header.to_bytes();
    assert!(TheoraIdHeader::parse(&good).is_ok());
    assert_eq!(
        TheoraIdHeader::parse(&good[..41]),
        Err(Error::InvalidData(Fault::TheoraLength))
    );
    let mut bad = good.clone();
    bad[1] = b'T';
    assert_eq!(TheoraIdHeader::parse(&bad), Err(Error::InvalidData(Fault::TheoraMagic)));
    let mut bad = good.clone();
    bad[7] = 2;
    assert_eq!(
        TheoraIdHeader::parse(&bad),
        Err(Error::Unsupported(Fault::TheoraVersion { vmaj: 2, vmin: bad[8], vrev: bad[9] }))
    );
    let mut bad = good.clone();
    bad[10] = 0;
    bad[11] = 0;
    assert_eq!(TheoraIdHeader::parse(&bad), Err(Error::InvalidData(Fault::TheoraFrameSize)));
    let mut bad = good.clone();
    for b in &mut bad[22..26] {
        *b = 0;
    }
    assert_eq!(TheoraIdHeader::parse(&bad), Err(Error::InvalidData(Fault::TheoraFrameRate)));
}

#[test]
fn granules_that_cannot_be_packed() {
    let g = TheoraGranule { shift: 6, count_from_one: true };
    assert_eq!(g.pack(5, 3), Ok((4 << 6) + 2));
    assert_eq!(
        g.pack(2, 3),
        Err(Error::InvalidData(Fault::GranulePair { frame_index: 2, keyframe_index: 3 }))
    );
    assert_eq!(
        g.pack(2, -1),
        Err(Error::InvalidData(Fault::GranulePair { frame_index: 2, keyframe_index: -1 }))
    );
    assert_eq!(
        g.pack(64, 0),
        Err(Error::InvalidData(Fault::GranuleOffset { offset: 64, max_offset: 63 }))
    );
    assert_eq!(
        g.pack(i64::MAX >> 5, i64::MAX >> 5),
        Err(Error::InvalidData(Fault::GranuleKeyframe))
    );
    let wide = TheoraGranule { shift: 63, count_from_one: false };
    assert_eq!(wide.pack(0, 0), Err(Error::InvalidData(Fault::GranuleShift)));
}

#[test]
fn fisheads_that_are_refused() {
    let short = FisHead::new(Version { major: 3, minor: 0 }).to_bytes();
    let long = FisHead::new(Version { major: 4, minor: 0 }).to_bytes();
    assert_eq!(short.len(), 64);
    assert_eq!(long.len(), 80);
    assert_eq!(
        FisHead::parse(&short[..63]).err(),
        Some(Error::InvalidData(Fault::FisheadLength { len: 63 }))
    );
    assert_eq!(
        FisHead::parse(&long[..79]).err(),
        Some(Error::InvalidData(Fault::FisheadLength4 { len: 79 }))
    );
    let mut bad = short.clone();
    bad[0] = b'F';
    assert_eq!(FisHead::parse(&bad).err(), Some(Error::InvalidData(Fault::FisheadMagic)));
}

#[test]
fn fisbones_that_are_refused() {
    let good = FisBone::new(9, Rational::new(48_000, 1)).to_bytes();
    assert_eq!(
        FisBone::parse(&good[..51]).err(),
        Some(Error::InvalidData(Fault::FisboneLength { len: 51 }))
    );
    let mut bad = good.clone();
    bad[0] = b'F';
    assert_eq!(FisBone::parse(&bad).err(), Some(Error::InvalidData(Fault::FisboneMagic)));
    for offset in [0u32, 43, 1000] {
        let mut bad = good.clone();
        bad[8..12].copy_from_slice(&offset.to_le_bytes());
        assert_eq!(
            FisBone::parse(&bad).err(),
            Some(Error::InvalidData(Fault::FisboneOffset { offset }))
        );
    }
}

#[test]
fn indexes_that_are_refused() {
    let mut x = SkelIndex::new(9, 1000);
    x.push(300, 5);
    let good = x.to_bytes();
    assert_eq!(good.len(), 45);
    assert_eq!(
        SkelIndex::parse(&good[..41]).err(),
        Some(Error::InvalidData(Fault::IndexLength { len: 41 }))
    );
    let mut bad = good.clone();
    bad[0] = b'I';
    assert_eq!(SkelIndex::parse(&bad).err(), Some(Error::InvalidData(Fault::IndexMagic)));
    assert_eq!(
        SkelIndex::parse(&good[..43]).err(),
        Some(Error::InvalidData(Fault::IndexOffset))
    );
    assert_eq!(
        SkelIndex::parse(&good[..44]).err(),
        Some(Error::InvalidData(Fault::IndexTimestamp))
    );
    let mut far = SkelIndex::new(9, 1000);
    far.push(u64::MAX, 0);
    let mut bytes = far.to_bytes();
    bytes[10..18].copy_from_slice(&2u64.to_le_bytes());
    bytes.push(0x81);
    bytes.push(0x80);
    assert_eq!(
        SkelIndex::parse(&bytes).err(),
        Some(Error::InvalidData(Fault::IndexOffsetRange))
    );
}

#[test]
fn altitudes_that_are_refused() {
    let mut b = FisBone::new(9, Rational::new(48_000, 1));
    assert!(b.altitude().is_none());
    b.set_header("Altitude", " -12 ");
    assert_eq!(b.altitude(), Some(Ok(-12)));
    b.set_header("Altitude", "high");
    assert_eq!(b.altitude(), Some(Err(Error::InvalidData(Fault::Altitude))));
}

#[test]
fn display_hints_that_are_refused() {
    let cases: [(&str, Fault); 13] = [
        ("pip", Fault::HintOpening),
        ("pip(1,2", Fault::HintClosing),
        ("(1,2)", Fault::HintTag),
        ("pip(1)", Fault::HintPipArguments { count: 1 }),
        ("pip(1,2,3)", Fault::HintPipArguments { count: 3 }),
        ("mask(a,1)", Fault::HintMaskArguments { count: 2 }),
        ("transparent(1,2)", Fault::HintTransparentArguments { count: 2 }),
        ("pip(x%,2)", Fault::HintPercent),
        ("pip(x,2)", Fault::HintPixels),
        ("pip(2147483648,2)", Fault::HintPixels),
        ("transparent(-1%)", Fault::HintTransparency),
        ("transparent(101%)", Fault::HintTransparencyRange { percent: 101 }),
        ("transparent(x)", Fault::HintTransparency),
    ];
    for (raw, fault) in cases {
        assert_eq!(DisplayHint::parse(raw), Err(Error::InvalidData(fault)), "{}", raw);
    }
}

#[test]
fn content_types_that_are_refused() {
    let cases: [(&str, Fault); 4] = [
        ("  ", Fault::ContentTypeEmpty),
        ("audio", Fault::ContentTypeSlash),
        ("/ogg", Fault::ContentTypeType),
        ("audio/ ; a=b", Fault::ContentTypeSubtype),
    ];
    for (raw, fault) in cases {
        assert_eq!(ContentType::parse(raw).err(), Some(Error::InvalidData(fault)), "{}", raw);
    }
}
