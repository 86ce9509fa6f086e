//! Theora identification headers and granule positions.
use oxideav_ogg::theora::{TheoraIdHeader, ID_HEADER_LEN};



fn id_header(vrev: u8, kfgshift: u8, frn: u32, frd: u32) -> TheoraIdHeader {
    TheoraIdHeader {
        vmaj: 3,
        vmin: 2,
        vrev,
        fmbw: 20,
        fmbh: 15,
        picw: 320,
        pich: 240,
        picx: 0,
        picy: 0,
        frn,
        frd,
        parn: 0,
        pard: 0,
        cs: 0,
        nombr: 0,
        qual: 32,
        kfgshift,
        pf: 0,
    }
}

#[test]
fn id_header_round_trips() {
    let h = TheoraIdHeader {
        vmaj: 3,
        vmin: 2,
        vrev: 1,
        fmbw: 120,
        fmbh: 68,
        picw: 1920,
        pich: 1080,
        picx: 0,
        picy: 8,
        frn: 30_000,
        frd: 1001,
        parn: 1,
        pard: 1,
        cs: 1,
        nombr: 2_000_000,
        qual: 63,
        kfgshift: 31,
        pf: 3,
    };
    let bytes = h.to_bytes();
    assert_eq!(bytes.len(), ID_HEADER_LEN);
    assert_eq!(TheoraIdHeader::parse(&bytes).unwrap(), h);
}

#[test]
fn parse_rejects_bad_magic_version_and_zero_fields() {
    let good = id_header(1, 6, 30, 1).to_bytes();
    assert!(TheoraIdHeader::parse(&good).is_ok());
    assert!(TheoraIdHeader::parse(&good[..41]).is_err());
    let mut bad = good.clone();
    bad[1] = b'T';
    assert!(TheoraIdHeader::parse(&bad).is_err());
    let mut bad = good.clone();
    bad[7] = 2;
    assert!(TheoraIdHeader::parse(&bad).is_err());
    let mut bad = good.clone();
    bad[8] = 3;
    assert!(TheoraIdHeader::parse(&bad).is_err());
    let mut bad = good.clone();
    bad[10] = 0;
    bad[11] = 0;
    assert!(TheoraIdHeader::parse(&bad).is_err());
    let mut bad = good.clone();
    bad[26..30].fill(0);
    assert!(TheoraIdHeader::parse(&bad).is_err());
}

#[test]
fn spec_a23_stream_start_sequence_vrev1() {
    let g = id_header(1, 6, 30, 1).granule();
    assert_eq!(g.pack(0, 0).unwrap(), 1 << 6);
    assert_eq!(g.pack(1, 0).unwrap(), (1 << 6) | 1);
    assert_eq!(g.pack(2, 0).unwrap(), (1 << 6) | 2);
    assert_eq!(g.pack(3, 0).unwrap(), (1 << 6) | 3);
    assert_eq!(g.frame_index(1 << 6), Some(0));
    assert_eq!(g.frame_index((1 << 6) | 3), Some(3));
    assert!(g.is_keyframe(1 << 6));
    assert!(!g.is_keyframe((1 << 6) | 3));
    assert_eq!(g.keyframe_index((1 << 6) | 3), Some(0));
    assert_eq!(g.frame_index(0), None);
    assert_eq!(g.frame_index(-1), None);
}

#[test]
fn spec_a23_mid_stream_keyframe_vrev1() {
    let g = id_header(1, 6, 30, 1).granule();
    let inter = (1234 << 6) | 37;
    assert_eq!(g.frame_index(inter), Some(1270));
    assert_eq!(g.keyframe_index(inter), Some(1233));
    assert!(!g.is_keyframe(inter));
    let kf = g.pack(1271, 1271).unwrap();
    assert_eq!(kf, 1272 << 6);
    assert!(g.is_keyframe(kf));
    assert!(kf > inter, "granule positions increase monotonically");
    assert_eq!(g.frame_index(kf), Some(1271));
}

#[test]
fn vrev0_streams_index_from_zero() {
    let g = id_header(0, 6, 30, 1).granule();
    assert_eq!(g.pack(0, 0).unwrap(), 0);
    assert_eq!(g.pack(5, 0).unwrap(), 5);
    assert_eq!(g.pack(64, 64).unwrap(), 64 << 6);
    assert_eq!(g.frame_index(0), Some(0));
    assert_eq!(g.frame_index((64 << 6) | 3), Some(67));
    assert_eq!(g.keyframe_index((64 << 6) | 3), Some(64));
    assert!(g.is_keyframe(64 << 6));
}

#[test]
fn pack_rejects_offset_overflow_and_bad_pairs() {
    let g = id_header(1, 4, 30, 1).granule();
    assert_eq!(g.max_offset(), 15);
    assert!(g.pack(15, 0).is_ok());
    assert!(g.pack(16, 0).is_err(), "offset 16 overflows 4 bits");
    assert!(g.pack(3, 5).is_err(), "keyframe after frame");
    assert!(g.pack(-1, -1).is_err());
}

#[test]
fn pack_and_unpack_are_inverse_across_versions() {
    for vrev in [0u8, 1, 2] {
        for shift in [1u8, 6, 15, 31] {
            let g = id_header(vrev, shift, 25, 1).granule();
            for (n, k) in [(0i64, 0i64), (1, 0), (100, 99), (5000, 5000)] {
                if n - k > g.max_offset() {
                    continue;
                }
                let gr = g.pack(n, k).unwrap();
                assert_eq!(g.frame_index(gr), Some(n), "vrev={vrev} shift={shift}");
                assert_eq!(g.keyframe_index(gr), Some(k));
                assert_eq!(g.is_keyframe(gr), n == k);
            }
        }
    }
}

#[test]
fn granule_values_monotonic_in_frame_index() {
    let g = id_header(1, 6, 30, 1).granule();
    let mut prev = -1i64;
    let mut kf = 0i64;
    for n in 0..200i64 {
        if n % 45 == 0 {
            kf = n;
        }
        let gr = g.pack(n, kf).unwrap();
        assert!(gr > prev, "frame {n}: granule {gr} <= previous {prev}");
        prev = gr;
    }
}
