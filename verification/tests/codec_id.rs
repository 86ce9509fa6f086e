//! Telling codecs apart.
use oxideav_ogg::codec_id::{
    detect, header_packet_count, header_packet_count_from_first, CodecId,
};



#[test]
fn flac_header_count_reads_mapping_field() {
    let mut first = vec![0x7F];
    first.extend_from_slice(b"FLAC");
    first.extend_from_slice(&[0x01, 0x00]);
    first.extend_from_slice(&2u16.to_be_bytes());
    first.extend_from_slice(b"fLaC");
    let id = CodecId::new("flac");
    assert_eq!(header_packet_count_from_first(&id, &first), 3);
}

#[test]
fn flac_unknown_count_falls_back_to_one() {
    let mut first = vec![0x7F];
    first.extend_from_slice(b"FLAC");
    first.extend_from_slice(&[0x01, 0x00]);
    first.extend_from_slice(&0u16.to_be_bytes());
    let id = CodecId::new("flac");
    assert_eq!(header_packet_count_from_first(&id, &first), 1);
}

#[test]
fn flac_short_packet_falls_back_to_one() {
    let id = CodecId::new("flac");
    assert_eq!(header_packet_count_from_first(&id, b"\x7FFLAC"), 1);
}

#[test]
fn non_flac_ignores_first_packet() {
    let id = CodecId::new("vorbis");
    assert_eq!(header_packet_count_from_first(&id, &[]), 3);
    let id = CodecId::new("opus");
    assert_eq!(header_packet_count_from_first(&id, &[]), 2);
}
