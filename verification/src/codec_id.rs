//! The codec of a logical bitstream, recognised by its first packet.
use crate::bytes;
use crate::bytes::{matches_at, read_u16_be};
use crate::text::owned;
use vstd::prelude::*;

verus! {

/// The name of a codec.
#[derive(Clone, Debug, PartialEq, Eq, Hash)]
pub struct CodecId {
    name: String,
}

impl View for CodecId {
    type V = Seq<char>;

    closed spec fn view(&self) -> Seq<char> {
        self.name@
    }
}

impl CodecId {
    /// The codec of the given name.
    pub fn new(name: &str) -> (id: CodecId)
        ensures
            id@ == name@,
    {
        CodecId { name: owned(name) }
    }

    /// The codec's name.
    pub fn as_str(&self) -> (name: &str)
        ensures
            name@ == self@,
    {
        self.name.as_str()
    }

    /// Whether this is the codec of the given name.
    pub fn is(&self, name: &str) -> (r: bool)
        ensures
            r == (self@ == name@),
    {
        self.name.eq(&owned(name))
    }

    /// The same codec once more.
    pub fn copied(&self) -> (id: CodecId)
        ensures
            id@ == self@,
    {
        CodecId { name: self.name.clone() }
    }
}

/// `vorbis`
pub const VORBIS: [u8; 6] = [0x76, 0x6F, 0x72, 0x62, 0x69, 0x73];

/// `OpusHead`
pub const OPUS_HEAD: [u8; 8] = [0x4F, 0x70, 0x75, 0x73, 0x48, 0x65, 0x61, 0x64];

/// `FLAC`
pub const FLAC: [u8; 4] = [0x46, 0x4C, 0x41, 0x43];

/// `theora`
pub const THEORA: [u8; 6] = [0x74, 0x68, 0x65, 0x6F, 0x72, 0x61];

/// `Speex` and three spaces
pub const SPEEX: [u8; 8] = [0x53, 0x70, 0x65, 0x65, 0x78, 0x20, 0x20, 0x20];

/// Whether `p` begins with the byte `kind` and then `magic`.
pub open spec fn tagged(p: Seq<u8>, kind: u8, magic: Seq<u8>) -> bool {
    p.len() > 0 && p[0] == kind && bytes::holds_at(p, 1, magic)
}

/// Whether `p` begins with the byte `kind` and then `magic`.
pub fn is_tagged(p: &[u8], kind: u8, magic: &[u8]) -> (r: bool)
    ensures
        r == tagged(p@, kind, magic@),
{
    p.len() > 0 && p[0] == kind && matches_at(p, 1, magic)
}

/// The name of the codec whose stream begins with the packet `p`.
pub open spec fn codec_of(p: Seq<u8>) -> Seq<char> {
    if tagged(p, 0x01, VORBIS@) {
        "vorbis"@
    } else if bytes::holds_at(p, 0, OPUS_HEAD@) {
        "opus"@
    } else if tagged(p, 0x7F, FLAC@) {
        "flac"@
    } else if tagged(p, 0x80, THEORA@) {
        "theora"@
    } else if bytes::holds_at(p, 0, SPEEX@) {
        "speex"@
    } else {
        "unknown"@
    }
}

/// Identifies the codec of a logical bitstream by its first packet.
pub fn detect(first_packet: &[u8]) -> (id: CodecId)
    ensures
        id@ == codec_of(first_packet@),
{
    if is_tagged(first_packet, 0x01, &VORBIS) {
        return CodecId::new("vorbis");
    }
    if matches_at(first_packet, 0, &OPUS_HEAD) {
        return CodecId::new("opus");
    }
    if is_tagged(first_packet, 0x7F, &FLAC) {
        return CodecId::new("flac");
    }
    if is_tagged(first_packet, 0x80, &THEORA) {
        return CodecId::new("theora");
    }
    if matches_at(first_packet, 0, &SPEEX) {
        return CodecId::new("speex");
    }
    CodecId::new("unknown")
}

/// Number of header packets that a codec has before its data.
pub open spec fn header_count(codec: Seq<char>) -> nat {
    if codec == "vorbis"@ || codec == "theora"@ {
        3
    } else if codec == "opus"@ || codec == "speex"@ {
        2
    } else if codec == "flac"@ {
        1
    } else {
        0
    }
}

/// Number of header packets that a codec has before its data. For FLAC, where
/// the count stands in the first packet, a conservative 1.
pub fn header_packet_count(id: &CodecId) -> (n: usize)
    ensures
        n == header_count(id@),
{
    if id.is("vorbis") || id.is("theora") {
        3
    } else if id.is("opus") || id.is("speex") {
        2
    } else if id.is("flac") {
        1
    } else {
        0
    }
}

/// Number of header packets, taken from the stream's first packet where the
/// codec declares it there. Only FLAC does: bytes 7 and 8 hold the number of
/// header packets behind the first, 0 where it is unknown.
pub fn header_packet_count_from_first(id: &CodecId, first: &[u8]) -> (n: usize)
    ensures
        n == (if id@ != "flac"@ {
            header_count(id@)
        } else if first@.len() >= 9 {
            1 + bytes::be_u16(first@.skip(7)) as nat
        } else {
            1
        }),
{
    proof {
        reveal_strlit("flac");
        reveal_strlit("vorbis");
        reveal_strlit("theora");
        reveal_strlit("opus");
        reveal_strlit("speex");
    }
    if id.is("flac") {
        if first.len() >= 9 {
            let declared: usize = read_u16_be(first, 7) as usize;
            if declared > 0 {
                return 1 + declared;
            }
        }
        return 1;
    }
    header_packet_count(id)
}

} // verus!
