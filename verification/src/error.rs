//! The library's error type.
use vstd::prelude::*;

verus! {

/// Why an operation did not succeed.
#[derive(Clone, Debug, PartialEq, Eq)]
pub enum Error {
    /// The input breaks a rule of its format.
    InvalidData(Fault),
    /// The input is well formed but asks for something that is not covered.
    Unsupported(Fault),
    /// The input ends inside a unit: more bytes are needed.
    NeedMore,
    /// The end of the stream was reached.
    Eof,
    /// An operation was called at the wrong time.
    Other(Fault),
}

/// What exactly was wrong, with the values concerned.
#[derive(Clone, Debug, PartialEq, Eq)]
pub enum Fault {
    /// A page does not begin with `OggS`.
    CapturePattern,
    /// A page's structure version is not 0.
    PageVersion { version: u8 },
    /// A page's checksum field does not hold the checksum of the page.
    PageChecksum { stored: u32, computed: u32 },
    /// A page has more than 255 lacing values.
    TooManySegments { segments: usize },
    /// A page's body is not as long as its lacing values say.
    BodyLength { laced: usize, actual: usize },
    /// A page of another logical bitstream was fed to a packet assembler.
    SerialMismatch { page: u32, locked: u32 },
    /// A page's continued flag contradicts the state of packet assembly.
    Continuity { seq_no: u32, continued: bool, mid_packet: bool },
    /// A Theora identification header is shorter than 42 bytes.
    TheoraLength,
    /// A Theora identification header does not begin with its magic.
    TheoraMagic,
    /// A Theora bitstream version whose container mapping is not defined.
    TheoraVersion { vmaj: u8, vmin: u8, vrev: u8 },
    /// A Theora frame without macro blocks.
    TheoraFrameSize,
    /// A Theora frame rate of zero or over zero.
    TheoraFrameRate,
    /// A frame whose keyframe lies behind it, or a negative index.
    GranulePair { frame_index: i64, keyframe_index: i64 },
    /// More frames since the keyframe than the offset half can hold.
    GranuleOffset { offset: i64, max_offset: i64 },
    /// The offset half leaves no room for the keyframe half.
    GranuleShift,
    /// The keyframe index does not fit the keyframe half.
    GranuleKeyframe,
    /// A `fishead` packet shorter than its 3.0 layout.
    FisheadLength { len: usize },
    /// A packet that does not begin with the `fishead` magic.
    FisheadMagic,
    /// A 4.0 `fishead` packet shorter than its layout.
    FisheadLength4 { len: usize },
    /// A `fisbone` packet shorter than its fixed part.
    FisboneLength { len: usize },
    /// A packet that does not begin with the `fisbone` magic.
    FisboneMagic,
    /// A message-header offset outside the packet or inside its fixed part.
    FisboneOffset { offset: u32 },
    /// An `index` packet shorter than its fixed part.
    IndexLength { len: usize },
    /// A packet that does not begin with the `index` magic.
    IndexMagic,
    /// An `index` packet that ends inside the offset of a keypoint.
    IndexOffset,
    /// An `index` packet that ends inside the timestamp of a keypoint.
    IndexTimestamp,
    /// A keypoint offset beyond 64 bits.
    IndexOffsetRange,
    /// An altitude that is not an integer of 64 bits.
    Altitude,
    /// A display hint without an opening bracket.
    HintOpening,
    /// A display hint that does not end with a closing bracket.
    HintClosing,
    /// A display hint without a tag.
    HintTag,
    /// A `pip` hint with a number of arguments other than 2 and 4.
    HintPipArguments { count: usize },
    /// A `mask` hint with a number of arguments other than 1, 3 and 5.
    HintMaskArguments { count: usize },
    /// A `transparent` hint with a number of arguments other than 1.
    HintTransparentArguments { count: usize },
    /// A percentage that is not a number.
    HintPercent,
    /// A pixel position that is not an integer of 32 bits.
    HintPixels,
    /// A transparency that is not an unsigned integer of 32 bits.
    HintTransparency,
    /// A transparency beyond 100 percent.
    HintTransparencyRange { percent: u32 },
    /// A content type without a value.
    ContentTypeEmpty,
    /// A content type without a slash.
    ContentTypeSlash,
    /// A content type with nothing before the slash.
    ContentTypeType,
    /// A content type with nothing behind the slash.
    ContentTypeSubtype,
    /// A Vorbis identification header shorter than 30 bytes.
    VorbisIdLength,
    /// A Vorbis version other than 0.
    VorbisVersion { version: u32 },
    /// A Vorbis identification header without channels or with no rate.
    VorbisIdZero,
    /// An Opus identification header shorter than 19 bytes.
    OpusIdLength,
    /// A page that opens a logical bitstream without a packet.
    OpeningWithoutPacket,
    /// A physical stream without logical bitstreams.
    NoStreams,
    /// Something else where a page should begin.
    LostSync,
    /// A header that ends early.
    TruncatedRead { got: usize, want: usize },
    /// A stream number that is not in use.
    StreamRange { index: u32 },
    /// A stream that no logical bitstream belongs to.
    StreamWithoutSerial { index: u32 },
    /// A codec whose granule positions cannot be sought.
    SeekCodec { index: u32 },
    /// Seeking in nothing.
    SeekEmpty,
    /// No page to seek to.
    SeekNoPage { index: u32 },
    /// A packet for a stream that is not being written.
    UnknownStream { index: u32 },
    /// The headers were written before.
    HeaderTwice,
    /// The headers were not written yet.
    HeaderMissing,
    /// A link was begun before the headers were written.
    LinkBeforeHeader,
    /// A link was begun behind the end of the stream.
    LinkAfterTrailer,
    /// A link was begun in a stream with a Skeleton.
    LinkWithSkeleton,
    /// A link was begun where the link before it has no content.
    LinkWithoutContent,
    /// A link was begun without streams.
    LinkWithoutStreams,
    /// A limit of keypoints outside its range.
    IndexKeypoints { max_keypoints: usize },
    /// A keyframe index in a stream whose `fishead` is older than 4.0.
    IndexVersion,
    /// A keyframe index of a stream whose time base is not positive.
    IndexTimeBase { index: u32 },
}

} // verus!
