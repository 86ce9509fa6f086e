//! The `Role` message header.
use crate::chars;
use crate::chars::{chars_eq, next_piece, to_chars, to_lower, to_text, trimmed};
use crate::skeleton::parameters;
use crate::skeleton::parameters::{parameter_value, read_parameters};
use vstd::prelude::*;

verus! {

/// The role of a track.
#[derive(Clone, Debug, PartialEq, Eq)]
pub enum RoleKind {
    /// Transcription of all sounds.
    TextCaption,
    /// Translation of speech.
    TextSubtitle,
    /// Description of everything that happens in the video.
    TextTextAudioDesc,
    /// Music lyrics in chunks for sing-along.
    TextKaraoke,
    /// Chapter titles.
    TextChapters,
    /// Text to scroll at the bottom of the display.
    TextTickerText,
    /// Transcript of song lyrics.
    TextLyrics,
    /// Name/value pairs associated with sections of the media.
    TextMetadata,
    /// Free text associated with sections of the media.
    TextAnnotation,
    /// Linguistic markup of spoken words.
    TextLinguistic,
    /// The main video track.
    VideoMain,
    /// An alternative video track.
    VideoAlternate,
    /// A sign-language video track.
    VideoSign,
    /// The main video with burnt-in captions.
    VideoCaptioned,
    /// The main video with burnt-in subtitles.
    VideoSubtitled,
    /// The main audio track.
    AudioMain,
    /// An alternative audio track.
    AudioAlternate,
    /// The audio track dubbed into another language.
    AudioDub,
    /// An audio description.
    AudioAudioDesc,
    /// The main audio mixed with audio descriptions.
    AudioDescribed,
    /// A music-only track.
    AudioMusic,
    /// A speech-only track.
    AudioSpeech,
    /// A sound-effects-only track.
    AudioSfx,
    /// Commentary on the main audio or video.
    AudioCommentary,
    /// Any other role, as written.
    Other(String),
}

/// The role whose tag, in small letters, is `tag`.
pub open spec fn known_role(tag: Seq<char>) -> Option<RoleKind> {
    if tag == "text/caption"@ {
        Some(RoleKind::TextCaption)
    } else if tag == "text/subtitle"@ {
        Some(RoleKind::TextSubtitle)
    } else if tag == "text/textaudiodesc"@ {
        Some(RoleKind::TextTextAudioDesc)
    } else if tag == "text/karaoke"@ {
        Some(RoleKind::TextKaraoke)
    } else if tag == "text/chapters"@ {
        Some(RoleKind::TextChapters)
    } else if tag == "text/tickertext"@ {
        Some(RoleKind::TextTickerText)
    } else if tag == "text/lyrics"@ {
        Some(RoleKind::TextLyrics)
    } else if tag == "text/metadata"@ {
        Some(RoleKind::TextMetadata)
    } else if tag == "text/annotation"@ {
        Some(RoleKind::TextAnnotation)
    } else if tag == "text/linguistic"@ {
        Some(RoleKind::TextLinguistic)
    } else if tag == "video/main"@ {
        Some(RoleKind::VideoMain)
    } else if tag == "video/alternate"@ {
        Some(RoleKind::VideoAlternate)
    } else if tag == "video/sign"@ {
        Some(RoleKind::VideoSign)
    } else if tag == "video/captioned"@ {
        Some(RoleKind::VideoCaptioned)
    } else if tag == "video/subtitled"@ {
        Some(RoleKind::VideoSubtitled)
    } else if tag == "audio/main"@ {
        Some(RoleKind::AudioMain)
    } else if tag == "audio/alternate"@ {
        Some(RoleKind::AudioAlternate)
    } else if tag == "audio/dub"@ {
        Some(RoleKind::AudioDub)
    } else if tag == "audio/audiodesc"@ {
        Some(RoleKind::AudioAudioDesc)
    } else if tag == "audio/described"@ {
        Some(RoleKind::AudioDescribed)
    } else if tag == "audio/music"@ {
        Some(RoleKind::AudioMusic)
    } else if tag == "audio/speech"@ {
        Some(RoleKind::AudioSpeech)
    } else if tag == "audio/sfx"@ {
        Some(RoleKind::AudioSfx)
    } else if tag == "audio/commentary"@ {
        Some(RoleKind::AudioCommentary)
    } else {
        None
    }
}

impl RoleKind {
    /// Whether this is the role that `tag` names: a known role whatever the
    /// case of its letters, any other tag as written.
    pub open spec fn named_by(self, tag: Seq<char>) -> bool {
        match known_role(chars::lower(tag)) {
            Some(kind) => self == kind,
            None => self matches RoleKind::Other(s) && s@ == tag,
        }
    }

    /// The tag of the role.
    pub open spec fn wire(self) -> Seq<char> {
        match self {
            RoleKind::TextCaption => "text/caption"@,
            RoleKind::TextSubtitle => "text/subtitle"@,
            RoleKind::TextTextAudioDesc => "text/textaudiodesc"@,
            RoleKind::TextKaraoke => "text/karaoke"@,
            RoleKind::TextChapters => "text/chapters"@,
            RoleKind::TextTickerText => "text/tickertext"@,
            RoleKind::TextLyrics => "text/lyrics"@,
            RoleKind::TextMetadata => "text/metadata"@,
            RoleKind::TextAnnotation => "text/annotation"@,
            RoleKind::TextLinguistic => "text/linguistic"@,
            RoleKind::VideoMain => "video/main"@,
            RoleKind::VideoAlternate => "video/alternate"@,
            RoleKind::VideoSign => "video/sign"@,
            RoleKind::VideoCaptioned => "video/captioned"@,
            RoleKind::VideoSubtitled => "video/subtitled"@,
            RoleKind::AudioMain => "audio/main"@,
            RoleKind::AudioAlternate => "audio/alternate"@,
            RoleKind::AudioDub => "audio/dub"@,
            RoleKind::AudioAudioDesc => "audio/audiodesc"@,
            RoleKind::AudioDescribed => "audio/described"@,
            RoleKind::AudioMusic => "audio/music"@,
            RoleKind::AudioSpeech => "audio/speech"@,
            RoleKind::AudioSfx => "audio/sfx"@,
            RoleKind::AudioCommentary => "audio/commentary"@,
            RoleKind::Other(s) => s@,
        }
    }

    /// The tag of the role; for any other role, the tag as written.
    pub fn as_wire(&self) -> (r: &str)
        ensures
            r@ == self.wire(),
    {
        match self {
            RoleKind::TextCaption => "text/caption",
            RoleKind::TextSubtitle => "text/subtitle",
            RoleKind::TextTextAudioDesc => "text/textaudiodesc",
            RoleKind::TextKaraoke => "text/karaoke",
            RoleKind::TextChapters => "text/chapters",
            RoleKind::TextTickerText => "text/tickertext",
            RoleKind::TextLyrics => "text/lyrics",
            RoleKind::TextMetadata => "text/metadata",
            RoleKind::TextAnnotation => "text/annotation",
            RoleKind::TextLinguistic => "text/linguistic",
            RoleKind::VideoMain => "video/main",
            RoleKind::VideoAlternate => "video/alternate",
            RoleKind::VideoSign => "video/sign",
            RoleKind::VideoCaptioned => "video/captioned",
            RoleKind::VideoSubtitled => "video/subtitled",
            RoleKind::AudioMain => "audio/main",
            RoleKind::AudioAlternate => "audio/alternate",
            RoleKind::AudioDub => "audio/dub",
            RoleKind::AudioAudioDesc => "audio/audiodesc",
            RoleKind::AudioDescribed => "audio/described",
            RoleKind::AudioMusic => "audio/music",
            RoleKind::AudioSpeech => "audio/speech",
            RoleKind::AudioSfx => "audio/sfx",
            RoleKind::AudioCommentary => "audio/commentary",
            RoleKind::Other(s) => s.as_str(),
        }
    }

    /// A role of a text track.
    pub open spec fn text_role(self) -> bool {
        self is TextCaption || self is TextSubtitle || self is TextTextAudioDesc || self
            is TextKaraoke || self is TextChapters || self is TextTickerText || self is TextLyrics
            || self is TextMetadata || self is TextAnnotation || self is TextLinguistic
    }

    /// A role of a video track.
    pub open spec fn video_role(self) -> bool {
        self is VideoMain || self is VideoAlternate || self is VideoSign || self is VideoCaptioned
            || self is VideoSubtitled
    }

    /// A role of an audio track.
    pub open spec fn audio_role(self) -> bool {
        self is AudioMain || self is AudioAlternate || self is AudioDub || self is AudioAudioDesc
            || self is AudioDescribed || self is AudioMusic || self is AudioSpeech || self
            is AudioSfx || self is AudioCommentary
    }

    /// Whether this is a known role of a text track.
    pub fn is_text(&self) -> (r: bool)
        ensures
            r == self.text_role(),
    {
        match self {
            RoleKind::TextCaption
            | RoleKind::TextSubtitle
            | RoleKind::TextTextAudioDesc
            | RoleKind::TextKaraoke
            | RoleKind::TextChapters
            | RoleKind::TextTickerText
            | RoleKind::TextLyrics
            | RoleKind::TextMetadata
            | RoleKind::TextAnnotation
            | RoleKind::TextLinguistic => true,
            _ => false,
        }
    }

    /// Whether this is a known role of a video track.
    pub fn is_video(&self) -> (r: bool)
        ensures
            r == self.video_role(),
    {
        match self {
            RoleKind::VideoMain
            | RoleKind::VideoAlternate
            | RoleKind::VideoSign
            | RoleKind::VideoCaptioned
            | RoleKind::VideoSubtitled => true,
            _ => false,
        }
    }

    /// Whether this is a known role of an audio track.
    pub fn is_audio(&self) -> (r: bool)
        ensures
            r == self.audio_role(),
    {
        match self {
            RoleKind::AudioMain
            | RoleKind::AudioAlternate
            | RoleKind::AudioDub
            | RoleKind::AudioAudioDesc
            | RoleKind::AudioDescribed
            | RoleKind::AudioMusic
            | RoleKind::AudioSpeech
            | RoleKind::AudioSfx
            | RoleKind::AudioCommentary => true,
            _ => false,
        }
    }

    /// The role that a tag names.
    fn from_tag(tag: &[char]) -> (r: RoleKind)
        ensures
            r.named_by(tag@),
    {
        let small = to_lower(tag);
        let t = small.as_slice();
        if chars_eq(t, "text/caption") {
            RoleKind::TextCaption
        } else if chars_eq(t, "text/subtitle") {
            RoleKind::TextSubtitle
        } else if chars_eq(t, "text/textaudiodesc") {
            RoleKind::TextTextAudioDesc
        } else if chars_eq(t, "text/karaoke") {
            RoleKind::TextKaraoke
        } else if chars_eq(t, "text/chapters") {
            RoleKind::TextChapters
        } else if chars_eq(t, "text/tickertext") {
            RoleKind::TextTickerText
        } else if chars_eq(t, "text/lyrics") {
            RoleKind::TextLyrics
        } else if chars_eq(t, "text/metadata") {
            RoleKind::TextMetadata
        } else if chars_eq(t, "text/annotation") {
            RoleKind::TextAnnotation
        } else if chars_eq(t, "text/linguistic") {
            RoleKind::TextLinguistic
        } else if chars_eq(t, "video/main") {
            RoleKind::VideoMain
        } else if chars_eq(t, "video/alternate") {
            RoleKind::VideoAlternate
        } else if chars_eq(t, "video/sign") {
            RoleKind::VideoSign
        } else if chars_eq(t, "video/captioned") {
            RoleKind::VideoCaptioned
        } else if chars_eq(t, "video/subtitled") {
            RoleKind::VideoSubtitled
        } else if chars_eq(t, "audio/main") {
            RoleKind::AudioMain
        } else if chars_eq(t, "audio/alternate") {
            RoleKind::AudioAlternate
        } else if chars_eq(t, "audio/dub") {
            RoleKind::AudioDub
        } else if chars_eq(t, "audio/audiodesc") {
            RoleKind::AudioAudioDesc
        } else if chars_eq(t, "audio/described") {
            RoleKind::AudioDescribed
        } else if chars_eq(t, "audio/music") {
            RoleKind::AudioMusic
        } else if chars_eq(t, "audio/speech") {
            RoleKind::AudioSpeech
        } else if chars_eq(t, "audio/sfx") {
            RoleKind::AudioSfx
        } else if chars_eq(t, "audio/commentary") {
            RoleKind::AudioCommentary
        } else {
            RoleKind::Other(to_text(tag))
        }
    }
}

/// The value of a `Role` header: a role and `;key=value` parameters.
#[derive(Clone, Debug, PartialEq, Eq)]
pub struct Role {
    /// The role.
    pub kind: RoleKind,
    /// The parameters, in their order, keys as written.
    pub parameters: Vec<(String, String)>,
}

impl Role {
    /// Whether this is the role that `raw` spells.
    pub open spec fn spelled_by(self, raw: Seq<char>) -> bool {
        let pieces = chars::split(raw, ';');
        &&& self.kind.named_by(chars::trim(pieces[0]))
        &&& parameters::parameters_view(self.parameters@) == parameters::parameters_in(
            pieces.skip(1),
        )
    }

    /// Reads the value of a `Role` header.
    pub fn parse(raw: &str) -> (r: Role)
        ensures
            r.spelled_by(raw@),
    {
        let v = to_chars(raw);
        let (end, more) = next_piece(v.as_slice(), ';', 0);
        let head = vstd::slice::slice_subrange(v.as_slice(), 0, end);
        assert(v@.skip(0) =~= raw@);
        let ghost pieces = chars::split(raw@, ';');
        assert(pieces[0] =~= head@);
        let kind = RoleKind::from_tag(trimmed(head));
        let list: Vec<(String, String)> = if more {
            assert(pieces.skip(1) =~= chars::split(v@.skip(end + 1), ';'));
            read_parameters(v.as_slice(), end + 1)
        } else {
            assert(pieces.skip(1) =~= Seq::<Seq<char>>::empty());
            let none: Vec<(String, String)> = Vec::new();
            assert(parameters::parameters_view(none@) =~= parameters::parameters_in(
                pieces.skip(1),
            ));
            none
        };
        Role { kind, parameters: list }
    }

    /// The value of the first parameter with this name, whatever its case.
    pub fn parameter(&self, name: &str) -> (r: Option<&str>)
        ensures
            match r {
                Some(v) => parameters::value_of(
                    parameters::parameters_view(self.parameters@),
                    name@,
                ) == Some(v@),
                None => parameters::value_of(
                    parameters::parameters_view(self.parameters@),
                    name@,
                ) is None,
            },
    {
        parameter_value(&self.parameters, name)
    }
}

/// The tag of a role that was read is the tag it was read from, in small
/// letters where the role is known and as written where it is not, and it
/// reads back as the same role.
pub proof fn law_role_round_trip(kind: RoleKind, tag: Seq<char>)
    requires
        kind.named_by(tag),
    ensures
        known_role(chars::lower(tag)) is Some ==> kind.wire() == chars::lower(tag),
        known_role(chars::lower(tag)) is None ==> kind.wire() == tag,
        kind.named_by(kind.wire()),
{
    chars::law_lower_twice(tag);
}

/// A role is of at most one kind of track, and of one wherever it is known.
pub proof fn law_role_classes(kind: RoleKind)
    ensures
        !(kind.text_role() && kind.video_role()),
        !(kind.text_role() && kind.audio_role()),
        !(kind.video_role() && kind.audio_role()),
        !(kind is Other) <==> kind.text_role() || kind.video_role() || kind.audio_role(),
{
}

} // verus!
