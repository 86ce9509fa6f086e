//! The `Content-Type` message header.
use crate::chars;
use crate::chars::{
    chars_eq, eq_ignore_case, next_piece, position, to_chars, to_lower, to_text, trimmed,
};
use crate::error::{Error, Fault};
use crate::skeleton::parameters;
use crate::skeleton::parameters::{parameter_value, read_parameters};
use vstd::prelude::*;

verus! {

/// The top-level type of a content type.
#[derive(Clone, Debug, PartialEq, Eq)]
pub enum ContentTypeKind {
    /// `audio`
    Audio,
    /// `video`
    Video,
    /// `text`
    Text,
    /// `image`
    Image,
    /// `application`
    Application,
    /// Any other type, as written.
    Other(String),
}

/// The kind whose token, in small letters, is `token`.
pub open spec fn known_kind(token: Seq<char>) -> Option<ContentTypeKind> {
    if token == "audio"@ {
        Some(ContentTypeKind::Audio)
    } else if token == "video"@ {
        Some(ContentTypeKind::Video)
    } else if token == "text"@ {
        Some(ContentTypeKind::Text)
    } else if token == "image"@ {
        Some(ContentTypeKind::Image)
    } else if token == "application"@ {
        Some(ContentTypeKind::Application)
    } else {
        None
    }
}

impl ContentTypeKind {
    /// Whether this is the kind that `token` names: a known kind whatever the
    /// case of its letters, any other token as written.
    pub open spec fn named_by(self, token: Seq<char>) -> bool {
        match known_kind(chars::lower(token)) {
            Some(kind) => self == kind,
            None => self matches ContentTypeKind::Other(s) && s@ == token,
        }
    }

    /// The kind's token.
    pub open spec fn wire(self) -> Seq<char> {
        match self {
            ContentTypeKind::Audio => "audio"@,
            ContentTypeKind::Video => "video"@,
            ContentTypeKind::Text => "text"@,
            ContentTypeKind::Image => "image"@,
            ContentTypeKind::Application => "application"@,
            ContentTypeKind::Other(s) => s@,
        }
    }

    fn from_token(token: &[char]) -> (r: Self)
        ensures
            r.named_by(token@),
    {
        let small = to_lower(token);
        let t = small.as_slice();
        if chars_eq(t, "audio") {
            ContentTypeKind::Audio
        } else if chars_eq(t, "video") {
            ContentTypeKind::Video
        } else if chars_eq(t, "text") {
            ContentTypeKind::Text
        } else if chars_eq(t, "image") {
            ContentTypeKind::Image
        } else if chars_eq(t, "application") {
            ContentTypeKind::Application
        } else {
            ContentTypeKind::Other(to_text(token))
        }
    }

    /// Whether this is `audio`.
    pub fn is_audio(&self) -> (r: bool)
        ensures
            r == (*self is Audio),
    {
        matches!(self, ContentTypeKind::Audio)
    }

    /// Whether this is `video`.
    pub fn is_video(&self) -> (r: bool)
        ensures
            r == (*self is Video),
    {
        matches!(self, ContentTypeKind::Video)
    }

    /// Whether this is `text`.
    pub fn is_text(&self) -> (r: bool)
        ensures
            r == (*self is Text),
    {
        matches!(self, ContentTypeKind::Text)
    }

    /// Whether this is `image`.
    pub fn is_image(&self) -> (r: bool)
        ensures
            r == (*self is Image),
    {
        matches!(self, ContentTypeKind::Image)
    }

    /// Whether this is `application`.
    pub fn is_application(&self) -> (r: bool)
        ensures
            r == (*self is Application),
    {
        matches!(self, ContentTypeKind::Application)
    }

    /// The kind's token; for any other kind, the token as written.
    pub fn as_wire(&self) -> (r: &str)
        ensures
            r@ == self.wire(),
    {
        match self {
            ContentTypeKind::Audio => "audio",
            ContentTypeKind::Video => "video",
            ContentTypeKind::Text => "text",
            ContentTypeKind::Image => "image",
            ContentTypeKind::Application => "application",
            ContentTypeKind::Other(s) => s.as_str(),
        }
    }
}

/// The value of a `Content-Type` header: `type/subtype` and `;key=value`
/// parameters.
#[derive(Clone, Debug, PartialEq, Eq)]
pub struct ContentType {
    /// The top-level type.
    pub kind: ContentTypeKind,
    /// The subtype, as written.
    pub subtype: String,
    /// The parameters, in their order, keys as written.
    pub parameters: Vec<(String, String)>,
}

/// What is wrong with the content type `raw`, if anything.
pub open spec fn content_type_fault(raw: Seq<char>) -> Option<Fault> {
    let head = chars::trim(chars::split(chars::trim(raw), ';')[0]);
    if head.len() == 0 {
        Some(Fault::ContentTypeEmpty)
    } else {
        match chars::find(head, '/') {
            None => Some(Fault::ContentTypeSlash),
            Some(i) => if chars::trim(head.take(i)).len() == 0 {
                Some(Fault::ContentTypeType)
            } else if chars::trim(head.skip(i + 1)).len() == 0 {
                Some(Fault::ContentTypeSubtype)
            } else {
                None
            },
        }
    }
}

impl ContentType {
    /// Whether this is the content type that `raw` spells, where nothing is
    /// wrong with it.
    pub open spec fn spelled_by(self, raw: Seq<char>) -> bool {
        let pieces = chars::split(chars::trim(raw), ';');
        let head = chars::trim(pieces[0]);
        let slash = chars::find(head, '/')->Some_0;
        &&& self.kind.named_by(chars::trim(head.take(slash)))
        &&& self.subtype@ == chars::trim(head.skip(slash + 1))
        &&& parameters::parameters_view(self.parameters@) == parameters::parameters_in(
            pieces.skip(1),
        )
    }

    /// Reads the value of a `Content-Type` header.
    pub fn parse(raw: &str) -> (r: Result<ContentType, Error>)
        ensures
            match r {
                Ok(t) => content_type_fault(raw@) is None && t.spelled_by(raw@),
                Err(e) => content_type_fault(raw@) matches Some(fault) && e == Error::InvalidData(
                    fault,
                ),
            },
    {
        let all = to_chars(raw);
        let v = trimmed(all.as_slice());
        let (end, more) = next_piece(v, ';', 0);
        let ghost pieces = chars::split(chars::trim(raw@), ';');
        assert(v@.skip(0) =~= v@);
        let first = vstd::slice::slice_subrange(v, 0, end);
        assert(pieces[0] =~= first@);
        let head = trimmed(first);
        let n: usize = head.len();
        if n == 0 {
            return Err(Error::InvalidData(Fault::ContentTypeEmpty));
        }
        let slash: usize = match position(head, '/') {
            Some(i) => i,
            None => return Err(Error::InvalidData(Fault::ContentTypeSlash)),
        };
        let before = vstd::slice::slice_subrange(head, 0, slash);
        let behind = vstd::slice::slice_subrange(head, slash + 1, n);
        assert(before@ =~= head@.take(slash as int));
        assert(behind@ =~= head@.skip(slash + 1));
        let token = trimmed(before);
        let subtype = trimmed(behind);
        if token.len() == 0 {
            return Err(Error::InvalidData(Fault::ContentTypeType));
        }
        if subtype.len() == 0 {
            return Err(Error::InvalidData(Fault::ContentTypeSubtype));
        }
        let list: Vec<(String, String)> = if more {
            assert(pieces.skip(1) =~= chars::split(v@.skip(end + 1), ';'));
            read_parameters(v, end + 1)
        } else {
            assert(pieces.skip(1) =~= Seq::<Seq<char>>::empty());
            let none: Vec<(String, String)> = Vec::new();
            assert(parameters::parameters_view(none@) =~= parameters::parameters_in(
                pieces.skip(1),
            ));
            none
        };
        Ok(
            ContentType {
                kind: ContentTypeKind::from_token(token),
                subtype: to_text(subtype),
                parameters: list,
            },
        )
    }

    /// The value of the first parameter with this name, whatever its case.
    pub fn parameter(&self, name: &str) -> (r: Option<&str>)
        ensures
            match r {
                Some(v) => parameters::value_of(
                    parameters::parameters_view(self.parameters@),
                    name@,
                ) == Some(v@),
                None => parameters::value_of(
                    parameters::parameters_view(self.parameters@),
                    name@,
                ) is None,
            },
    {
        parameter_value(&self.parameters, name)
    }

    /// Whether the subtype is `expected`, whatever its case.
    pub fn subtype_eq(&self, expected: &str) -> (r: bool)
        ensures
            r == chars::same_ignoring_case(self.subtype@, expected@),
    {
        eq_ignore_case(self.subtype.as_str(), expected)
    }
}

/// The token of a kind that was read is the token it was read from, in small
/// letters where the kind is known and as written where it is not, and it
/// reads back as the same kind.
pub proof fn law_kind_round_trip(kind: ContentTypeKind, token: Seq<char>)
    requires
        kind.named_by(token),
    ensures
        known_kind(chars::lower(token)) is Some ==> kind.wire() == chars::lower(token),
        known_kind(chars::lower(token)) is None ==> kind.wire() == token,
        kind.named_by(kind.wire()),
{
    chars::law_lower_twice(token);
}

} // verus!
