//! What the values of message headers say is what was written into them.
use crate::bytes;
use crate::chars;
use crate::error::{Error, Fault};
use crate::single;
use crate::skeleton::bone;
use crate::skeleton::bone::FisBoneView;
use crate::skeleton::content_type;
use crate::skeleton::content_type::{ContentType, ContentTypeKind};
use crate::skeleton::display_hint;
use crate::skeleton::display_hint::{CoordView, HintView};
use crate::skeleton::index::SkelIndexView;
use crate::skeleton::parameters;
use crate::skeleton::parameters::ParameterView;
use crate::skeleton::role::{Role, RoleKind};
use crate::skeleton::state;
use crate::skeleton::title_name;
use crate::text;
use crate::text_laws;
use vstd::arithmetic::power2;
use vstd::prelude::*;

verus! {

// ---------------------------------------------------------------------------
// Parameters
// ---------------------------------------------------------------------------
/// A parameter as it was written, with white space around its key and value; a
/// bare one has no value.
pub struct Written {
    pub before: Seq<char>,
    pub key: Seq<char>,
    pub behind: Seq<char>,
    pub lead: Seq<char>,
    pub value: Seq<char>,
    pub tail: Seq<char>,
    pub bare: bool,
}

/// The text of a parameter.
pub open spec fn written(w: Written) -> Seq<char> {
    if w.bare {
        w.before + w.key + w.tail
    } else {
        w.before + (w.key + w.behind + seq!['='] + w.lead + w.value) + w.tail
    }
}

/// A parameter that can be told: no separator stands in its key.
pub open spec fn tellable(w: Written) -> bool {
    &&& chars::blank(w.before) && chars::blank(w.behind)
    &&& chars::blank(w.lead) && chars::blank(w.tail)
    &&& chars::snug(w.key) && !w.key.contains('=')
    &&& w.bare || chars::snug(w.value)
}

/// What a parameter that was written says.
pub open spec fn said(w: Written) -> ParameterView {
    if w.bare {
        (w.key, Seq::empty())
    } else {
        (w.key, w.value)
    }
}

proof fn lemma_no_equals(s: Seq<char>, b: Seq<char>)
    requires
        !s.contains('='),
        chars::blank(b),
    ensures
        !(s + b).contains('='),
{
    if (s + b).contains('=') {
        let i = choose|i: int| 0 <= i < (s + b).len() && (s + b)[i] == '=';
        if i < s.len() {
            assert(s.contains(s[i]));
        } else {
            assert(chars::whitespace(b[i - s.len()]));
        }
    }
}

proof fn lemma_parameter(w: Written)
    requires
        tellable(w),
    ensures
        parameters::parameter_in(written(w)) == Some(said(w)),
{
    let none = Seq::<char>::empty();
    if w.bare {
        chars::law_trim_pad(w.before, w.key, w.tail);
        text_laws::lemma_find_none(w.key, '=', 0);
    } else {
        let p = w.key + w.behind + seq!['='] + w.lead + w.value;
        assert(p[0] == w.key[0]);
        assert(p[p.len() - 1] == w.value[w.value.len() - 1]);
        chars::law_trim_pad(w.before, p, w.tail);
        lemma_no_equals(w.key, w.behind);
        assert(p =~= (w.key + w.behind) + seq!['='] + (w.lead + w.value));
        text_laws::lemma_find_behind(w.key + w.behind, '=', w.lead + w.value);
        let i = (w.key + w.behind).len() as int;
        assert(p.take(i) =~= none + w.key + w.behind);
        assert(p.skip(i + 1) =~= w.lead + w.value + none);
        chars::law_trim_pad(none, w.key, w.behind);
        chars::law_trim_pad(w.lead, w.value, none);
    }
}

/// The texts of parameters.
pub open spec fn all_written(list: Seq<Written>) -> Seq<Seq<char>> {
    list.map_values(|w: Written| written(w))
}

/// What parameters say.
pub open spec fn all_said(list: Seq<Written>) -> Seq<ParameterView> {
    list.map_values(|w: Written| said(w))
}

/// Parameters are read back in their order, all of them, without the white space
/// around keys and values.
pub proof fn law_parameters(list: Seq<Written>)
    requires
        forall|i: int| 0 <= i < list.len() ==> tellable(#[trigger] list[i]),
    ensures
        parameters::parameters_in(all_written(list)) == all_said(list),
    decreases list.len(),
{
    if list.len() == 0 {
        assert(all_said(list) =~= Seq::<ParameterView>::empty());
    } else {
        let rest = list.skip(1);
        assert forall|i: int| 0 <= i < rest.len() implies tellable(#[trigger] rest[i]) by {
            assert(tellable(list[i + 1]));
        }
        law_parameters(rest);
        assert(tellable(list[0]));
        lemma_parameter(list[0]);
        assert(all_written(list).skip(1) =~= all_written(rest));
        assert(all_written(list)[0] == written(list[0]));
        assert(seq![said(list[0])] + all_said(rest) =~= all_said(list));
    }
}

/// Looking up a name finds the first value under it, in whatever case it is
/// written, and nothing exactly where the name does not occur.
pub proof fn law_value_of(list: Seq<ParameterView>, name: Seq<char>)
    ensures
        match parameters::value_of(list, name) {
            Some(v) => exists|i: int|
                0 <= i < list.len() && (#[trigger] list[i]).1 == v && chars::same_ignoring_case(
                    list[i].0,
                    name,
                ) && forall|j: int|
                    0 <= j < i ==> !chars::same_ignoring_case((#[trigger] list[j]).0, name),
            None => forall|i: int|
                0 <= i < list.len() ==> !chars::same_ignoring_case((#[trigger] list[i]).0, name),
        },
    decreases list.len(),
{
    if list.len() > 0 && !chars::same_ignoring_case(list[0].0, name) {
        let rest = list.skip(1);
        law_value_of(rest, name);
        match parameters::value_of(list, name) {
            Some(v) => {
                let i = choose|i: int|
                    0 <= i < rest.len() && (#[trigger] rest[i]).1 == v
                        && chars::same_ignoring_case(rest[i].0, name) && forall|j: int|
                        0 <= j < i ==> !chars::same_ignoring_case((#[trigger] rest[j]).0, name);
                assert(list[i + 1].1 == v);
                assert forall|j: int| 0 <= j < i + 1 implies !chars::same_ignoring_case(
                    (#[trigger] list[j]).0,
                    name,
                ) by {
                    if j > 0 {
                        assert(rest[j - 1] == list[j]);
                    }
                }
            },
            None => {
                assert forall|i: int| 0 <= i < list.len() implies !chars::same_ignoring_case(
                    (#[trigger] list[i]).0,
                    name,
                ) by {
                    if i > 0 {
                        assert(rest[i - 1] == list[i]);
                    }
                }
            },
        }
    } else if list.len() > 0 {
        assert(list[0].1 == parameters::value_of(list, name)->Some_0);
    }
}

// ---------------------------------------------------------------------------
// Roles
// ---------------------------------------------------------------------------
/// The text of a value: a head and parameters, between semicolons.
pub open spec fn value_text(head: Seq<char>, list: Seq<Written>) -> Seq<char> {
    text_laws::joined(seq![head] + all_written(list), ';')
}

/// Semicolons stand only between the parts.
pub open spec fn parted(head: Seq<char>, list: Seq<Written>) -> bool {
    text_laws::without(seq![head] + all_written(list), ';')
}

/// A role is the one whose tag was written, whatever the case of its letters; a
/// tag that is none of the known ones is kept as it stands. Its parameters are
/// those that were written.
pub proof fn law_role(
    role: Role,
    before: Seq<char>,
    tag: Seq<char>,
    behind: Seq<char>,
    list: Seq<Written>,
    known: RoleKind,
)
    requires
        chars::blank(before),
        chars::blank(behind),
        chars::snug(tag),
        parted(before + tag + behind, list),
        forall|i: int| 0 <= i < list.len() ==> tellable(#[trigger] list[i]),
        role.spelled_by(value_text(before + tag + behind, list)),
    ensures
        chars::same_ignoring_case(role.kind.wire(), tag),
        !(known is Other) && chars::same_ignoring_case(known.wire(), tag) ==> role.kind == known,
        role.kind is Other ==> role.kind.wire() == tag,
        parameters::parameters_view(role.parameters@) == all_said(list),
{
    let head = before + tag + behind;
    let pieces = seq![head] + all_written(list);
    text_laws::law_split_joined(pieces, ';');
    assert(pieces.skip(1) =~= all_written(list));
    law_parameters(list);
    chars::law_trim_pad(before, tag, behind);
    assert(role.kind.named_by(tag));
    crate::skeleton::role::law_role_round_trip(role.kind, tag);
    chars::law_lower_twice(tag);
    if !(known is Other) && chars::same_ignoring_case(known.wire(), tag) {
        lemma_role_wire(known);
    }
}

/// What tells the tags apart.
spec fn sign(s: Seq<char>) -> (nat, char, char, char) {
    (s.len(), s[0], s[6], s[7])
}

proof fn lemma_signs()
    ensures
        sign("text/caption"@) == (12nat, 't', 'a', 'p'),
        sign("text/subtitle"@) == (13nat, 't', 'u', 'b'),
        sign("text/textaudiodesc"@) == (18nat, 't', 'e', 'x'),
        sign("text/karaoke"@) == (12nat, 't', 'a', 'r'),
        sign("text/chapters"@) == (13nat, 't', 'h', 'a'),
        sign("text/tickertext"@) == (15nat, 't', 'i', 'c'),
        sign("text/lyrics"@) == (11nat, 't', 'y', 'r'),
        sign("text/metadata"@) == (13nat, 't', 'e', 't'),
        sign("text/annotation"@) == (15nat, 't', 'n', 'n'),
        sign("text/linguistic"@) == (15nat, 't', 'i', 'n'),
        sign("video/main"@) == (10nat, 'v', 'm', 'a'),
        sign("video/alternate"@) == (15nat, 'v', 'a', 'l'),
        sign("video/sign"@) == (10nat, 'v', 's', 'i'),
        sign("video/captioned"@) == (15nat, 'v', 'c', 'a'),
        sign("video/subtitled"@) == (15nat, 'v', 's', 'u'),
        sign("audio/main"@) == (10nat, 'a', 'm', 'a'),
        sign("audio/alternate"@) == (15nat, 'a', 'a', 'l'),
        sign("audio/dub"@) == (9nat, 'a', 'd', 'u'),
        sign("audio/audiodesc"@) == (15nat, 'a', 'a', 'u'),
        sign("audio/described"@) == (15nat, 'a', 'd', 'e'),
        sign("audio/music"@) == (11nat, 'a', 'm', 'u'),
        sign("audio/speech"@) == (12nat, 'a', 's', 'p'),
        sign("audio/sfx"@) == (9nat, 'a', 's', 'f'),
        sign("audio/commentary"@) == (16nat, 'a', 'c', 'o'),
{
    reveal_strlit("text/caption");
    reveal_strlit("text/subtitle");
    reveal_strlit("text/textaudiodesc");
    reveal_strlit("text/karaoke");
    reveal_strlit("text/chapters");
    reveal_strlit("text/tickertext");
    reveal_strlit("text/lyrics");
    reveal_strlit("text/metadata");
    reveal_strlit("text/annotation");
    reveal_strlit("text/linguistic");
    reveal_strlit("video/main");
    reveal_strlit("video/alternate");
    reveal_strlit("video/sign");
    reveal_strlit("video/captioned");
    reveal_strlit("video/subtitled");
    reveal_strlit("audio/main");
    reveal_strlit("audio/alternate");
    reveal_strlit("audio/dub");
    reveal_strlit("audio/audiodesc");
    reveal_strlit("audio/described");
    reveal_strlit("audio/music");
    reveal_strlit("audio/speech");
    reveal_strlit("audio/sfx");
    reveal_strlit("audio/commentary");
}

proof fn lemma_role_wire(known: RoleKind)
    requires
        !(known is Other),
    ensures
        crate::skeleton::role::known_role(chars::lower(known.wire())) == Some(known),
{
    lemma_signs();
    lemma_role_lower(known);
}

proof fn lemma_role_lower(known: RoleKind)
    requires
        !(known is Other),
    ensures
        chars::lower(known.wire()) == known.wire(),
{
    reveal_strlit("text/caption");
    reveal_strlit("text/subtitle");
    reveal_strlit("text/textaudiodesc");
    reveal_strlit("text/karaoke");
    reveal_strlit("text/chapters");
    reveal_strlit("text/tickertext");
    reveal_strlit("text/lyrics");
    reveal_strlit("text/metadata");
    reveal_strlit("text/annotation");
    reveal_strlit("text/linguistic");
    reveal_strlit("video/main");
    reveal_strlit("video/alternate");
    reveal_strlit("video/sign");
    reveal_strlit("video/captioned");
    reveal_strlit("video/subtitled");
    reveal_strlit("audio/main");
    reveal_strlit("audio/alternate");
    reveal_strlit("audio/dub");
    reveal_strlit("audio/audiodesc");
    reveal_strlit("audio/described");
    reveal_strlit("audio/music");
    reveal_strlit("audio/speech");
    reveal_strlit("audio/sfx");
    reveal_strlit("audio/commentary");
    assert(chars::lower(known.wire()) =~= known.wire());
}

/// A known role is one of a text, video or audio track as its tag says.
pub proof fn law_role_tracks(kind: RoleKind)
    requires
        !(kind is Other),
    ensures
        kind.text_role() == (kind.wire()[0] == 't'),
        kind.video_role() == (kind.wire()[0] == 'v'),
        kind.audio_role() == (kind.wire()[0] == 'a'),
{
    reveal_strlit("text/caption");
    reveal_strlit("text/subtitle");
    reveal_strlit("text/textaudiodesc");
    reveal_strlit("text/karaoke");
    reveal_strlit("text/chapters");
    reveal_strlit("text/tickertext");
    reveal_strlit("text/lyrics");
    reveal_strlit("text/metadata");
    reveal_strlit("text/annotation");
    reveal_strlit("text/linguistic");
    reveal_strlit("video/main");
    reveal_strlit("video/alternate");
    reveal_strlit("video/sign");
    reveal_strlit("video/captioned");
    reveal_strlit("video/subtitled");
    reveal_strlit("audio/main");
    reveal_strlit("audio/alternate");
    reveal_strlit("audio/dub");
    reveal_strlit("audio/audiodesc");
    reveal_strlit("audio/described");
    reveal_strlit("audio/music");
    reveal_strlit("audio/speech");
    reveal_strlit("audio/sfx");
    reveal_strlit("audio/commentary");
}

// ---------------------------------------------------------------------------
// Content types
// ---------------------------------------------------------------------------
/// A content type that was written as `type/subtype` and parameters is read
/// without a fault: its kind is the one that the type names, whatever the case of
/// its letters, its subtype is kept as it stands, and its parameters are those
/// that were written.
pub proof fn law_content_type(
    t: ContentType,
    kind: Seq<char>,
    subtype: Seq<char>,
    list: Seq<Written>,
    known: ContentTypeKind,
)
    requires
        chars::snug(kind),
        chars::snug(subtype),
        !kind.contains('/'),
        parted(kind + seq!['/'] + subtype, list),
        chars::snug(value_text(kind + seq!['/'] + subtype, list)),
        forall|i: int| 0 <= i < list.len() ==> tellable(#[trigger] list[i]),
    ensures
        ({
            let raw = value_text(kind + seq!['/'] + subtype, list);
            &&& content_type::content_type_fault(raw) is None
            &&& t.spelled_by(raw) ==> {
                &&& chars::same_ignoring_case(t.kind.wire(), kind)
                &&& !(known is Other) && chars::same_ignoring_case(known.wire(), kind) ==> t.kind
                    == known
                &&& t.kind is Other ==> t.kind.wire() == kind
                &&& t.subtype@ == subtype
                &&& parameters::parameters_view(t.parameters@) == all_said(list)
            }
        }),
{
    let none = Seq::<char>::empty();
    let head = kind + seq!['/'] + subtype;
    let pieces = seq![head] + all_written(list);
    let raw = value_text(head, list);
    text_laws::law_split_joined(pieces, ';');
    assert(pieces.skip(1) =~= all_written(list));
    law_parameters(list);
    assert(none + raw + none =~= raw);
    chars::law_trim_pad(none, raw, none);
    assert(head[0] == kind[0] && head[head.len() - 1] == subtype[subtype.len() - 1]);
    assert(none + head + none =~= head);
    chars::law_trim_pad(none, head, none);
    text_laws::lemma_find_behind(kind, '/', subtype);
    let i = kind.len() as int;
    assert(head.take(i) =~= kind);
    assert(head.skip(i + 1) =~= subtype);
    assert(none + kind + none =~= kind);
    chars::law_trim_pad(none, kind, none);
    assert(none + subtype + none =~= subtype);
    chars::law_trim_pad(none, subtype, none);
    if t.spelled_by(raw) {
        lemma_kind(t.kind, kind, known);
    }
}

/// A kind is the one that a token names.
proof fn lemma_kind(kind: ContentTypeKind, token: Seq<char>, known: ContentTypeKind)
    requires
        kind.named_by(token),
    ensures
        chars::same_ignoring_case(kind.wire(), token),
        !(known is Other) && chars::same_ignoring_case(known.wire(), token) ==> kind == known,
        kind is Other ==> kind.wire() == token,
{
    content_type::law_kind_round_trip(kind, token);
    chars::law_lower_twice(token);
    if !(known is Other) && chars::same_ignoring_case(known.wire(), token) {
        reveal_strlit("audio");
        reveal_strlit("video");
        reveal_strlit("text");
        reveal_strlit("image");
        reveal_strlit("application");
        assert("audio"@[0] == 'a' && "video"@[0] == 'v' && "text"@[0] == 't' && "image"@[0] == 'i'
            && "application"@[1] == 'p' && "audio"@[1] == 'u');
        assert(chars::lower(known.wire()) =~= known.wire());
        assert(content_type::known_kind(known.wire()) == Some(known));
    }
}

/// A content type without a slash, without a type or without a subtype is
/// refused, and so is a blank one.
pub proof fn law_content_type_faults(kind: Seq<char>, subtype: Seq<char>, pad: Seq<char>)
    requires
        chars::blank(pad),
        !pad.contains(';'),
        chars::snug(kind),
        !kind.contains('/') && !kind.contains(';'),
        chars::snug(subtype),
        !subtype.contains(';'),
    ensures
        content_type::content_type_fault(pad) == Some(Fault::ContentTypeEmpty),
        content_type::content_type_fault(kind) == Some(Fault::ContentTypeSlash),
        content_type::content_type_fault(seq!['/'] + subtype) == Some(Fault::ContentTypeType),
        content_type::content_type_fault(kind + seq!['/']) == Some(Fault::ContentTypeSubtype),
{
    let none = Seq::<char>::empty();
    assert(pad + none + none =~= pad);
    chars::law_trim_pad(pad, none, none);
    assert(!none.contains(';'));
    lemma_alone(none);
    chars::law_trim_pad(none, none, none);
    assert(none + none + none =~= none);
    lemma_snug_trim(kind);
    lemma_alone(kind);
    text_laws::lemma_find_none(kind, '/', 0);
    let a = seq!['/'] + subtype;
    assert(a[0] == '/' && a[a.len() - 1] == subtype[subtype.len() - 1]);
    lemma_snug_trim(a);
    assert(!a.contains(';')) by {
        if a.contains(';') {
            let i = choose|i: int| 0 <= i < a.len() && a[i] == ';';
            assert(subtype.contains(subtype[i - 1]));
        }
    }
    lemma_alone(a);
    text_laws::lemma_find_is(a, '/', 0, 0);
    assert(a.take(0) =~= none);
    let b = kind + seq!['/'];
    assert(b[0] == kind[0] && b[b.len() - 1] == '/');
    lemma_snug_trim(b);
    assert(!b.contains(';')) by {
        if b.contains(';') {
            let i = choose|i: int| 0 <= i < b.len() && b[i] == ';';
            assert(kind.contains(kind[i]));
        }
    }
    lemma_alone(b);
    assert(b =~= kind + seq!['/'] + none);
    text_laws::lemma_find_behind(kind, '/', none);
    let i = kind.len() as int;
    assert(b.take(i) =~= kind);
    assert(b.skip(i + 1) =~= none);
}

proof fn lemma_snug_trim(s: Seq<char>)
    requires
        chars::snug(s),
    ensures
        chars::trim(s) == s,
{
    let none = Seq::<char>::empty();
    assert(none + s + none =~= s);
    chars::law_trim_pad(none, s, none);
}

proof fn lemma_alone(s: Seq<char>)
    requires
        !s.contains(';'),
    ensures
        chars::split(s, ';') == seq![s],
{
    let pieces = seq![s];
    assert(text_laws::joined(pieces, ';') == s);
    text_laws::law_split_joined(pieces, ';');
}

// ---------------------------------------------------------------------------
// Languages
// ---------------------------------------------------------------------------
/// The tags of a list that are not empty, in their order.
pub open spec fn kept(list: Seq<(Seq<char>, Seq<char>, Seq<char>)>) -> Seq<Seq<char>>
    decreases list.len(),
{
    if list.len() == 0 {
        Seq::empty()
    } else if list[0].1.len() > 0 {
        seq![list[0].1] + kept(list.skip(1))
    } else {
        kept(list.skip(1))
    }
}

/// Each tag with white space around it; an empty one is nothing but white space.
pub open spec fn padded(t: (Seq<char>, Seq<char>, Seq<char>)) -> bool {
    &&& chars::blank(t.0) && chars::blank(t.2)
    &&& chars::snug(t.1) || (t.1.len() == 0 && t.2.len() == 0)
}

/// The texts of tags.
pub open spec fn tag_texts(list: Seq<(Seq<char>, Seq<char>, Seq<char>)>) -> Seq<Seq<char>> {
    list.map_values(|t: (Seq<char>, Seq<char>, Seq<char>)| t.0 + t.1 + t.2)
}

/// The tags of a language list are read back in their order, all of them, and
/// blank ones are left out.
pub proof fn law_languages(list: Seq<(Seq<char>, Seq<char>, Seq<char>)>)
    requires
        list.len() > 0,
        forall|i: int| 0 <= i < list.len() ==> padded(#[trigger] list[i]),
        text_laws::without(tag_texts(list), ','),
    ensures
        bone::language_tags(
            chars::split(text_laws::joined(tag_texts(list), ','), ','),
        ) == kept(list),
{
    text_laws::law_split_joined(tag_texts(list), ',');
    lemma_languages(list);
}

proof fn lemma_languages(list: Seq<(Seq<char>, Seq<char>, Seq<char>)>)
    requires
        forall|i: int| 0 <= i < list.len() ==> padded(#[trigger] list[i]),
    ensures
        bone::language_tags(tag_texts(list)) == kept(list),
    decreases list.len(),
{
    if list.len() > 0 {
        let rest = list.skip(1);
        assert forall|i: int| 0 <= i < rest.len() implies padded(#[trigger] rest[i]) by {
            assert(padded(list[i + 1]));
        }
        lemma_languages(rest);
        assert(padded(list[0]));
        assert(tag_texts(list).skip(1) =~= tag_texts(rest));
        assert(tag_texts(list)[0] == list[0].0 + list[0].1 + list[0].2);
        chars::law_trim_pad(list[0].0, list[0].1, list[0].2);
    }
}

// ---------------------------------------------------------------------------
// Display hints
// ---------------------------------------------------------------------------
/// `t` spells the coordinate `c`: a number of pixels, or a number and `%`.
pub open spec fn spells(t: Seq<char>, c: CoordView) -> bool {
    match c {
        CoordView::Pixels(n) => t == text::signed_decimal(n as int),
        CoordView::Percent(bits) => exists|number: Seq<char>|
            t == #[trigger] number.push('%') && chars::snug(number) && chars::real_notation(number)
                && bits == single::bits_in(number),
    }
}

proof fn lemma_coord(t: Seq<char>, c: CoordView)
    requires
        spells(t, c),
    ensures
        display_hint::coord_in(t) == Ok::<CoordView, Fault>(c),
        chars::snug(t),
{
    match c {
        CoordView::Pixels(n) => {
            lemma_number(n as int);
            lemma_snug_trim(t);
        },
        CoordView::Percent(bits) => {
            let number = choose|number: Seq<char>|
                t == #[trigger] number.push('%') && chars::snug(number) && chars::real_notation(
                    number,
                ) && bits == single::bits_in(number);
            assert(t[0] == number[0] && t[t.len() - 1] == '%');
            lemma_snug_trim(t);
            assert(t.drop_last() =~= number);
            lemma_snug_trim(number);
        },
    }
}

/// The decimal form of a number is snug, and ends with a digit.
proof fn lemma_number(n: int)
    ensures
        chars::snug(text::signed_decimal(n)),
        chars::integer(text::signed_decimal(n)) == Some(n),
        chars::is_digit(text::signed_decimal(n).last()),
        n >= 0 ==> chars::is_digit(text::signed_decimal(n)[0]),
{
    text_laws::law_integer(n);
    let m = if n < 0 {
        (-n) as nat
    } else {
        n as nat
    };
    text_laws::law_decimal(m);
    let d = text::decimal(m);
    let s = text::signed_decimal(n);
    assert(chars::is_digit(d[0]) && chars::is_digit(d[d.len() - 1]));
    assert(s[s.len() - 1] == d[d.len() - 1]);
}

/// The text of a hint: a tag and arguments in brackets.
pub open spec fn hint_text(tag: Seq<char>, args: Seq<Seq<char>>) -> Seq<char> {
    tag + seq!['('] + text_laws::joined(args, ',') + seq![')']
}

/// A tag and arguments that can be told apart.
pub open spec fn hint_parts(tag: Seq<char>, args: Seq<Seq<char>>) -> bool {
    &&& chars::snug(tag) && !tag.contains('(')
    &&& args.len() > 0
    &&& forall|i: int| 0 <= i < args.len() ==> chars::snug(#[trigger] args[i])
    &&& text_laws::without(args, ',')
}

proof fn lemma_joined_snug(args: Seq<Seq<char>>)
    requires
        args.len() > 0,
        forall|i: int| 0 <= i < args.len() ==> chars::snug(#[trigger] args[i]),
    ensures
        chars::snug(text_laws::joined(args, ',')),
    decreases args.len(),
{
    let s = text_laws::joined(args, ',');
    assert(chars::snug(args[0]));
    if args.len() > 1 {
        let rest = args.skip(1);
        assert forall|i: int| 0 <= i < rest.len() implies chars::snug(#[trigger] rest[i]) by {
            assert(chars::snug(args[i + 1]));
        }
        lemma_joined_snug(rest);
        let r = text_laws::joined(rest, ',');
        assert(s[0] == args[0][0]);
        assert(s[s.len() - 1] == r[r.len() - 1]);
    }
}

/// What stands in the brackets is told apart.
proof fn lemma_hint(tag: Seq<char>, args: Seq<Seq<char>>)
    requires
        hint_parts(tag, args),
    ensures
        ({
            let raw = hint_text(tag, args);
            let name = chars::lower(tag);
            display_hint::hint_in(raw) == if name == "pip"@ {
                display_hint::pip_with(args)
            } else if name == "mask"@ {
                display_hint::mask_with(args)
            } else if name == "transparent"@ {
                display_hint::transparent_with(args)
            } else {
                Ok::<HintView, Fault>(HintView::Other { tag, arguments: args })
            }
        }),
{
    let body = text_laws::joined(args, ',');
    let raw = hint_text(tag, args);
    assert(raw[0] == tag[0] && raw[raw.len() - 1] == ')');
    lemma_snug_trim(raw);
    assert(raw =~= tag + seq!['('] + (body + seq![')']));
    text_laws::lemma_find_behind(tag, '(', body + seq![')']);
    let open = tag.len() as int;
    assert(raw.take(open) =~= tag);
    lemma_snug_trim(tag);
    assert(raw.subrange(open + 1, raw.len() - 1) =~= body);
    lemma_joined_snug(args);
    lemma_snug_trim(body);
    text_laws::law_split_joined(args, ',');
    let cut = |piece: Seq<char>| chars::trim(piece);
    assert forall|i: int| 0 <= i < args.len() implies #[trigger] args.map_values(cut)[i]
        == args[i] by {
        lemma_snug_trim(args[i]);
    }
    assert(args.map_values(cut) =~= args);
    assert(display_hint::arguments_in(body) =~= args);
}

/// A picture-in-picture hint is read back: its origin from two arguments, and its
/// extent where there are two more. Any other number of arguments is refused.
pub proof fn law_pip(tag: Seq<char>, args: Seq<Seq<char>>, coords: Seq<CoordView>)
    requires
        hint_parts(tag, args),
        chars::same_ignoring_case(tag, "pip"@),
        coords.len() == args.len(),
        forall|i: int| 0 <= i < args.len() ==> spells(#[trigger] args[i], coords[i]),
    ensures
        ({
            let r = display_hint::hint_in(hint_text(tag, args));
            &&& args.len() == 2 ==> r == Ok::<HintView, Fault>(
                HintView::Pip { x: coords[0], y: coords[1], extent: None },
            )
            &&& args.len() == 4 ==> r == Ok::<HintView, Fault>(
                HintView::Pip {
                    x: coords[0],
                    y: coords[1],
                    extent: Some((coords[2], coords[3])),
                },
            )
            &&& args.len() != 2 && args.len() != 4 ==> r is Err
        }),
{
    lemma_names();
    lemma_hint(tag, args);
    assert forall|i: int| 0 <= i < args.len() implies display_hint::coord_in(
        #[trigger] args[i],
    ) == Ok::<CoordView, Fault>(coords[i]) by {
        lemma_coord(args[i], coords[i]);
    }
}

proof fn lemma_names()
    ensures
        chars::lower("pip"@) == "pip"@,
        chars::lower("mask"@) == "mask"@,
        chars::lower("transparent"@) == "transparent"@,
        "pip"@ != "mask"@,
        "pip"@ != "transparent"@,
        "mask"@ != "transparent"@,
{
    reveal_strlit("pip");
    reveal_strlit("mask");
    reveal_strlit("transparent");
    assert(chars::lower("pip"@) =~= "pip"@);
    assert(chars::lower("mask"@) =~= "mask"@);
    assert(chars::lower("transparent"@) =~= "transparent"@);
    assert("pip"@.len() == 3 && "mask"@.len() == 4 && "transparent"@.len() == 11);
}

/// A mask hint is read back: its image, its origin where there are two more
/// arguments, and its extent where there are four. Any other number of arguments
/// is refused.
pub proof fn law_mask(tag: Seq<char>, args: Seq<Seq<char>>, coords: Seq<CoordView>)
    requires
        hint_parts(tag, args),
        chars::same_ignoring_case(tag, "mask"@),
        coords.len() == args.len() - 1,
        forall|i: int| 0 < i < args.len() ==> spells(#[trigger] args[i], coords[i - 1]),
    ensures
        ({
            let r = display_hint::hint_in(hint_text(tag, args));
            &&& args.len() == 1 ==> r == Ok::<HintView, Fault>(
                HintView::Mask { image: args[0], origin: None, extent: None },
            )
            &&& args.len() == 3 ==> r == Ok::<HintView, Fault>(
                HintView::Mask {
                    image: args[0],
                    origin: Some((coords[0], coords[1])),
                    extent: None,
                },
            )
            &&& args.len() == 5 ==> r == Ok::<HintView, Fault>(
                HintView::Mask {
                    image: args[0],
                    origin: Some((coords[0], coords[1])),
                    extent: Some((coords[2], coords[3])),
                },
            )
            &&& args.len() != 1 && args.len() != 3 && args.len() != 5 ==> r is Err
        }),
{
    lemma_names();
    lemma_hint(tag, args);
    assert forall|i: int| 0 < i < args.len() implies display_hint::coord_in(
        #[trigger] args[i],
    ) == Ok::<CoordView, Fault>(coords[i - 1]) by {
        lemma_coord(args[i], coords[i - 1]);
    }
}

/// A transparency of up to 100 percent is read back, with `%` and without; a
/// greater one is refused.
pub proof fn law_transparent(tag: Seq<char>, n: u32)
    requires
        chars::snug(tag),
        !tag.contains('('),
        chars::same_ignoring_case(tag, "transparent"@),
    ensures
        ({
            let plain = display_hint::hint_in(hint_text(tag, seq![text::decimal(n as nat)]));
            let marked = display_hint::hint_in(
                hint_text(tag, seq![text::decimal(n as nat).push('%')]),
            );
            &&& n <= 100 ==> plain == Ok::<HintView, Fault>(
                HintView::Transparent { percent: n as u8 },
            )
            &&& n > 100 ==> plain is Err
            &&& marked == plain
        }),
{
    lemma_names();
    let d = text::decimal(n as nat);
    lemma_number(n as int);
    text_laws::law_decimal(n as nat);
    assert(text::signed_decimal(n as int) == d);
    let e = d.push('%');
    assert(e[0] == d[0] && e[e.len() - 1] == '%');
    assert forall|c: char| c == ',' implies !d.contains(c) && !e.contains(c) by {
        if d.contains(c) {
            let i = choose|i: int| 0 <= i < d.len() && d[i] == c;
            assert(chars::is_digit(d[i]));
        }
        if e.contains(c) {
            let i = choose|i: int| 0 <= i < e.len() && e[i] == c;
            if i < d.len() {
                assert(chars::is_digit(d[i]));
            }
        }
    }
    assert(hint_parts(tag, seq![d]));
    assert(hint_parts(tag, seq![e]));
    lemma_hint(tag, seq![d]);
    lemma_hint(tag, seq![e]);
    assert(e.drop_last() =~= d);
    assert(d.last() == d[d.len() - 1]);
    assert(chars::is_digit(d[d.len() - 1]));
    lemma_snug_trim(d);
}

/// A hint of any other name is kept: its tag as it stands and all its arguments.
pub proof fn law_other_hint(tag: Seq<char>, args: Seq<Seq<char>>)
    requires
        hint_parts(tag, args),
        !chars::same_ignoring_case(tag, "pip"@),
        !chars::same_ignoring_case(tag, "mask"@),
        !chars::same_ignoring_case(tag, "transparent"@),
    ensures
        display_hint::hint_in(hint_text(tag, args)) == Ok::<HintView, Fault>(
            HintView::Other { tag, arguments: args },
        ),
{
    lemma_names();
    lemma_hint(tag, args);
}

/// A hint without an opening bracket, without a closing one at its end, or
/// without a tag is refused.
pub proof fn law_hint_faults(raw: Seq<char>)
    requires
        chars::snug(raw),
    ensures
        !raw.contains('(') ==> display_hint::hint_in(raw) is Err,
        raw[raw.len() - 1] != ')' ==> display_hint::hint_in(raw) is Err,
        raw[0] == '(' ==> display_hint::hint_in(raw) is Err,
{
    lemma_snug_trim(raw);
    if !raw.contains('(') {
        text_laws::lemma_find_none(raw, '(', 0);
    }
    if raw[0] == '(' {
        text_laws::lemma_find_is(raw, '(', 0, 0);
        let none = Seq::<char>::empty();
        assert(raw.take(0) =~= none);
        assert(none + none + none =~= none);
        chars::law_trim_pad(none, none, none);
    }
}

// ---------------------------------------------------------------------------
// Titles
// ---------------------------------------------------------------------------
/// A pair of quotes around a title is not shown; a title that does not both begin
/// and end with one is shown as it stands.
pub proof fn law_quotes(s: Seq<char>)
    ensures
        title_name::without_quotes(seq!['"'] + s + seq!['"']) == s,
        s.len() < 2 || s[0] != '"' || s[s.len() - 1] != '"' ==> title_name::without_quotes(s) == s,
{
    let q = seq!['"'] + s + seq!['"'];
    assert(q[0] == '"' && q[q.len() - 1] == '"');
    assert(q.subrange(1, q.len() - 1) =~= s);
}

// ---------------------------------------------------------------------------
// Granules
// ---------------------------------------------------------------------------
/// A granule position that names a keyframe and a distance from it names the
/// granule at that distance.
pub proof fn law_granules(b: FisBoneView, keyframe: int, distance: int)
    requires
        b.granuleshift < 63,
        0 <= distance < power2::pow2(b.granuleshift as nat),
        0 <= keyframe,
        keyframe * power2::pow2(b.granuleshift as nat) + distance <= i64::MAX,
    ensures
        b.granules_of(
            (keyframe * power2::pow2(b.granuleshift as nat) + distance) as i64,
        ) == keyframe + distance,
{
    let unit = power2::pow2(b.granuleshift as nat) as int;
    let g = keyframe * unit + distance;
    assert(g >= 0) by (nonlinear_arith)
        requires
            keyframe >= 0,
            unit > 0,
            distance >= 0,
            g == keyframe * unit + distance,
    ;
    vstd::arithmetic::div_mod::lemma_fundamental_div_mod_converse(g, unit, keyframe, distance);
}

// ---------------------------------------------------------------------------
// Looking up
// ---------------------------------------------------------------------------
/// Looking up a serial finds the first packet on it, and nothing exactly where
/// there is none.
pub proof fn law_bone_for(bones: Seq<FisBoneView>, serial: u32)
    ensures
        match state::bone_for(bones, serial) {
            Some(b) => exists|i: int|
                0 <= i < bones.len() && #[trigger] bones[i] == b && b.serial == serial && forall|
                    j: int,
                |
                    0 <= j < i ==> (#[trigger] bones[j]).serial != serial,
            None => forall|i: int| 0 <= i < bones.len() ==> (#[trigger] bones[i]).serial != serial,
        },
    decreases bones.len(),
{
    if bones.len() > 0 && bones[0].serial != serial {
        let rest = bones.skip(1);
        law_bone_for(rest, serial);
        assert forall|j: int| 0 < j < bones.len() implies bones[j] == rest[j - 1] by {}
        if let Some(b) = state::bone_for(bones, serial) {
            let i = choose|i: int|
                0 <= i < rest.len() && #[trigger] rest[i] == b && b.serial == serial && forall|
                    j: int,
                |
                    0 <= j < i ==> (#[trigger] rest[j]).serial != serial;
            assert(bones[i + 1] == b);
            assert forall|j: int| 0 <= j < i + 1 implies (#[trigger] bones[j]).serial
                != serial by {
                if j > 0 {
                    assert(rest[j - 1].serial != serial);
                }
            }
        } else {
            assert forall|i: int| 0 <= i < bones.len() implies (#[trigger] bones[i]).serial
                != serial by {
                if i > 0 {
                    assert(rest[i - 1].serial != serial);
                }
            }
        }
    } else if bones.len() > 0 {
        assert(bones[0].serial == serial);
    }
}

/// Looking up a serial finds the first index of it, and nothing exactly where
/// there is none.
pub proof fn law_index_for(indexes: Seq<SkelIndexView>, serial: u32)
    ensures
        match state::index_for(indexes, serial) {
            Some(b) => exists|i: int|
                0 <= i < indexes.len() && #[trigger] indexes[i] == b && b.serial == serial
                    && forall|j: int| 0 <= j < i ==> (#[trigger] indexes[j]).serial != serial,
            None => forall|i: int|
                0 <= i < indexes.len() ==> (#[trigger] indexes[i]).serial != serial,
        },
    decreases indexes.len(),
{
    if indexes.len() > 0 && indexes[0].serial != serial {
        let rest = indexes.skip(1);
        law_index_for(rest, serial);
        assert forall|j: int| 0 < j < indexes.len() implies indexes[j] == rest[j - 1] by {}
        if let Some(b) = state::index_for(indexes, serial) {
            let i = choose|i: int|
                0 <= i < rest.len() && #[trigger] rest[i] == b && b.serial == serial && forall|
                    j: int,
                |
                    0 <= j < i ==> (#[trigger] rest[j]).serial != serial;
            assert(indexes[i + 1] == b);
            assert forall|j: int| 0 <= j < i + 1 implies (#[trigger] indexes[j]).serial
                != serial by {
                if j > 0 {
                    assert(rest[j - 1].serial != serial);
                }
            }
        } else {
            assert forall|i: int| 0 <= i < indexes.len() implies (#[trigger] indexes[i]).serial
                != serial by {
                if i > 0 {
                    assert(rest[i - 1].serial != serial);
                }
            }
        }
    } else if indexes.len() > 0 {
        assert(indexes[0].serial == serial);
    }
}

/// The packet of a bone whose message headers begin `gap` later than right behind
/// the fields.
pub open spec fn spaced(b: FisBoneView, gap: Seq<u8>) -> Seq<u8> {
    b.fixed_part().take(8) + bytes::u32_le((44 + gap.len()) as u32) + b.fixed_part().skip(12) + gap
        + bone::headers_encoded(b.headers)
}

/// The message headers of a bone are read from where the packet says that they
/// begin, whatever stands before them.
pub proof fn law_bone_spaced(b: FisBoneView, gap: Seq<u8>)
    requires
        bone::all_plain(b.headers),
        44 + gap.len() <= u32::MAX,
    ensures
        bone::parsed_bone(spaced(b, gap)) == Ok::<FisBoneView, Error>(b),
{
    bone::law_bone_round_trip(b);
    let (p, q) = (b.encoded(), spaced(b, gap));
    let offset = (44 + gap.len()) as u32;
    let fixed = b.fixed_part();
    assert(fixed.len() == 52);
    assert(p.take(8) =~= q.take(8));
    assert(bytes::le_u32(q.skip(8)) == offset) by {
        assert(q.skip(8) =~= bytes::u32_le(offset) + q.skip(12));
        bytes::law_u32_le_round_trip(offset, q.skip(12));
    }
    assert(bytes::le_u32(p.skip(8)) == 44) by {
        assert(p.skip(8) =~= bytes::u32_le(44) + p.skip(12));
        bytes::law_u32_le_round_trip(44, p.skip(12));
    }
    assert(p.skip(52) =~= q.skip(8 + offset as int));
    let same = fixed.skip(12);
    assert(p.skip(12) =~= same + p.skip(52));
    assert(q.skip(12) =~= same + q.skip(52));
    lemma_fields(p, q, same);
}

/// Two packets with the same 40 bytes behind the offset have the same fields.
proof fn lemma_fields(p: Seq<u8>, q: Seq<u8>, same: Seq<u8>)
    requires
        same.len() == 40,
        p.len() >= 52,
        q.len() >= 52,
        p.skip(12) == same + p.skip(52),
        q.skip(12) == same + q.skip(52),
    ensures
        bytes::le_u32(p.skip(12)) == bytes::le_u32(q.skip(12)),
        bytes::le_u32(p.skip(16)) == bytes::le_u32(q.skip(16)),
        bytes::le_i64(p.skip(20)) == bytes::le_i64(q.skip(20)),
        bytes::le_i64(p.skip(28)) == bytes::le_i64(q.skip(28)),
        bytes::le_i64(p.skip(36)) == bytes::le_i64(q.skip(36)),
        bytes::le_u32(p.skip(44)) == bytes::le_u32(q.skip(44)),
        p[48] == q[48],
{
    assert forall|i: int| 12 <= i < 52 implies #[trigger] p[i] == #[trigger] q[i] by {
        assert(p.skip(12)[i - 12] == same[i - 12]);
        assert(q.skip(12)[i - 12] == same[i - 12]);
    }
    lemma_word(p, q, 12);
    lemma_word(p, q, 16);
    lemma_long(p, q, 20);
    lemma_long(p, q, 28);
    lemma_long(p, q, 36);
    lemma_word(p, q, 44);
}

proof fn lemma_word(p: Seq<u8>, q: Seq<u8>, at: int)
    requires
        0 <= at,
        at + 4 <= p.len(),
        at + 4 <= q.len(),
        forall|i: int| at <= i < at + 4 ==> #[trigger] p[i] == #[trigger] q[i],
    ensures
        bytes::le_u32(p.skip(at)) == bytes::le_u32(q.skip(at)),
{
    reveal(bytes::le_u32);
    let (a, b) = (p.skip(at), q.skip(at));
    assert(a[0] == b[0] && a[1] == b[1] && a[2] == b[2] && a[3] == b[3]);
}

proof fn lemma_long(p: Seq<u8>, q: Seq<u8>, at: int)
    requires
        0 <= at,
        at + 8 <= p.len(),
        at + 8 <= q.len(),
        forall|i: int| at <= i < at + 8 ==> #[trigger] p[i] == #[trigger] q[i],
    ensures
        bytes::le_i64(p.skip(at)) == bytes::le_i64(q.skip(at)),
{
    reveal(bytes::le_u64);
    lemma_word(p, q, at);
    lemma_word(p, q, at + 4);
    assert(p.skip(at).skip(4) =~= p.skip(at + 4));
    assert(q.skip(at).skip(4) =~= q.skip(at + 4));
}

} // verus!
