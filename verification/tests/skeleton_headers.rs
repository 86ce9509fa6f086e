//! Skeleton message headers.
use oxideav_ogg::single::Single;
use oxideav_ogg::skeleton::{
    ContentTypeKind, DisplayCoord, DisplayHint, FisBone, Rational, Role, RoleKind,
};

fn bone_with(name: &str, value: &str) -> FisBone {
    let mut b = FisBone::new(1, Rational::new(48_000, 1));
    b.set_header(name, value);
    b
}

fn percent(value: f32) -> DisplayCoord {
    DisplayCoord::Percent(Single::from_bits(value.to_bits()))
}

#[test]
fn role_returns_none_when_header_absent() {
    let b = FisBone::new(1, Rational::new(48_000, 1));
    assert!(b.role().is_none());
    assert!(b.languages().is_none());
}

#[test]
fn role_parses_each_documented_text_role() {
    let cases = [
        ("text/caption", RoleKind::TextCaption),
        ("text/subtitle", RoleKind::TextSubtitle),
        ("text/textaudiodesc", RoleKind::TextTextAudioDesc),
        ("text/karaoke", RoleKind::TextKaraoke),
        ("text/chapters", RoleKind::TextChapters),
        ("text/tickertext", RoleKind::TextTickerText),
        ("text/lyrics", RoleKind::TextLyrics),
        ("text/metadata", RoleKind::TextMetadata),
        ("text/annotation", RoleKind::TextAnnotation),
        ("text/linguistic", RoleKind::TextLinguistic),
    ];
    for (wire, expected) in cases {
        let r = Role::parse(wire);
        assert_eq!(r.kind, expected, "{wire}");
        assert!(r.parameters.is_empty(), "{wire}");
        assert!(r.kind.is_text(), "{wire}");
        assert!(!r.kind.is_video(), "{wire}");
        assert!(!r.kind.is_audio(), "{wire}");
        assert_eq!(r.kind.as_wire(), wire);
    }
}

#[test]
fn role_parses_each_documented_video_role() {
    let cases = [
        ("video/main", RoleKind::VideoMain),
        ("video/alternate", RoleKind::VideoAlternate),
        ("video/sign", RoleKind::VideoSign),
        ("video/captioned", RoleKind::VideoCaptioned),
        ("video/subtitled", RoleKind::VideoSubtitled),
    ];
    for (wire, expected) in cases {
        let r = Role::parse(wire);
        assert_eq!(r.kind, expected, "{wire}");
        assert!(r.kind.is_video(), "{wire}");
        assert!(!r.kind.is_text(), "{wire}");
        assert!(!r.kind.is_audio(), "{wire}");
        assert_eq!(r.kind.as_wire(), wire);
    }
}

#[test]
fn role_parses_each_documented_audio_role() {
    let cases = [
        ("audio/main", RoleKind::AudioMain),
        ("audio/alternate", RoleKind::AudioAlternate),
        ("audio/dub", RoleKind::AudioDub),
        ("audio/audiodesc", RoleKind::AudioAudioDesc),
        ("audio/described", RoleKind::AudioDescribed),
        ("audio/music", RoleKind::AudioMusic),
        ("audio/speech", RoleKind::AudioSpeech),
        ("audio/sfx", RoleKind::AudioSfx),
        ("audio/commentary", RoleKind::AudioCommentary),
    ];
    for (wire, expected) in cases {
        let r = Role::parse(wire);
        assert_eq!(r.kind, expected, "{wire}");
        assert!(r.kind.is_audio(), "{wire}");
        assert!(!r.kind.is_text(), "{wire}");
        assert!(!r.kind.is_video(), "{wire}");
        assert_eq!(r.kind.as_wire(), wire);
    }
}

#[test]
fn role_parses_with_wiki_example_parameter() {
    let r = Role::parse("video/alternate;angle=nw");
    assert_eq!(r.kind, RoleKind::VideoAlternate);
    assert_eq!(r.parameters.len(), 1);
    assert_eq!(r.parameter("angle"), Some("nw"));
    assert_eq!(r.parameter("Angle"), Some("nw"));
    assert_eq!(r.parameter("ANGLE"), Some("nw"));
    assert_eq!(r.parameter("missing"), None);
}

#[test]
fn role_case_insensitive_on_tag_and_whitespace_tolerant() {
    let r = Role::parse("  Video/Alternate ; ANGLE = nw ");
    assert_eq!(r.kind, RoleKind::VideoAlternate);
    assert_eq!(r.parameter("angle"), Some("nw"));
}

#[test]
fn role_unknown_tag_maps_to_other_preserving_case() {
    let r = Role::parse("application/vendor-x;profile=2");
    assert_eq!(r.kind, RoleKind::Other("application/vendor-x".to_string()));
    assert_eq!(r.kind.as_wire(), "application/vendor-x");
    assert_eq!(r.parameter("profile"), Some("2"));
    assert!(!r.kind.is_text() && !r.kind.is_video() && !r.kind.is_audio());
}

#[test]
fn role_parameter_without_equals_yields_empty_value() {
    let r = Role::parse("audio/main;flag");
    assert_eq!(r.kind, RoleKind::AudioMain);
    assert_eq!(r.parameters, vec![("flag".to_string(), String::new())]);
    assert_eq!(r.parameter("flag"), Some(""));
}

#[test]
fn role_multiple_parameters_preserve_order_and_lookup() {
    let r = Role::parse("video/alternate;angle=nw;quality=high");
    assert_eq!(
        r.parameters,
        vec![
            ("angle".to_string(), "nw".to_string()),
            ("quality".to_string(), "high".to_string()),
        ]
    );
    assert_eq!(r.parameter("Quality"), Some("high"));
}

#[test]
fn role_through_fisbone_accessor_round_trips_via_set_header() {
    let b = bone_with("Role", "video/alternate;angle=nw");
    let r = b.role().expect("role present");
    assert_eq!(r.kind, RoleKind::VideoAlternate);
    assert_eq!(r.parameter("angle"), Some("nw"));
}

#[test]
fn role_lookup_is_case_insensitive_on_header_name() {
    let mut b = FisBone::new(1, Rational::new(48_000, 1));
    b.set_header("role", "audio/main");
    assert_eq!(b.role().map(|r| r.kind), Some(RoleKind::AudioMain));
}

#[test]
fn languages_parses_wiki_example() {
    let b = bone_with("Language", "en-US, fr");
    assert_eq!(b.languages(), Some(vec!["en-US", "fr"]));
}

#[test]
fn languages_handles_single_tag() {
    let b = bone_with("Language", "de-DE");
    assert_eq!(b.languages(), Some(vec!["de-DE"]));
}

#[test]
fn languages_drops_empty_fragments() {
    let b = bone_with("Language", "en-US,, fr,");
    assert_eq!(b.languages(), Some(vec!["en-US", "fr"]));
}

#[test]
fn languages_trims_surrounding_whitespace_on_each_tag() {
    let b = bone_with("Language", "   en-US ,   fr   ");
    assert_eq!(b.languages(), Some(vec!["en-US", "fr"]));
}

#[test]
fn languages_returns_empty_vec_when_value_is_blank() {
    let b = bone_with("Language", "");
    assert_eq!(b.languages(), Some(vec![]));
}

#[test]
fn altitude_returns_none_when_header_absent() {
    let b = FisBone::new(1, Rational::new(48_000, 1));
    assert!(b.altitude().is_none());
}

#[test]
fn altitude_parses_wiki_example_value() {
    let b = bone_with("Altitude", "-150");
    assert_eq!(b.altitude().expect("present").expect("valid"), -150);
}

#[test]
fn altitude_parses_positive_integer() {
    let b = bone_with("Altitude", "42");
    assert_eq!(b.altitude().expect("present").expect("valid"), 42);
}

#[test]
fn altitude_parses_zero() {
    let b = bone_with("Altitude", "0");
    assert_eq!(b.altitude().expect("present").expect("valid"), 0);
}

#[test]
fn altitude_trims_surrounding_whitespace() {
    let b = bone_with("Altitude", "   -150   ");
    assert_eq!(b.altitude().expect("present").expect("valid"), -150);
}

#[test]
fn altitude_at_i64_bounds_round_trips() {
    let b_max = bone_with("Altitude", "9223372036854775807");
    assert_eq!(b_max.altitude().expect("present").expect("valid"), i64::MAX);
    let b_min = bone_with("Altitude", "-9223372036854775808");
    assert_eq!(b_min.altitude().expect("present").expect("valid"), i64::MIN);
}

#[test]
fn altitude_value_above_i64_max_yields_inner_err() {
    let b = bone_with("Altitude", "9223372036854775808");
    let parsed = b.altitude().expect("header present");
    assert!(parsed.is_err());
}

#[test]
fn altitude_non_integer_value_yields_inner_err() {
    let b = bone_with("Altitude", "top");
    let parsed = b.altitude().expect("header present");
    assert!(parsed.is_err());
}

#[test]
fn altitude_blank_value_yields_inner_err() {
    let b = bone_with("Altitude", "");
    let parsed = b.altitude().expect("header present");
    assert!(parsed.is_err());
}

#[test]
fn altitude_lookup_is_case_insensitive_on_header_name() {
    let mut b = FisBone::new(1, Rational::new(48_000, 1));
    b.set_header("altitude", "-1");
    assert_eq!(b.altitude().expect("present").expect("valid"), -1);
    let mut b2 = FisBone::new(1, Rational::new(48_000, 1));
    b2.set_header("Altitude", "7");
    assert_eq!(b2.altitude().expect("present").expect("valid"), 7);
}

#[test]
fn altitude_decimal_value_yields_inner_err() {
    let b = bone_with("Altitude", "1.5");
    let parsed = b.altitude().expect("header present");
    assert!(parsed.is_err());
}

#[test]
fn altitude_through_set_header_replace() {
    let mut b = FisBone::new(1, Rational::new(48_000, 1));
    b.set_header("Altitude", "10");
    b.set_header("ALTITUDE", "-3");
    assert_eq!(b.altitude().expect("present").expect("valid"), -3);
}

#[test]
fn display_hint_returns_none_when_header_absent() {
    let b = FisBone::new(1, Rational::new(48_000, 1));
    assert!(b.display_hint().is_none());
}

#[test]
fn display_hint_parses_wiki_pip_two_arg_percent_example() {
    let b = bone_with("Display-hint", "pip(20%,20%)");
    let parsed = b.display_hint().expect("present").expect("valid");
    assert_eq!(
        parsed,
        DisplayHint::Pip {
            x: percent(20.0),
            y: percent(20.0),
            width: None,
            height: None,
        }
    );
}

#[test]
fn display_hint_parses_wiki_pip_four_arg_pixel_example() {
    let b = bone_with("Display-hint", "pip(40,40,690,60)");
    let parsed = b.display_hint().expect("present").expect("valid");
    assert_eq!(
        parsed,
        DisplayHint::Pip {
            x: DisplayCoord::Pixels(40),
            y: DisplayCoord::Pixels(40),
            width: Some(DisplayCoord::Pixels(690)),
            height: Some(DisplayCoord::Pixels(60)),
        }
    );
}

#[test]
fn display_hint_pip_rejects_three_arguments() {
    let b = bone_with("Display-hint", "pip(10,20,30)");
    let parsed = b.display_hint().expect("present");
    assert!(parsed.is_err());
}

#[test]
fn display_hint_pip_mixed_pixel_and_percent() {
    let b = bone_with("Display-hint", "pip(50%,30,75%,20)");
    let parsed = b.display_hint().expect("present").expect("valid");
    assert_eq!(
        parsed,
        DisplayHint::Pip {
            x: percent(50.0),
            y: DisplayCoord::Pixels(30),
            width: Some(percent(75.0)),
            height: Some(DisplayCoord::Pixels(20)),
        }
    );
}

#[test]
fn display_hint_parses_wiki_mask_one_arg_example() {
    let b = bone_with("Display-hint", "mask(http://www.example.com/image.png)");
    let parsed = b.display_hint().expect("present").expect("valid");
    assert_eq!(
        parsed,
        DisplayHint::Mask {
            image: "http://www.example.com/image.png".to_string(),
            x: None,
            y: None,
            width: None,
            height: None,
        }
    );
}

#[test]
fn display_hint_parses_wiki_mask_three_arg_example() {
    let b = bone_with(
        "Display-hint",
        "mask(http://www.example.com/image.png,30%,25%)",
    );
    let parsed = b.display_hint().expect("present").expect("valid");
    assert_eq!(
        parsed,
        DisplayHint::Mask {
            image: "http://www.example.com/image.png".to_string(),
            x: Some(percent(30.0)),
            y: Some(percent(25.0)),
            width: None,
            height: None,
        }
    );
}

#[test]
fn display_hint_parses_wiki_mask_five_arg_example() {
    let b = bone_with(
        "Display-hint",
        "mask(http://www.example.com/image.png,20,20,400,320)",
    );
    let parsed = b.display_hint().expect("present").expect("valid");
    assert_eq!(
        parsed,
        DisplayHint::Mask {
            image: "http://www.example.com/image.png".to_string(),
            x: Some(DisplayCoord::Pixels(20)),
            y: Some(DisplayCoord::Pixels(20)),
            width: Some(DisplayCoord::Pixels(400)),
            height: Some(DisplayCoord::Pixels(320)),
        }
    );
}

#[test]
fn display_hint_mask_rejects_two_arguments() {
    let b = bone_with("Display-hint", "mask(url,10%)");
    let parsed = b.display_hint().expect("present");
    assert!(parsed.is_err());
}

#[test]
fn display_hint_parses_wiki_transparent_examples() {
    for (raw, expect) in [("transparent(25%)", 25u8), ("transparent(7%)", 7u8)] {
        let b = bone_with("Display-hint", raw);
        let parsed = b.display_hint().expect("present").expect("valid");
        assert_eq!(parsed, DisplayHint::Transparent { percent: expect });
    }
}

#[test]
fn display_hint_transparent_accepts_zero_and_hundred_bounds() {
    for v in [0u8, 100u8] {
        let raw = format!("transparent({v}%)");
        let b = bone_with("Display-hint", &raw);
        let parsed = b.display_hint().expect("present").expect("valid");
        assert_eq!(parsed, DisplayHint::Transparent { percent: v });
    }
}

#[test]
fn display_hint_transparent_rejects_value_above_100() {
    let b = bone_with("Display-hint", "transparent(150%)");
    let parsed = b.display_hint().expect("present");
    assert!(parsed.is_err());
}

#[test]
fn display_hint_transparent_rejects_non_integer() {
    let b = bone_with("Display-hint", "transparent(25.5%)");
    let parsed = b.display_hint().expect("present");
    assert!(parsed.is_err());
}

#[test]
fn display_hint_unknown_tag_yields_other() {
    let b = bone_with("Display-hint", "vendor-zoom(2.0)");
    let parsed = b.display_hint().expect("present").expect("valid");
    assert_eq!(
        parsed,
        DisplayHint::Other {
            tag: "vendor-zoom".to_string(),
            arguments: vec!["2.0".to_string()],
        }
    );
}

#[test]
fn display_hint_unknown_tag_preserves_multiple_arguments() {
    let b = bone_with("Display-hint", "fancy(a,b,c,d)");
    let parsed = b.display_hint().expect("present").expect("valid");
    assert_eq!(
        parsed,
        DisplayHint::Other {
            tag: "fancy".to_string(),
            arguments: vec![
                "a".to_string(),
                "b".to_string(),
                "c".to_string(),
                "d".to_string(),
            ],
        }
    );
}

#[test]
fn display_hint_rejects_missing_open_paren() {
    let b = bone_with("Display-hint", "pip 20%,20%");
    let parsed = b.display_hint().expect("present");
    assert!(parsed.is_err());
}

#[test]
fn display_hint_rejects_missing_close_paren() {
    let b = bone_with("Display-hint", "pip(20%,20%");
    let parsed = b.display_hint().expect("present");
    assert!(parsed.is_err());
}

#[test]
fn display_hint_rejects_empty_tag() {
    let b = bone_with("Display-hint", "(20%,20%)");
    let parsed = b.display_hint().expect("present");
    assert!(parsed.is_err());
}

#[test]
fn display_hint_trims_surrounding_whitespace_on_value_and_args() {
    let b = bone_with("Display-hint", "  pip( 10 , 20 , 30 , 40 )  ");
    let parsed = b.display_hint().expect("present").expect("valid");
    assert_eq!(
        parsed,
        DisplayHint::Pip {
            x: DisplayCoord::Pixels(10),
            y: DisplayCoord::Pixels(20),
            width: Some(DisplayCoord::Pixels(30)),
            height: Some(DisplayCoord::Pixels(40)),
        }
    );
}

#[test]
fn display_hint_pip_lowercase_tag_match_is_case_insensitive() {
    let b = bone_with("Display-hint", "PIP(10%,10%)");
    let parsed = b.display_hint().expect("present").expect("valid");
    assert_eq!(
        parsed,
        DisplayHint::Pip {
            x: percent(10.0),
            y: percent(10.0),
            width: None,
            height: None,
        }
    );
}

#[test]
fn display_hint_lookup_is_case_insensitive_on_header_name() {
    let mut b = FisBone::new(1, Rational::new(48_000, 1));
    b.set_header("display-hint", "transparent(40%)");
    let parsed = b.display_hint().expect("present").expect("valid");
    assert_eq!(parsed, DisplayHint::Transparent { percent: 40 });

    let mut b2 = FisBone::new(1, Rational::new(48_000, 1));
    b2.set_header("DISPLAY-HINT", "transparent(60%)");
    let parsed2 = b2.display_hint().expect("present").expect("valid");
    assert_eq!(parsed2, DisplayHint::Transparent { percent: 60 });
}

#[test]
fn display_hint_through_set_header_replace() {
    let mut b = FisBone::new(1, Rational::new(48_000, 1));
    b.set_header("Display-hint", "transparent(10%)");
    b.set_header("DISPLAY-HINT", "transparent(80%)");
    let parsed = b.display_hint().expect("present").expect("valid");
    assert_eq!(parsed, DisplayHint::Transparent { percent: 80 });
}

#[test]
fn display_hint_pip_rejects_non_numeric_coordinate() {
    let b = bone_with("Display-hint", "pip(abc,10%)");
    let parsed = b.display_hint().expect("present");
    assert!(parsed.is_err());
}

#[test]
fn display_hint_mask_preserves_image_url_as_first_arg_verbatim() {
    let b = bone_with("Display-hint", "mask(file:///opt/share/masks/circle.png)");
    let parsed = b.display_hint().expect("present").expect("valid");
    assert_eq!(
        parsed,
        DisplayHint::Mask {
            image: "file:///opt/share/masks/circle.png".to_string(),
            x: None,
            y: None,
            width: None,
            height: None,
        }
    );
}

#[test]
fn content_type_returns_none_when_header_absent() {
    let b = FisBone::new(1, Rational::new(48_000, 1));
    assert!(b.content_type().is_none());
}

#[test]
fn content_type_parses_wiki_audio_vorbis_example() {
    let b = bone_with("Content-Type", "audio/vorbis");
    let ct = b.content_type().expect("present").expect("valid");
    assert_eq!(ct.kind, ContentTypeKind::Audio);
    assert!(ct.kind.is_audio());
    assert!(!ct.kind.is_video());
    assert!(!ct.kind.is_text());
    assert_eq!(ct.subtype, "vorbis");
    assert!(ct.subtype_eq("Vorbis"));
    assert!(ct.parameters.is_empty());
    assert_eq!(ct.kind.as_wire(), "audio");
}

#[test]
fn content_type_parses_wiki_video_theora_example() {
    let b = bone_with("Content-Type", "video/theora");
    let ct = b.content_type().expect("present").expect("valid");
    assert_eq!(ct.kind, ContentTypeKind::Video);
    assert!(ct.kind.is_video());
    assert_eq!(ct.subtype, "theora");
    assert_eq!(ct.kind.as_wire(), "video");
}

#[test]
fn content_type_each_well_known_top_level_kind() {
    let cases = [
        ("audio/opus", ContentTypeKind::Audio, "opus"),
        ("video/theora", ContentTypeKind::Video, "theora"),
        ("text/caption", ContentTypeKind::Text, "caption"),
        ("image/png", ContentTypeKind::Image, "png"),
        ("application/kate", ContentTypeKind::Application, "kate"),
    ];
    for (wire, expected_kind, expected_subtype) in cases {
        let b = bone_with("Content-Type", wire);
        let ct = b.content_type().expect("present").expect("valid");
        assert_eq!(ct.kind, expected_kind, "{wire}");
        assert_eq!(ct.subtype, expected_subtype, "{wire}");
    }
}

#[test]
fn content_type_unknown_top_level_maps_to_other_preserving_case() {
    let b = bone_with("Content-Type", "Multipart/Mixed");
    let ct = b.content_type().expect("present").expect("valid");
    match ct.kind {
        ContentTypeKind::Other(s) => assert_eq!(s, "Multipart"),
        other => panic!("expected Other, got {:?}", other),
    }
    assert_eq!(ct.subtype, "Mixed");
}

#[test]
fn content_type_top_level_match_is_case_insensitive() {
    let b = bone_with("Content-Type", "AUDIO/Vorbis");
    let ct = b.content_type().expect("present").expect("valid");
    assert_eq!(ct.kind, ContentTypeKind::Audio);
    assert_eq!(ct.subtype, "Vorbis");
    assert!(ct.subtype_eq("vorbis"));
    assert!(ct.subtype_eq("VORBIS"));
}

#[test]
fn content_type_parses_with_rfc2045_parameter() {
    let b = bone_with("Content-Type", "audio/ogg;codecs=opus");
    let ct = b.content_type().expect("present").expect("valid");
    assert_eq!(ct.kind, ContentTypeKind::Audio);
    assert_eq!(ct.subtype, "ogg");
    assert_eq!(ct.parameters.len(), 1);
    assert_eq!(ct.parameter("codecs"), Some("opus"));
}

#[test]
fn content_type_parameter_lookup_is_case_insensitive() {
    let b = bone_with("Content-Type", "audio/ogg;Codecs=opus");
    let ct = b.content_type().expect("present").expect("valid");
    assert_eq!(ct.parameter("codecs"), Some("opus"));
    assert_eq!(ct.parameter("CODECS"), Some("opus"));
    assert_eq!(ct.parameter("Codecs"), Some("opus"));
    assert_eq!(ct.parameter("missing"), None);
}

#[test]
fn content_type_multiple_parameters_preserve_order_and_lookup() {
    let b = bone_with("Content-Type", "video/mp4;codecs=avc1.42E01E;profiles=mp42");
    let ct = b.content_type().expect("present").expect("valid");
    assert_eq!(ct.kind, ContentTypeKind::Video);
    assert_eq!(ct.subtype, "mp4");
    assert_eq!(ct.parameters.len(), 2);
    assert_eq!(ct.parameters[0].0, "codecs");
    assert_eq!(ct.parameters[0].1, "avc1.42E01E");
    assert_eq!(ct.parameters[1].0, "profiles");
    assert_eq!(ct.parameters[1].1, "mp42");
}

#[test]
fn content_type_parameter_without_equals_yields_empty_value() {
    let b = bone_with("Content-Type", "audio/ogg;flag");
    let ct = b.content_type().expect("present").expect("valid");
    assert_eq!(ct.parameters.len(), 1);
    assert_eq!(ct.parameter("flag"), Some(""));
}

#[test]
fn content_type_empty_parameter_segments_are_dropped() {
    let b = bone_with("Content-Type", "audio/ogg;;codecs=opus;");
    let ct = b.content_type().expect("present").expect("valid");
    assert_eq!(ct.parameters.len(), 1);
    assert_eq!(ct.parameter("codecs"), Some("opus"));
}

#[test]
fn content_type_trims_surrounding_whitespace_on_value_and_params() {
    let b = bone_with("Content-Type", "   audio/vorbis ;  codecs = ogg  ");
    let ct = b.content_type().expect("present").expect("valid");
    assert_eq!(ct.kind, ContentTypeKind::Audio);
    assert_eq!(ct.subtype, "vorbis");
    assert_eq!(ct.parameter("codecs"), Some("ogg"));
}

#[test]
fn content_type_skeleton_self_application_subtype() {
    let b = bone_with("Content-Type", "application/x-ogg-skeleton");
    let ct = b.content_type().expect("present").expect("valid");
    assert!(ct.kind.is_application());
    assert_eq!(ct.subtype, "x-ogg-skeleton");
}

#[test]
fn content_type_missing_slash_yields_inner_err() {
    let b = bone_with("Content-Type", "audio");
    let parsed = b.content_type().expect("present");
    assert!(parsed.is_err());
}

#[test]
fn content_type_empty_value_yields_inner_err() {
    let b = bone_with("Content-Type", "");
    let parsed = b.content_type().expect("present");
    assert!(parsed.is_err());
}

#[test]
fn content_type_empty_subtype_yields_inner_err() {
    let b = bone_with("Content-Type", "audio/");
    let parsed = b.content_type().expect("present");
    assert!(parsed.is_err());
}

#[test]
fn content_type_empty_top_level_yields_inner_err() {
    let b = bone_with("Content-Type", "/vorbis");
    let parsed = b.content_type().expect("present");
    assert!(parsed.is_err());
}

#[test]
fn content_type_blank_value_with_whitespace_yields_inner_err() {
    let b = bone_with("Content-Type", "   ");
    let parsed = b.content_type().expect("present");
    assert!(parsed.is_err());
}

#[test]
fn content_type_lookup_is_case_insensitive_on_header_name() {
    let mut b = FisBone::new(1, Rational::new(48_000, 1));
    b.set_header("content-type", "audio/opus");
    let ct = b.content_type().expect("present").expect("valid");
    assert_eq!(ct.kind, ContentTypeKind::Audio);
    assert_eq!(ct.subtype, "opus");

    let mut b2 = FisBone::new(1, Rational::new(48_000, 1));
    b2.set_header("CONTENT-TYPE", "video/theora");
    let ct2 = b2.content_type().expect("present").expect("valid");
    assert_eq!(ct2.kind, ContentTypeKind::Video);
    assert_eq!(ct2.subtype, "theora");
}

#[test]
fn content_type_through_set_header_replace() {
    let mut b = FisBone::new(1, Rational::new(48_000, 1));
    b.set_header("Content-Type", "audio/vorbis");
    b.set_header("content-type", "audio/opus");
    let ct = b.content_type().expect("present").expect("valid");
    assert_eq!(ct.kind, ContentTypeKind::Audio);
    assert_eq!(ct.subtype, "opus");
    assert_eq!(b.headers.len(), 1, "set_header should replace, not append");
}

#[test]
fn content_type_kind_predicates_are_exclusive() {
    let cases = [
        ContentTypeKind::Audio,
        ContentTypeKind::Video,
        ContentTypeKind::Text,
        ContentTypeKind::Image,
        ContentTypeKind::Application,
    ];
    for k in cases {
        let votes = [
            k.is_audio(),
            k.is_video(),
            k.is_text(),
            k.is_image(),
            k.is_application(),
        ]
        .iter()
        .filter(|b| **b)
        .count();
        assert_eq!(votes, 1, "{:?} matched multiple predicates", k);
    }
    let other = ContentTypeKind::Other("multipart".to_string());
    assert!(!other.is_audio());
    assert!(!other.is_video());
    assert!(!other.is_text());
    assert!(!other.is_image());
    assert!(!other.is_application());
}

#[test]
fn title_wiki_worked_example_strips_outer_quotes() {
    let mut b = FisBone::new(1, Rational::new(48_000, 1));
    b.set_header("Title", "\"the French audio track for the movie\"");
    let t = b.title().expect("title header present");
    assert_eq!(t.raw(), "\"the French audio track for the movie\"");
    assert_eq!(t.display(), "the French audio track for the movie");
    assert!(!t.is_empty());
}

#[test]
fn title_unquoted_value_round_trips_through_both_views() {
    let mut b = FisBone::new(1, Rational::new(48_000, 1));
    b.set_header("Title", "track 3 — Verbier 2019");
    let t = b.title().expect("title header present");
    assert_eq!(t.raw(), "track 3 — Verbier 2019");
    assert_eq!(t.display(), "track 3 — Verbier 2019");
}

#[test]
fn title_trims_surrounding_whitespace_on_value() {
    let mut b = FisBone::new(1, Rational::new(48_000, 1));
    b.set_header("Title", "   padded title   ");
    let t = b.title().expect("title header present");
    assert_eq!(t.raw(), "padded title");
}

#[test]
fn title_empty_quoted_value_collapses_to_empty_display() {
    let mut b = FisBone::new(1, Rational::new(48_000, 1));
    b.set_header("Title", "\"\"");
    let t = b.title().expect("title header present");
    assert_eq!(t.raw(), "\"\"");
    assert_eq!(t.display(), "");
}

#[test]
fn title_inner_quote_is_preserved_through_display() {
    let mut b = FisBone::new(1, Rational::new(48_000, 1));
    b.set_header("Title", "\"the \"main\" audio\"");
    let t = b.title().expect("title header present");
    assert_eq!(t.raw(), "\"the \"main\" audio\"");
    assert_eq!(t.display(), "the \"main\" audio");
}

#[test]
fn title_unbalanced_quote_is_not_stripped() {
    let mut b = FisBone::new(1, Rational::new(48_000, 1));
    b.set_header("Title", "\"only opens");
    let t = b.title().expect("title header present");
    assert_eq!(t.raw(), "\"only opens");
    assert_eq!(t.display(), "\"only opens");

    b.set_header("Title", "only closes\"");
    let t = b.title().expect("title header present");
    assert_eq!(t.display(), "only closes\"");
}

#[test]
fn title_single_quote_character_is_not_a_balanced_pair() {
    let mut b = FisBone::new(1, Rational::new(48_000, 1));
    b.set_header("Title", "\"");
    let t = b.title().expect("title header present");
    assert_eq!(t.raw(), "\"");
    assert_eq!(t.display(), "\"");
}

#[test]
fn title_returns_none_when_header_absent() {
    let b = FisBone::new(1, Rational::new(48_000, 1));
    assert!(b.title().is_none());
}

#[test]
fn title_lookup_is_case_insensitive_on_header_name() {
    let mut b = FisBone::new(1, Rational::new(48_000, 1));
    b.set_header("TITLE", "Lower vs Upper");
    let t = b.title().expect("uppercase header still resolves");
    assert_eq!(t.raw(), "Lower vs Upper");
}

#[test]
fn title_round_trips_through_fisbone_serialization() {
    let mut bone = FisBone::new(0xCAFE, Rational::new(48_000, 1));
    bone.num_headers = 3;
    bone.set_header("Content-Type", "audio/vorbis");
    bone.set_header("Title", "\"the French audio track for the movie\"");
    let bytes = bone.to_bytes();
    let back = FisBone::parse(&bytes).expect("fisbone round-trips");
    let t = back.title().expect("Title survives round trip");
    assert_eq!(t.raw(), "\"the French audio track for the movie\"");
    assert_eq!(t.display(), "the French audio track for the movie");
}

#[test]
fn title_set_header_replace_semantics_update_the_typed_view() {
    let mut b = FisBone::new(1, Rational::new(48_000, 1));
    b.set_header("Title", "old value");
    b.set_header("title", "new value");
    let t = b.title().expect("present");
    assert_eq!(t.raw(), "new value");
    assert_eq!(
        b.headers.len(),
        1,
        "case-insensitive replace must keep the header count at 1"
    );
}

#[test]
fn title_blank_value_yields_empty_raw_and_empty_display() {
    let mut b = FisBone::new(1, Rational::new(48_000, 1));
    b.set_header("Title", "   ");
    let t = b.title().expect("present-but-blank");
    assert_eq!(t.raw(), "");
    assert_eq!(t.display(), "");
    assert!(t.is_empty());
}

#[test]
fn name_wiki_worked_example_round_trips_and_is_well_formed() {
    let mut b = FisBone::new(1, Rational::new(48_000, 1));
    b.set_header("Name", "Madonna_singing");
    let n = b.name().expect("name header present");
    assert_eq!(n.raw(), "Madonna_singing");
    assert!(n.is_well_formed());
    assert!(!n.is_empty());
}

#[test]
fn name_trims_surrounding_whitespace_on_value() {
    let mut b = FisBone::new(1, Rational::new(48_000, 1));
    b.set_header("Name", "   track_a   ");
    let n = b.name().expect("present");
    assert_eq!(n.raw(), "track_a");
    assert!(n.is_well_formed());
}

#[test]
fn name_rejects_digit_prefix() {
    let mut b = FisBone::new(1, Rational::new(48_000, 1));
    b.set_header("Name", "9-track");
    let n = b.name().expect("present");
    assert_eq!(n.raw(), "9-track");
    assert!(!n.is_well_formed());
}

#[test]
fn name_rejects_hyphen_prefix() {
    let mut b = FisBone::new(1, Rational::new(48_000, 1));
    b.set_header("Name", "-track");
    let n = b.name().expect("present");
    assert!(!n.is_well_formed());
}

#[test]
fn name_rejects_dot_prefix() {
    let mut b = FisBone::new(1, Rational::new(48_000, 1));
    b.set_header("Name", ".hidden");
    let n = b.name().expect("present");
    assert!(!n.is_well_formed());
}

#[test]
fn name_accepts_underscore_prefix() {
    let mut b = FisBone::new(1, Rational::new(48_000, 1));
    b.set_header("Name", "_internal");
    let n = b.name().expect("present");
    assert!(n.is_well_formed());
}

#[test]
fn name_accepts_following_chars_after_letter_start() {
    let mut b = FisBone::new(1, Rational::new(48_000, 1));
    b.set_header("Name", "track-2.audio_main");
    let n = b.name().expect("present");
    assert!(n.is_well_formed());
}

#[test]
fn name_rejects_internal_space() {
    let mut b = FisBone::new(1, Rational::new(48_000, 1));
    b.set_header("Name", "two words");
    let n = b.name().expect("present");
    assert_eq!(n.raw(), "two words");
    assert!(!n.is_well_formed());
}

#[test]
fn name_rejects_special_punctuation() {
    for raw in ["a@b", "a:b", "a/b", "a(b)", "a,b", "a=b", "a\"b"] {
        let mut b = FisBone::new(1, Rational::new(48_000, 1));
        b.set_header("Name", raw);
        let n = b.name().expect("present");
        assert!(!n.is_well_formed(), "{raw:?} must be rejected");
    }
}

#[test]
fn name_rejects_empty_value_after_trim() {
    let mut b = FisBone::new(1, Rational::new(48_000, 1));
    b.set_header("Name", "   ");
    let n = b.name().expect("present-but-blank");
    assert_eq!(n.raw(), "");
    assert!(n.is_empty());
    assert!(!n.is_well_formed());
}

#[test]
fn name_accepts_unicode_letter_start() {
    let mut b = FisBone::new(1, Rational::new(48_000, 1));
    b.set_header("Name", "épisode");
    let n = b.name().expect("present");
    assert_eq!(n.raw(), "épisode");
    assert!(n.is_well_formed());
}

#[test]
fn name_accepts_middle_dot_as_following_char() {
    let mut b = FisBone::new(1, Rational::new(48_000, 1));
    b.set_header("Name", "Bel\u{B7}la");
    let n = b.name().expect("present");
    assert!(n.is_well_formed());
}

#[test]
fn name_rejects_middle_dot_prefix() {
    let mut b = FisBone::new(1, Rational::new(48_000, 1));
    b.set_header("Name", "\u{B7}leading");
    let n = b.name().expect("present");
    assert!(!n.is_well_formed());
}

#[test]
fn name_returns_none_when_header_absent() {
    let b = FisBone::new(1, Rational::new(48_000, 1));
    assert!(b.name().is_none());
}

#[test]
fn name_lookup_is_case_insensitive_on_header_name() {
    let mut b = FisBone::new(1, Rational::new(48_000, 1));
    b.set_header("NAME", "track_a");
    let n = b.name().expect("uppercase header still resolves");
    assert_eq!(n.raw(), "track_a");
    assert!(n.is_well_formed());
}

#[test]
fn name_round_trips_through_fisbone_serialization() {
    let mut bone = FisBone::new(0xCAFE, Rational::new(48_000, 1));
    bone.num_headers = 3;
    bone.set_header("Content-Type", "audio/vorbis");
    bone.set_header("Name", "Madonna_singing");
    let bytes = bone.to_bytes();
    let back = FisBone::parse(&bytes).expect("fisbone round-trips");
    let n = back.name().expect("Name survives round trip");
    assert_eq!(n.raw(), "Madonna_singing");
    assert!(n.is_well_formed());
}

#[test]
fn name_set_header_replace_semantics_update_the_typed_view() {
    let mut b = FisBone::new(1, Rational::new(48_000, 1));
    b.set_header("Name", "old_name");
    b.set_header("name", "new_name");
    let n = b.name().expect("present");
    assert_eq!(n.raw(), "new_name");
    assert_eq!(
        b.headers.len(),
        1,
        "case-insensitive replace must keep the header count at 1"
    );
}
