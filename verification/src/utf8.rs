//! Bytes as text.
use vstd::prelude::*;
use vstd::utf8;

verus! {

/// What `String::from_utf8_lossy` reads in bytes. Of bytes that are not UTF-8
/// nothing more is known than that the text depends on the bytes alone.
pub uninterp spec fn lossy_text(bytes: Seq<u8>) -> Seq<char>;

/// The text that bytes stand for: what they decode to, and where they are not
/// UTF-8 what the standard library makes of them.
pub open spec fn text_of(bytes: Seq<u8>) -> Seq<char> {
    if utf8::valid_utf8(bytes) {
        utf8::decode_utf8(bytes)
    } else {
        lossy_text(bytes)
    }
}

/// Every ASCII character of a text stands as a byte in `bytes`.
pub open spec fn ascii_from(text: Seq<char>, bytes: Seq<u8>) -> bool {
    forall|i: int|
        0 <= i < text.len() && (#[trigger] text[i] as u32) < 0x80 ==> bytes.contains(
            text[i] as u8,
        )
}

/// Calls `String::from_utf8_lossy` of the standard library and keeps an owned
/// copy. The text is a function of the bytes, and bytes that are UTF-8 are
/// decoded as they stand. Only the replacement character, which is not ASCII,
/// comes into the text from elsewhere; where it goes is left unsaid.
#[verifier::external_body]
fn from_utf8_lossy(bytes: &[u8]) -> (text: String)
    ensures
        text@ == lossy_text(bytes@),
        utf8::valid_utf8(bytes@) ==> text@ == utf8::decode_utf8(bytes@),
        ascii_from(text@, bytes@),
{
    String::from_utf8_lossy(bytes).into_owned()
}

/// Reads bytes as text.
pub fn read_text(bytes: &[u8]) -> (text: String)
    ensures
        text@ == text_of(bytes@),
        ascii_from(text@, bytes@),
{
    from_utf8_lossy(bytes)
}

/// Text that was written as UTF-8 reads back as it was.
pub proof fn law_text_round_trip(text: Seq<char>)
    ensures
        text_of(utf8::encode_utf8(text)) == text,
{
    utf8::encode_utf8_valid_utf8(text);
    utf8::encode_utf8_decode_utf8(text);
}

/// A byte below `0x80` stands in encoded text only where the text holds its
/// character.
pub proof fn lemma_ascii_byte(text: Seq<char>, c: char, b: u8)
    requires
        b < 0x80,
        c as u32 == b as u32,
        forall|i: int| 0 <= i < text.len() ==> text[i] != c,
    ensures
        forall|i: int|
            0 <= i < utf8::encode_utf8(text).len() ==> utf8::encode_utf8(text)[i] != b,
    decreases text.len(),
{
    if text.len() > 0 {
        let v = text[0] as u32;
        let head = utf8::encode_scalar(v);
        utf8::char_is_scalar(text[0]);
        utf8::char_u32_cast(text[0], v);
        utf8::char_u32_cast(c, c as u32);
        assert(v != b as u32);
        lemma_ascii_byte(text.drop_first(), c, b);
        assert(v < 0x80 ==> utf8::leading_byte_width_1(v) as u32 == v) by (bit_vector);
        assert(utf8::leading_byte_width_2(v) >= 0x80 && utf8::leading_byte_width_3(v) >= 0x80
            && utf8::leading_byte_width_4(v) >= 0x80 && utf8::last_continuation_byte(v) >= 0x80
            && utf8::second_last_continuation_byte(v) >= 0x80
            && utf8::third_last_continuation_byte(v) >= 0x80) by (bit_vector);
        assert(forall|i: int| 0 <= i < head.len() ==> head[i] != b);
        let rest = utf8::encode_utf8(text.drop_first());
        assert(utf8::encode_utf8(text) == head + rest);
        assert forall|i: int| 0 <= i < utf8::encode_utf8(text).len() implies utf8::encode_utf8(
            text,
        )[i] != b by {
            if i >= head.len() {
                assert(rest[i - head.len()] != b);
            }
        }
    }
}

} // verus!
