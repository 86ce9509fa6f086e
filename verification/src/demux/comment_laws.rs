//! A comment block is read back as it was written.
use crate::bytes;
use crate::chars;
use crate::demux::comments;
use crate::demux::comments::CommentView;
use crate::utf8;
use vstd::prelude::*;

verus! {

/// A comment as it was written: white space may stand around the key and the
/// value, and letters of the key may be capitals.
pub struct Written {
    pub before: Seq<char>,
    pub key: Seq<char>,
    pub behind: Seq<char>,
    pub lead: Seq<char>,
    pub value: Seq<char>,
    pub tail: Seq<char>,
}

/// `a` is `b`, or its capital.
pub open spec fn letter_of(a: char, b: char) -> bool {
    ||| a == b && !('A' <= a <= 'Z')
    ||| 'A' <= a <= 'Z' && b as u32 == a as u32 + 32
}

/// `w` is `c` written down.
pub open spec fn writes(w: Written, c: CommentView) -> bool {
    &&& chars::blank(w.before) && chars::blank(w.behind)
    &&& chars::blank(w.lead) && chars::blank(w.tail)
    &&& chars::snug(c.0) && chars::snug(c.1)
    &&& w.value == c.1
    &&& w.key.len() == c.0.len()
    &&& forall|i: int| 0 <= i < w.key.len() ==> letter_of(#[trigger] w.key[i], c.0[i])
    &&& forall|i: int| 0 <= i < w.key.len() ==> #[trigger] w.key[i] != '='
}

/// The bytes of a comment.
pub open spec fn entry_bytes(w: Written) -> Seq<u8> {
    vstd::utf8::encode_utf8(w.before + w.key + w.behind) + seq![0x3Du8]
        + vstd::utf8::encode_utf8(w.lead + w.value + w.tail)
}

/// The bytes of comments, each behind its length.
pub open spec fn list_bytes(list: Seq<Written>) -> Seq<u8>
    decreases list.len(),
{
    if list.len() == 0 {
        Seq::empty()
    } else {
        bytes::u32_le(entry_bytes(list[0]).len() as u32) + entry_bytes(list[0]) + list_bytes(
            list.skip(1),
        )
    }
}

/// The bytes of a comment block: the vendor behind its length, the number of
/// comments, and the comments.
pub open spec fn block_bytes(vendor: Seq<char>, list: Seq<Written>) -> Seq<u8> {
    let name = vstd::utf8::encode_utf8(vendor);
    bytes::u32_le(name.len() as u32) + name + bytes::u32_le(list.len() as u32) + list_bytes(list)
}

/// Lengths fit into their fields.
pub open spec fn lengths_fit(vendor: Seq<char>, list: Seq<Written>) -> bool {
    &&& vstd::utf8::encode_utf8(vendor).len() <= u32::MAX
    &&& list.len() <= u32::MAX
    &&& forall|i: int|
        0 <= i < list.len() ==> entry_bytes(#[trigger] list[i]).len() <= u32::MAX
}

/// One comment is read back.
proof fn lemma_entry(w: Written, c: CommentView)
    requires
        writes(w, c),
    ensures
        comments::comment_in(entry_bytes(w)) == Some(c),
{
    let name = w.before + w.key + w.behind;
    let text = w.lead + w.value + w.tail;
    let a = vstd::utf8::encode_utf8(name);
    let b = vstd::utf8::encode_utf8(text);
    let e = entry_bytes(w);
    assert forall|i: int| 0 <= i < name.len() implies name[i] != '=' by {
        if i < w.before.len() {
            assert(chars::whitespace(w.before[i]));
        } else if i < w.before.len() + w.key.len() {
            assert(w.key[i - w.before.len()] != '=');
        } else {
            assert(chars::whitespace(w.behind[i - w.before.len() - w.key.len()]));
        }
    }
    utf8::lemma_ascii_byte(name, '=', 0x3D);
    assert(e[a.len() as int] == 0x3D);
    bytes::lemma_find_byte(e, 0x3D, 0, a.len() as int);
    assert(e.take(a.len() as int) =~= a);
    assert(e.skip((a.len() + 1) as int) =~= b);
    utf8::law_text_round_trip(name);
    utf8::law_text_round_trip(text);
    assert forall|i: int| 0 <= i < w.before.len() implies chars::lower(w.before)[i]
        == w.before[i] by {
        assert(chars::whitespace(w.before[i]));
    }
    assert forall|i: int| 0 <= i < w.behind.len() implies chars::lower(w.behind)[i]
        == w.behind[i] by {
        assert(chars::whitespace(w.behind[i]));
    }
    assert forall|i: int| 0 <= i < w.key.len() implies chars::lower(w.key)[i] == c.0[i] by {
        assert(letter_of(w.key[i], c.0[i]));
        vstd::utf8::char_u32_cast(c.0[i], c.0[i] as u32);
    }
    assert(chars::lower(w.before) =~= w.before);
    assert(chars::lower(w.behind) =~= w.behind);
    assert(chars::lower(w.key) =~= c.0);
    assert(chars::lower(name) =~= w.before + c.0 + w.behind);
    chars::law_trim_pad(w.before, c.0, w.behind);
    chars::law_trim_pad(w.lead, w.value, w.tail);
}

proof fn lemma_list(list: Seq<Written>, want: Seq<CommentView>, tail: Seq<u8>)
    requires
        list.len() == want.len(),
        forall|i: int|
            0 <= i < list.len() ==> entry_bytes(#[trigger] list[i]).len() <= u32::MAX,
        forall|i: int| 0 <= i < list.len() ==> writes(#[trigger] list[i], want[i]),
    ensures
        comments::entries_in(list_bytes(list) + tail, list.len()) == want,
    decreases list.len(),
{
    let buf = list_bytes(list) + tail;
    if list.len() == 0 {
        assert(want =~= Seq::<CommentView>::empty());
    } else {
        let e = entry_bytes(list[0]);
        let n = e.len() as u32;
        let rest = list_bytes(list.skip(1));
        assert(writes(list[0], want[0]));
        assert(buf =~= bytes::u32_le(n) + (e + rest + tail));
        bytes::law_u32_le_round_trip(n, e + rest + tail);
        let end = 4 + n as int;
        assert(buf.subrange(4, end) =~= e);
        assert(buf.skip(end) =~= rest + tail);
        lemma_entry(list[0], want[0]);
        let less = list.skip(1);
        let left = want.skip(1);
        assert forall|i: int| 0 <= i < less.len() implies entry_bytes(#[trigger] less[i]).len()
            <= u32::MAX by {
            assert(less[i] == list[i + 1]);
        }
        assert forall|i: int| 0 <= i < less.len() implies writes(#[trigger] less[i], left[i]) by {
            assert(writes(list[i + 1], want[i + 1]));
        }
        lemma_list(less, left, tail);
        assert(seq![want[0]] + left =~= want);
    }
}

/// A block that was written from a vendor and any number of comments is read back
/// as the vendor, where it has a name, and exactly these comments in their order,
/// whatever bytes stand behind it. Keys come back in small letters, and white
/// space around keys and values is gone.
pub proof fn law_comments_read_back(
    vendor: Seq<char>,
    list: Seq<Written>,
    want: Seq<CommentView>,
    tail: Seq<u8>,
)
    requires
        lengths_fit(vendor, list),
        list.len() == want.len(),
        forall|i: int| 0 <= i < list.len() ==> writes(#[trigger] list[i], want[i]),
    ensures
        comments::comments_in(block_bytes(vendor, list) + tail) == (if vendor.len() > 0 {
            seq![("vendor"@, vendor)]
        } else {
            Seq::<CommentView>::empty()
        }) + want,
{
    let name = vstd::utf8::encode_utf8(vendor);
    let n = name.len() as u32;
    let count = list.len() as u32;
    let rest = list_bytes(list) + tail;
    let buf = block_bytes(vendor, list) + tail;
    assert(buf =~= bytes::u32_le(n) + (name + bytes::u32_le(count) + rest));
    bytes::law_u32_le_round_trip(n, name + bytes::u32_le(count) + rest);
    let at = 4 + n as int;
    assert(buf.subrange(4, at) =~= name);
    assert(buf.skip(at) =~= bytes::u32_le(count) + rest);
    bytes::law_u32_le_round_trip(count, rest);
    assert(buf.skip(at + 4) =~= rest);
    utf8::law_text_round_trip(vendor);
    lemma_list(list, want, tail);
}

} // verus!
