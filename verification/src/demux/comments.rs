//! The comment block that Vorbis, Opus and Theora share.
use crate::bytes;
use crate::bytes::{position_byte, read_u32_le};
use crate::chars;
use crate::chars::{to_chars, to_lower, to_text, trimmed};
use crate::text::owned;
use crate::utf8;
use crate::utf8::read_text;
use vstd::prelude::*;
use vstd::string::*;

verus! {

/// A key and its value.
pub type CommentView = (Seq<char>, Seq<char>);

/// What a list of comments stands for.
pub open spec fn comments_view(list: Seq<(String, String)>) -> Seq<CommentView> {
    list.map_values(|c: (String, String)| (c.0@, c.1@))
}

/// The comment that an entry spells: a key in lower case and a value, trimmed,
/// before and behind the first `=`. Nothing where either is empty.
pub open spec fn comment_in(entry: Seq<u8>) -> Option<CommentView> {
    match bytes::find_byte(entry, 0x3D) {
        None => None,
        Some(i) => {
            let key = chars::trim(chars::lower(utf8::text_of(entry.take(i))));
            let value = chars::trim(utf8::text_of(entry.skip(i + 1)));
            if key.len() > 0 && value.len() > 0 {
                Some((key, value))
            } else {
                None
            }
        },
    }
}

/// The comments of the first `count` entries in `buf`, as far as it holds them
/// whole.
pub open spec fn entries_in(buf: Seq<u8>, count: nat) -> Seq<CommentView>
    decreases count,
{
    if count == 0 || buf.len() < 4 || 4 + bytes::le_u32(buf) > buf.len() {
        Seq::empty()
    } else {
        let end = 4 + bytes::le_u32(buf) as int;
        let rest = entries_in(buf.skip(end), (count - 1) as nat);
        match comment_in(buf.subrange(4, end)) {
            Some(c) => seq![c] + rest,
            None => rest,
        }
    }
}

/// The comments of a block: the vendor where it has a name, and the entries.
pub open spec fn comments_in(buf: Seq<u8>) -> Seq<CommentView> {
    if buf.len() < 4 || 4 + bytes::le_u32(buf) > buf.len() {
        Seq::empty()
    } else {
        let at = 4 + bytes::le_u32(buf) as int;
        let vendor = utf8::text_of(buf.subrange(4, at));
        let head = if vendor.len() > 0 {
            seq![("vendor"@, vendor)]
        } else {
            Seq::empty()
        };
        if at + 4 > buf.len() {
            head
        } else {
            head + entries_in(buf.skip(at + 4), bytes::le_u32(buf.skip(at)) as nat)
        }
    }
}

fn read_comment(entry: &[u8]) -> (r: Option<(String, String)>)
    ensures
        match r {
            Some(c) => comment_in(entry@) == Some((c.0@, c.1@)),
            None => comment_in(entry@) is None,
        },
{
    let n: usize = entry.len();
    let at: usize = match position_byte(entry, 0x3D) {
        Some(i) => i,
        None => return None,
    };
    let before = vstd::slice::slice_subrange(entry, 0, at);
    let behind = vstd::slice::slice_subrange(entry, at + 1, n);
    assert(before@ =~= entry@.take(at as int));
    assert(behind@ =~= entry@.skip(at + 1));
    let lower = to_lower(to_chars(read_text(before).as_str()).as_slice());
    let key = to_text(trimmed(lower.as_slice()));
    let value = to_text(trimmed(to_chars(read_text(behind).as_str()).as_slice()));
    if key.as_str().unicode_len() > 0 && value.as_str().unicode_len() > 0 {
        Some((key, value))
    } else {
        None
    }
}

/// Reads a comment block, which begins behind the codec's own magic, and
/// appends what it finds.
pub fn parse_vorbis_comment(buf: &[u8], out: &mut Vec<(String, String)>)
    ensures
        comments_view(final(out)@) == comments_view(old(out)@) + comments_in(buf@),
{
    let n: usize = buf.len();
    let ghost before = comments_view(out@);
    assert(before + Seq::<CommentView>::empty() =~= before);
    if n < 4 {
        return;
    }
    let vlen: u32 = read_u32_le(buf, 0);
    assert(buf@.skip(0) =~= buf@);
    if vlen as usize > n - 4 {
        return;
    }
    let mut at: usize = 4 + vlen as usize;
    let name = vstd::slice::slice_subrange(buf, 4, at);
    let vendor = read_text(name);
    let ghost mut head = Seq::<CommentView>::empty();
    if vendor.as_str().unicode_len() > 0 {
        let c = (owned("vendor"), vendor);
        out.push(c);
        proof {
            head = seq![(c.0@, c.1@)];
            assert(comments_view(out@) =~= before + head);
        }
    }
    if n - at < 4 {
        return;
    }
    let count: u32 = read_u32_le(buf, at);
    at = at + 4;
    let ghost all = entries_in(buf@.skip(at as int), count as nat);
    let mut left: u32 = count;
    assert(before + head + all =~= comments_view(out@) + all);
    while left > 0
        invariant
            n == buf@.len(),
            at <= n,
            before + head + all == comments_view(out@) + entries_in(
                buf@.skip(at as int),
                left as nat,
            ),
        ensures
            before + head + all == comments_view(out@),
        decreases left,
    {
        let ghost here = buf@.skip(at as int);
        let ghost now = comments_view(out@);
        assert(now + Seq::<CommentView>::empty() =~= now);
        if n - at < 4 {
            break;
        }
        let clen: u32 = read_u32_le(buf, at);
        if clen as usize > n - at - 4 {
            break;
        }
        let end: usize = at + 4 + clen as usize;
        let entry = vstd::slice::slice_subrange(buf, at + 4, end);
        proof {
            assert(entry@ =~= here.subrange(4, 4 + clen as int));
            assert(here.skip(4 + clen as int) =~= buf@.skip(end as int));
        }
        let ghost rest = entries_in(buf@.skip(end as int), (left - 1) as nat);
        if let Some(c) = read_comment(entry) {
            out.push(c);
            proof {
                assert(comments_view(out@) =~= now.push((c.0@, c.1@)));
                assert(now + (seq![(c.0@, c.1@)] + rest) =~= now.push((c.0@, c.1@)) + rest);
            }
        }
        at = end;
        left = left - 1;
        if left == 0 {
            assert(comments_view(out@) + Seq::<CommentView>::empty() =~= comments_view(out@));
        }
    }
    assert(before + (head + all) =~= before + head + all);
}

} // verus!
