//! The `fisbone` packet: one content stream and its message headers.
use crate::bytes;
use crate::bytes::{
    matches_at, position_byte, push_all, push_i64_le, push_u32_le, read_i64_le, read_u32_le,
};
use crate::chars;
use crate::chars::{eq_ignore_case, next_piece, parse_integer, to_chars, to_text, trim_range, trimmed};
use crate::error::{Error, Fault};
use crate::skeleton::content_type;
use crate::skeleton::content_type::ContentType;
use crate::skeleton::display_hint;
use crate::skeleton::display_hint::DisplayHint;
use crate::skeleton::head::Rational;
use crate::skeleton::parameters;
use crate::skeleton::role::Role;
use crate::skeleton::title_name::{Name, Title};
use crate::text::owned;
use crate::theora;
use crate::utf8;
use crate::utf8::read_text;
use vstd::arithmetic::power2;
use vstd::bits;
use vstd::prelude::*;
use vstd::string::*;

verus! {

/// `fisbone` and a zero byte.
pub const FISBONE_MAGIC: [u8; 8] = [0x66, 0x69, 0x73, 0x62, 0x6F, 0x6E, 0x65, 0x00];

/// Length of the packet's fixed part.
pub const FISBONE_FIXED_LEN: usize = 52;

/// Where the message headers begin, measured from the field that says so.
pub const FISBONE_MSG_HEADER_OFFSET: u32 = 44;

/// `: `
pub const HEADER_SEPARATOR: [u8; 2] = [0x3A, 0x20];

/// Carriage return and line feed.
pub const HEADER_END: [u8; 2] = [0x0D, 0x0A];

/// One message header field.
#[derive(Clone, Debug, PartialEq, Eq)]
pub struct MessageHeader {
    /// Field name, as written.
    pub name: String,
    /// Field value.
    pub value: String,
}

impl MessageHeader {
    /// A field with the given name and value.
    pub fn new(name: &str, value: &str) -> (h: Self)
        ensures
            h@ == (name@, value@),
    {
        MessageHeader { name: owned(name), value: owned(value) }
    }
}

impl View for MessageHeader {
    type V = (Seq<char>, Seq<char>);

    open spec fn view(&self) -> (Seq<char>, Seq<char>) {
        (self.name@, self.value@)
    }
}

/// What a list of message headers stands for.
pub open spec fn headers_view(list: Seq<MessageHeader>) -> Seq<(Seq<char>, Seq<char>)> {
    list.map_values(|h: MessageHeader| h@)
}

/// The header that a line spells: what stands before and behind its first
/// colon. Nothing where it has no colon or no name.
pub open spec fn header_in(line: Seq<u8>) -> Option<(Seq<char>, Seq<char>)> {
    let l = if line.len() > 0 && line.last() == 0x0D {
        line.drop_last()
    } else {
        line
    };
    match bytes::find_byte(l, 0x3A) {
        None => None,
        Some(i) => {
            let rest = l.skip(i + 1);
            let bare = if rest.len() > 0 && rest[0] == 0x20 {
                rest.skip(1)
            } else {
                rest
            };
            let name = chars::trim(utf8::text_of(l.take(i)));
            if name.len() == 0 {
                None
            } else {
                Some((name, chars::trim(utf8::text_of(bare))))
            }
        },
    }
}

/// The headers that lines spell, in their order.
pub open spec fn headers_in(lines: Seq<Seq<u8>>) -> Seq<(Seq<char>, Seq<char>)>
    decreases lines.len(),
{
    if lines.len() == 0 {
        Seq::empty()
    } else {
        let rest = headers_in(lines.skip(1));
        match header_in(lines[0]) {
            Some(h) => seq![h] + rest,
            None => rest,
        }
    }
}

/// Headers as bytes, one line each.
pub open spec fn headers_encoded(list: Seq<(Seq<char>, Seq<char>)>) -> Seq<u8>
    decreases list.len(),
{
    if list.len() == 0 {
        Seq::empty()
    } else {
        headers_encoded(list.drop_last()) + vstd::utf8::encode_utf8(list.last().0)
            + HEADER_SEPARATOR@ + vstd::utf8::encode_utf8(list.last().1) + HEADER_END@
    }
}

/// A header that can be written and read back: its name is not blank and holds
/// no colon, neither part begins or ends with white space, and neither holds a
/// line feed.
pub open spec fn plain_header(h: (Seq<char>, Seq<char>)) -> bool {
    &&& h.0.len() > 0
    &&& chars::trim(h.0) == h.0
    &&& chars::trim(h.1) == h.1
    &&& forall|i: int| 0 <= i < h.0.len() ==> h.0[i] != ':' && h.0[i] != '\n'
    &&& forall|i: int| 0 <= i < h.1.len() ==> h.1[i] != '\n'
}

/// Every header of a list can be written and read back.
pub open spec fn all_plain(list: Seq<(Seq<char>, Seq<char>)>) -> bool {
    forall|i: int| 0 <= i < list.len() ==> plain_header(#[trigger] list[i])
}

/// One header as bytes, without the line feed.
pub open spec fn header_line(h: (Seq<char>, Seq<char>)) -> Seq<u8> {
    vstd::utf8::encode_utf8(h.0) + HEADER_SEPARATOR@ + vstd::utf8::encode_utf8(h.1) + seq![0x0Du8]
}

proof fn lemma_header_line(h: (Seq<char>, Seq<char>))
    requires
        plain_header(h),
    ensures
        header_in(header_line(h)) == Some(h),
        forall|i: int| 0 <= i < header_line(h).len() ==> header_line(h)[i] != 0x0A,
{
    let line = header_line(h);
    let n = vstd::utf8::encode_utf8(h.0);
    let v = vstd::utf8::encode_utf8(h.1);
    utf8::lemma_ascii_byte(h.0, ':', 0x3A);
    utf8::lemma_ascii_byte(h.0, '\n', 0x0A);
    utf8::lemma_ascii_byte(h.1, '\n', 0x0A);
    let l = line.drop_last();
    bytes::lemma_find_byte(l, 0x3A, 0, n.len() as int);
    assert(l.take(n.len() as int) =~= n);
    let rest = l.skip(n.len() as int + 1);
    assert(rest =~= seq![0x20u8] + v);
    assert(rest.skip(1) =~= v);
    utf8::law_text_round_trip(h.0);
    utf8::law_text_round_trip(h.1);
}

proof fn lemma_headers_lines(list: Seq<(Seq<char>, Seq<char>)>, tail: Seq<u8>)
    requires
        all_plain(list),
    ensures
        headers_in(bytes::split_at_byte(headers_encoded(list) + tail, 0x0A)) == list + headers_in(
            bytes::split_at_byte(tail, 0x0A),
        ),
    decreases list.len(),
{
    let rest = headers_in(bytes::split_at_byte(tail, 0x0A));
    if list.len() == 0 {
        assert(headers_encoded(list) + tail =~= tail);
        assert(list + rest =~= rest);
    } else {
        let h = list.last();
        let line = header_line(h);
        let longer = line + seq![0x0Au8] + tail;
        assert(headers_encoded(list) + tail =~= headers_encoded(list.drop_last()) + longer);
        lemma_headers_lines(list.drop_last(), longer);
        lemma_header_line(h);
        bytes::lemma_find_byte(longer, 0x0A, 0, line.len() as int);
        assert(longer.take(line.len() as int) =~= line);
        assert(longer.skip(line.len() as int + 1) =~= tail);
        let lines = bytes::split_at_byte(longer, 0x0A);
        assert(lines.skip(1) =~= bytes::split_at_byte(tail, 0x0A));
        assert(lines[0] == line);
        assert(list.drop_last() + (seq![h] + rest) =~= list + rest);
    }
}

/// Headers that can stand on a line each read back as they were written.
pub proof fn law_headers_round_trip(list: Seq<(Seq<char>, Seq<char>)>)
    requires
        all_plain(list),
    ensures
        headers_in(bytes::split_at_byte(headers_encoded(list), 0x0A)) == list,
{
    lemma_headers_lines(list, Seq::empty());
    assert(headers_encoded(list) + Seq::<u8>::empty() =~= headers_encoded(list));
    let none = Seq::<u8>::empty();
    bytes::lemma_find_no_byte(none, 0x0A, 0);
    let lines = bytes::split_at_byte(none, 0x0A);
    assert(lines =~= seq![none]);
    bytes::lemma_find_no_byte(none, 0x3A, 0);
    assert(header_in(none) is None);
    assert(lines.skip(1) =~= Seq::<Seq<u8>>::empty());
    assert(headers_in(lines.skip(1)) =~= Seq::<(Seq<char>, Seq<char>)>::empty());
    assert(headers_in(lines) =~= Seq::<(Seq<char>, Seq<char>)>::empty());
    assert(list + Seq::<(Seq<char>, Seq<char>)>::empty() =~= list);
}

/// The list with the value of the first header named `name`, but for case,
/// replaced, or a new header at its end.
pub open spec fn with_header(
    list: Seq<(Seq<char>, Seq<char>)>,
    name: Seq<char>,
    value: Seq<char>,
) -> Seq<(Seq<char>, Seq<char>)>
    decreases list.len(),
{
    if list.len() == 0 {
        seq![(name, value)]
    } else if chars::same_ignoring_case(list[0].0, name) {
        seq![(list[0].0, value)] + list.skip(1)
    } else {
        seq![list[0]] + with_header(list.skip(1), name, value)
    }
}

/// A header that was set is found under its name in any case, and every other
/// name finds what it found before.
pub proof fn law_set_header(
    list: Seq<(Seq<char>, Seq<char>)>,
    name: Seq<char>,
    value: Seq<char>,
    asked: Seq<char>,
)
    ensures
        parameters::value_of(with_header(list, name, value), asked) == (
        if chars::same_ignoring_case(name, asked) {
            Some(value)
        } else {
            parameters::value_of(list, asked)
        }),
    decreases list.len(),
{
    let after = with_header(list, name, value);
    if list.len() == 0 {
        assert(after.skip(1) =~= Seq::<(Seq<char>, Seq<char>)>::empty());
        assert(parameters::value_of(after.skip(1), asked) is None);
    } else if chars::same_ignoring_case(list[0].0, name) {
        assert(after.skip(1) =~= list.skip(1));
    } else {
        law_set_header(list.skip(1), name, value, asked);
        assert(after.skip(1) =~= with_header(list.skip(1), name, value));
    }
}

/// What was read on the two sides of the first colon of a line is plain.
proof fn lemma_read_plain(
    left: Seq<char>,
    right: Seq<char>,
    line: Seq<u8>,
    l: Seq<u8>,
    colon: int,
    bare: Seq<u8>,
)
    requires
        !line.contains(0x0A),
        l == line || (line.len() > 0 && l == line.drop_last()),
        bytes::find_byte(l, 0x3A) == Some(colon),
        bare == l.skip(colon + 1) || (l.skip(colon + 1).len() > 0 && bare == l.skip(
            colon + 1,
        ).skip(1)),
        utf8::ascii_from(left, l.take(colon)),
        utf8::ascii_from(right, bare),
        chars::trim(left).len() > 0,
    ensures
        plain_header((chars::trim(left), chars::trim(right))),
{
    bytes::lemma_found_byte(l, 0x3A, 0);
    assert forall|k: int| 0 <= k < l.len() implies l[k] != 0x0A by {
        assert(line[k] == l[k]);
    }
    chars::law_trim(left);
    chars::law_trim(right);
    chars::lemma_trim_within(left);
    chars::lemma_trim_within(right);
    assert(':' as u8 == 0x3A && '\n' as u8 == 0x0A);
    let name = chars::trim(left);
    let value = chars::trim(right);
    assert forall|i: int| 0 <= i < name.len() implies name[i] != ':' && name[i] != '\n' by {
        assert(left.contains(name[i]));
        let j = choose|j: int| 0 <= j < left.len() && left[j] == name[i];
        if left[j] == ':' || left[j] == '\n' {
            assert(l.take(colon).contains(left[j] as u8));
        }
    }
    assert forall|i: int| 0 <= i < value.len() implies value[i] != '\n' by {
        assert(right.contains(value[i]));
        let j = choose|j: int| 0 <= j < right.len() && right[j] == value[i];
        if right[j] == '\n' {
            assert(bare.contains(right[j] as u8));
        }
    }
}

fn read_header(line: &[u8]) -> (r: Option<MessageHeader>)
    ensures
        match r {
            Some(h) => header_in(line@) == Some(h@) && (!line@.contains(0x0A) ==> plain_header(
                h@,
            )),
            None => header_in(line@) is None,
        },
{
    let n: usize = line.len();
    let l = if n > 0 && line[n - 1] == 0x0D {
        let front = vstd::slice::slice_subrange(line, 0, n - 1);
        assert(front@ =~= line@.drop_last());
        front
    } else {
        line
    };
    let m: usize = l.len();
    let colon: usize = match position_byte(l, 0x3A) {
        Some(i) => i,
        None => return None,
    };
    let before = vstd::slice::slice_subrange(l, 0, colon);
    let rest = vstd::slice::slice_subrange(l, colon + 1, m);
    assert(before@ =~= l@.take(colon as int));
    assert(rest@ =~= l@.skip(colon + 1));
    let bare = if rest.len() > 0 && rest[0] == 0x20 {
        let tail = vstd::slice::slice_subrange(rest, 1, rest.len());
        assert(tail@ =~= rest@.skip(1));
        tail
    } else {
        rest
    };
    let left = read_text(before);
    let right = read_text(bare);
    let name = to_text(trimmed(to_chars(left.as_str()).as_slice()));
    let value = to_text(trimmed(to_chars(right.as_str()).as_slice()));
    if name.as_str().unicode_len() == 0 {
        return None;
    }
    proof {
        if !line@.contains(0x0A) {
            lemma_read_plain(left@, right@, line@, l@, colon as int, bare@);
        }
    }
    Some(MessageHeader { name, value })
}

/// Reads the lines of a block of message headers.
fn parse_message_headers(buf: &[u8]) -> (out: Vec<MessageHeader>)
    ensures
        headers_view(out@) == headers_in(bytes::split_at_byte(buf@, 0x0A)),
        all_plain(headers_view(out@)),
{
    let ghost all = headers_in(bytes::split_at_byte(buf@, 0x0A));
    let n: usize = buf.len();
    let mut out: Vec<MessageHeader> = Vec::new();
    let mut pos: usize = 0;
    let mut more: bool = true;
    proof {
        assert(buf@.skip(0) =~= buf@);
        assert(headers_view(out@) + all =~= all);
    }
    while more
        invariant
            n == buf@.len(),
            pos <= n,
            more ==> headers_view(out@) + headers_in(
                bytes::split_at_byte(buf@.skip(pos as int), 0x0A),
            ) == all,
            !more ==> headers_view(out@) == all,
            all_plain(headers_view(out@)),
        decreases (if more { n - pos + 1 } else { 0 }),
    {
        let ghost before = headers_view(out@);
        let ghost here = buf@.skip(pos as int);
        let ghost lines = bytes::split_at_byte(here, 0x0A);
        let tail = vstd::slice::slice_subrange(buf, pos, n);
        assert(tail@ =~= here);
        let found: Option<usize> = position_byte(tail, 0x0A);
        let len: usize = match found {
            Some(i) => i,
            None => tail.len(),
        };
        let line = vstd::slice::slice_subrange(tail, 0, len);
        proof {
            let rest = if found is Some {
                bytes::split_at_byte(here.skip(len + 1), 0x0A)
            } else {
                Seq::empty()
            };
            assert(line@ =~= here.take(len as int));
            if found is None {
                assert(here.take(len as int) =~= here);
            }
            assert(lines[0] == line@);
            assert(lines.skip(1) =~= rest);
            assert(headers_in(Seq::<Seq<u8>>::empty()) =~= Seq::<(Seq<char>, Seq<char>)>::empty());
        }
        proof {
            bytes::lemma_found_byte(here, 0x0A, 0);
            assert(!line@.contains(0x0A));
        }
        if let Some(h) = read_header(line) {
            out.push(h);
            proof {
                assert(headers_view(out@) =~= before.push(h@));
                assert(before + (seq![h@] + headers_in(lines.skip(1))) =~= before.push(h@)
                    + headers_in(lines.skip(1)));
            }
        }
        if found.is_some() {
            assert(here.skip(len + 1) =~= buf@.skip(pos + len + 1));
            pos = pos + len + 1;
        } else {
            assert(headers_view(out@) + Seq::<(Seq<char>, Seq<char>)>::empty() =~= headers_view(
                out@,
            ));
            more = false;
        }
    }
    out
}

/// The `fisbone` packet.
#[derive(Clone, Debug, PartialEq, Eq)]
pub struct FisBone {
    /// Serial of the content stream that the packet describes.
    pub serial: u32,
    /// Number of header packets of the content stream.
    pub num_headers: u32,
    /// Granules per second.
    pub granule_rate: Rational,
    /// The granule that the content stream starts at.
    pub basegranule: i64,
    /// Number of packets to decode before output is correct after a seek.
    pub preroll: u32,
    /// Number of low bits of a granule position that count from a keyframe.
    pub granuleshift: u8,
    /// The message headers.
    pub headers: Vec<MessageHeader>,
}

/// What a [`FisBone`] stands for.
#[verifier::ext_equal]
pub struct FisBoneView {
    pub serial: u32,
    pub num_headers: u32,
    pub granule_rate: Rational,
    pub basegranule: i64,
    pub preroll: u32,
    pub granuleshift: u8,
    pub headers: Seq<(Seq<char>, Seq<char>)>,
}

impl View for FisBone {
    type V = FisBoneView;

    open spec fn view(&self) -> FisBoneView {
        FisBoneView {
            serial: self.serial,
            num_headers: self.num_headers,
            granule_rate: self.granule_rate,
            basegranule: self.basegranule,
            preroll: self.preroll,
            granuleshift: self.granuleshift,
            headers: headers_view(self.headers@),
        }
    }
}

impl FisBoneView {
    /// The packet's fixed part.
    pub open spec fn fixed_part(self) -> Seq<u8> {
        FISBONE_MAGIC@ + bytes::u32_le(FISBONE_MSG_HEADER_OFFSET) + bytes::u32_le(self.serial)
            + bytes::u32_le(self.num_headers) + bytes::i64_le(self.granule_rate.numerator)
            + bytes::i64_le(self.granule_rate.denominator) + bytes::i64_le(self.basegranule)
            + bytes::u32_le(self.preroll) + seq![self.granuleshift, 0u8, 0u8, 0u8]
    }

    /// The packet.
    pub open spec fn encoded(self) -> Seq<u8> {
        self.fixed_part() + headers_encoded(self.headers)
    }

    /// The granule that a granule position names: the two halves of a position
    /// that counts from a keyframe are added. A negative position names itself.
    pub open spec fn granules_of(self, granulepos: i64) -> int {
        let unit = power2::pow2(self.granuleshift as nat) as int;
        if granulepos < 0 {
            granulepos as int
        } else if self.granuleshift >= 63 {
            0
        } else {
            granulepos as int / unit + granulepos as int % unit
        }
    }

    /// Granules can be turned into time.
    pub open spec fn timed(self) -> bool {
        self.granule_rate.numerator > 0 && self.granule_rate.denominator > 0
    }
}

/// What stands in the packet `p`.
pub open spec fn bone_in(p: Seq<u8>) -> FisBoneView {
    FisBoneView {
        serial: bytes::le_u32(p.skip(12)),
        num_headers: bytes::le_u32(p.skip(16)),
        granule_rate: Rational {
            numerator: bytes::le_i64(p.skip(20)),
            denominator: bytes::le_i64(p.skip(28)),
        },
        basegranule: bytes::le_i64(p.skip(36)),
        preroll: bytes::le_u32(p.skip(44)),
        granuleshift: p[48],
        headers: headers_in(
            bytes::split_at_byte(p.skip(8 + bytes::le_u32(p.skip(8)) as int), 0x0A),
        ),
    }
}

/// What reading the packet `p` gives.
pub open spec fn parsed_bone(p: Seq<u8>) -> Result<FisBoneView, Error> {
    let offset = bytes::le_u32(p.skip(8));
    if p.len() < 52 {
        Err(Error::InvalidData(Fault::FisboneLength { len: p.len() as usize }))
    } else if p.take(8) != FISBONE_MAGIC@ {
        Err(Error::InvalidData(Fault::FisboneMagic))
    } else if offset < 44 || 8 + offset > p.len() {
        Err(Error::InvalidData(Fault::FisboneOffset { offset }))
    } else {
        Ok(bone_in(p))
    }
}

impl FisBone {
    /// A packet for the stream `serial` with no headers and every other field
    /// zero.
    pub fn new(serial: u32, granule_rate: Rational) -> (b: Self)
        ensures
            b@ == (FisBoneView {
                serial,
                num_headers: 0,
                granule_rate,
                basegranule: 0,
                preroll: 0,
                granuleshift: 0,
                headers: Seq::empty(),
            }),
    {
        let b = FisBone {
            serial,
            num_headers: 0,
            granule_rate,
            basegranule: 0,
            preroll: 0,
            granuleshift: 0,
            headers: Vec::new(),
        };
        assert(b@.headers =~= Seq::<(Seq<char>, Seq<char>)>::empty());
        b
    }

    /// Reads a `fisbone` packet.
    pub fn parse(packet: &[u8]) -> (r: Result<Self, Error>)
        ensures
            match r {
                Ok(b) => parsed_bone(packet@) == Ok::<FisBoneView, Error>(b@) && all_plain(
                    b@.headers,
                ),
                Err(e) => parsed_bone(packet@) == Err::<FisBoneView, Error>(e),
            },
    {
        let n: usize = packet.len();
        if n < FISBONE_FIXED_LEN {
            return Err(Error::InvalidData(Fault::FisboneLength { len: n }));
        }
        assert(packet@.subrange(0, 8) =~= packet@.take(8));
        if !matches_at(packet, 0, &FISBONE_MAGIC) {
            return Err(Error::InvalidData(Fault::FisboneMagic));
        }
        let offset: u32 = read_u32_le(packet, 8);
        if offset < FISBONE_MSG_HEADER_OFFSET || offset as usize > n - 8 {
            return Err(Error::InvalidData(Fault::FisboneOffset { offset }));
        }
        let start: usize = 8 + offset as usize;
        let block = vstd::slice::slice_subrange(packet, start, n);
        assert(block@ =~= packet@.skip(start as int));
        let headers = parse_message_headers(block);
        let serial: u32 = read_u32_le(packet, 12);
        let num_headers: u32 = read_u32_le(packet, 16);
        let numerator: i64 = read_i64_le(packet, 20);
        let denominator: i64 = read_i64_le(packet, 28);
        let basegranule: i64 = read_i64_le(packet, 36);
        let preroll: u32 = read_u32_le(packet, 44);
        let b = FisBone {
            serial,
            num_headers,
            granule_rate: Rational { numerator, denominator },
            basegranule,
            preroll,
            granuleshift: packet[48],
            headers,
        };
        assert(b@ =~= bone_in(packet@));
        Ok(b)
    }

    /// The packet: the fixed part, then one line for each header.
    pub fn to_bytes(&self) -> (out: Vec<u8>)
        ensures
            out@ == self@.encoded(),
    {
        let mut out: Vec<u8> = Vec::new();
        push_all(&mut out, &FISBONE_MAGIC);
        push_u32_le(&mut out, FISBONE_MSG_HEADER_OFFSET);
        push_u32_le(&mut out, self.serial);
        push_u32_le(&mut out, self.num_headers);
        push_i64_le(&mut out, self.granule_rate.numerator);
        push_i64_le(&mut out, self.granule_rate.denominator);
        push_i64_le(&mut out, self.basegranule);
        push_u32_le(&mut out, self.preroll);
        out.push(self.granuleshift);
        out.push(0);
        out.push(0);
        out.push(0);
        let ghost fixed = self@.fixed_part();
        let ghost list = self@.headers;
        assert(out@ =~= fixed);
        let mut i: usize = 0;
        assert(fixed + headers_encoded(list.take(0)) =~= fixed);
        while i < self.headers.len()
            invariant
                i <= self.headers@.len(),
                list == headers_view(self.headers@),
                out@ == fixed + headers_encoded(list.take(i as int)),
            decreases self.headers@.len() - i,
        {
            let ghost here = out@;
            push_all(&mut out, self.headers[i].name.as_str().as_bytes());
            push_all(&mut out, &HEADER_SEPARATOR);
            push_all(&mut out, self.headers[i].value.as_str().as_bytes());
            push_all(&mut out, &HEADER_END);
            assert(list.take(i + 1).drop_last() =~= list.take(i as int));
            assert(out@ =~= fixed + headers_encoded(list.take(i + 1)));
            i += 1;
        }
        assert(list.take(i as int) =~= list);
        out
    }

    /// Replaces the value of the first header with this name, whatever its
    /// case, or appends a new header.
    pub fn set_header(&mut self, name: &str, value: &str)
        ensures
            final(self)@ == (FisBoneView {
                headers: with_header(old(self)@.headers, name@, value@),
                ..old(self)@
            }),
    {
        let ghost list = self@.headers;
        let mut i: usize = 0;
        assert(list.skip(0) =~= list);
        assert(list.take(0) + with_header(list.skip(0), name@, value@) =~= with_header(
            list,
            name@,
            value@,
        ));
        while i < self.headers.len()
            invariant
                i <= self.headers@.len(),
                *self == *old(self),
                list == headers_view(self.headers@),
                with_header(list, name@, value@) == list.take(i as int) + with_header(
                    list.skip(i as int),
                    name@,
                    value@,
                ),
            decreases self.headers@.len() - i,
        {
            assert(list.skip(i as int).skip(1) =~= list.skip(i + 1));
            if eq_ignore_case(self.headers[i].name.as_str(), name) {
                let kept = self.headers[i].name.clone();
                self.headers.set(i, MessageHeader { name: kept, value: owned(value) });
                proof {
                    let after = headers_view(self.headers@);
                    assert(after =~= list.take(i as int) + (seq![(list[i as int].0, value@)]
                        + list.skip(i + 1)));
                }
                return;
            }
            proof {
                let rest = with_header(list.skip(i + 1), name@, value@);
                assert(list.take(i as int) + (seq![list[i as int]] + rest) =~= list.take(i + 1)
                    + rest);
            }
            i += 1;
        }
        self.headers.push(MessageHeader::new(name, value));
        proof {
            let after = headers_view(self.headers@);
            assert(list.skip(i as int).len() == 0);
            assert(after =~= list.take(i as int) + seq![(name@, value@)]);
        }
    }

    /// The value of the first header with this name, whatever its case.
    pub fn header(&self, name: &str) -> (r: Option<&str>)
        ensures
            match r {
                Some(v) => parameters::value_of(self@.headers, name@) == Some(v@),
                None => parameters::value_of(self@.headers, name@) is None,
            },
    {
        let ghost all = self@.headers;
        let mut i: usize = 0;
        assert(all.skip(0) =~= all);
        while i < self.headers.len()
            invariant
                i <= self.headers@.len(),
                all == headers_view(self.headers@),
                parameters::value_of(all, name@) == parameters::value_of(
                    all.skip(i as int),
                    name@,
                ),
            decreases self.headers@.len() - i,
        {
            assert(all.skip(i as int).skip(1) =~= all.skip(i + 1));
            if eq_ignore_case(self.headers[i].name.as_str(), name) {
                return Some(self.headers[i].value.as_str());
            }
            i += 1;
        }
        None
    }
}

/// The language tags in the value of a `Language` header: what stands between
/// its commas, trimmed, where something is left.
pub open spec fn language_tags(pieces: Seq<Seq<char>>) -> Seq<Seq<char>>
    decreases pieces.len(),
{
    if pieces.len() == 0 {
        Seq::empty()
    } else {
        let rest = language_tags(pieces.skip(1));
        let tag = chars::trim(pieces[0]);
        if tag.len() == 0 {
            rest
        } else {
            seq![tag] + rest
        }
    }
}

/// The texts that a list holds.
pub open spec fn texts(list: Seq<&str>) -> Seq<Seq<char>> {
    list.map_values(|s: &str| s@)
}

fn read_languages<'a>(raw: &'a str) -> (out: Vec<&'a str>)
    ensures
        texts(out@) == language_tags(chars::split(raw@, ',')),
{
    let v = to_chars(raw);
    let ghost all = language_tags(chars::split(raw@, ','));
    let n: usize = v.len();
    let mut out: Vec<&'a str> = Vec::new();
    let mut pos: usize = 0;
    let mut more: bool = true;
    proof {
        assert(v@.skip(0) =~= raw@);
        assert(texts(out@) + all =~= all);
    }
    while more
        invariant
            n == v@.len(),
            v@ == raw@,
            pos <= n,
            more ==> texts(out@) + language_tags(chars::split(v@.skip(pos as int), ',')) == all,
            !more ==> texts(out@) == all,
        decreases (if more { n - pos + 1 } else { 0 }),
    {
        let ghost before = texts(out@);
        let ghost pieces = chars::split(v@.skip(pos as int), ',');
        let (end, another) = next_piece(v.as_slice(), ',', pos);
        let piece = vstd::slice::slice_subrange(v.as_slice(), pos, end);
        let (a, b) = trim_range(piece);
        proof {
            let rest = if another {
                chars::split(v@.skip(end + 1), ',')
            } else {
                Seq::empty()
            };
            assert(pieces[0] =~= piece@);
            assert(pieces.skip(1) =~= rest);
            assert(language_tags(Seq::<Seq<char>>::empty()) =~= Seq::<Seq<char>>::empty());
        }
        if a < b {
            let tag = raw.substring_char(pos + a, pos + b);
            assert(tag@ =~= chars::trim(piece@));
            out.push(tag);
            proof {
                assert(texts(out@) =~= before.push(tag@));
                assert(before + (seq![tag@] + language_tags(pieces.skip(1))) =~= before.push(tag@)
                    + language_tags(pieces.skip(1)));
            }
        }
        if another {
            pos = end + 1;
        } else {
            assert(texts(out@) + Seq::<Seq<char>>::empty() =~= texts(out@));
            more = false;
        }
    }
    out
}

impl FisBone {
    /// The `Role` header, read.
    pub fn role(&self) -> (r: Option<Role>)
        ensures
            match (parameters::value_of(self@.headers, "Role"@), r) {
                (Some(raw), Some(role)) => role.spelled_by(raw),
                (None, None) => true,
                _ => false,
            },
    {
        match self.header("Role") {
            Some(raw) => Some(Role::parse(raw)),
            None => None,
        }
    }

    /// The tags of the `Language` header, the dominating one first.
    pub fn languages(&self) -> (r: Option<Vec<&str>>)
        ensures
            match (parameters::value_of(self@.headers, "Language"@), r) {
                (Some(raw), Some(tags)) => texts(tags@) == language_tags(chars::split(raw, ',')),
                (None, None) => true,
                _ => false,
            },
    {
        match self.header("Language") {
            Some(raw) => Some(read_languages(raw)),
            None => None,
        }
    }

    /// The `Altitude` header, read as a signed integer.
    pub fn altitude(&self) -> (r: Option<Result<i64, Error>>)
        ensures
            match (parameters::value_of(self@.headers, "Altitude"@), r) {
                (Some(raw), Some(Ok(v))) => chars::integer_within(
                    chars::trim(raw),
                    i64::MIN as int,
                    i64::MAX as int,
                ) == Some(v as int),
                (Some(raw), Some(Err(e))) => chars::integer_within(
                    chars::trim(raw),
                    i64::MIN as int,
                    i64::MAX as int,
                ) is None && e == Error::InvalidData(Fault::Altitude),
                (None, None) => true,
                _ => false,
            },
    {
        match self.header("Altitude") {
            Some(raw) => {
                let v = to_chars(raw);
                match parse_integer(trimmed(v.as_slice()), i64::MIN, i64::MAX) {
                    Some(a) => Some(Ok(a)),
                    None => Some(Err(Error::InvalidData(Fault::Altitude))),
                }
            },
            None => None,
        }
    }

    /// The `Display-hint` header, read.
    pub fn display_hint(&self) -> (r: Option<Result<DisplayHint, Error>>)
        ensures
            match (parameters::value_of(self@.headers, "Display-hint"@), r) {
                (Some(raw), Some(Ok(h))) => h.wf() && display_hint::hint_in(raw) == Ok::<
                    display_hint::HintView,
                    Fault,
                >(h@),
                (Some(raw), Some(Err(e))) => display_hint::hint_in(raw) matches Err(fault) && e
                    == Error::InvalidData(fault),
                (None, None) => true,
                _ => false,
            },
    {
        match self.header("Display-hint") {
            Some(raw) => Some(DisplayHint::parse(raw)),
            None => None,
        }
    }

    /// The `Content-Type` header, read.
    pub fn content_type(&self) -> (r: Option<Result<ContentType, Error>>)
        ensures
            match (parameters::value_of(self@.headers, "Content-Type"@), r) {
                (Some(raw), Some(Ok(t))) => content_type::content_type_fault(raw) is None
                    && t.spelled_by(raw),
                (Some(raw), Some(Err(e))) => content_type::content_type_fault(raw) matches Some(
                    fault,
                ) && e == Error::InvalidData(fault),
                (None, None) => true,
                _ => false,
            },
    {
        match self.header("Content-Type") {
            Some(raw) => Some(ContentType::parse(raw)),
            None => None,
        }
    }

    /// The `Title` header, read.
    pub fn title(&self) -> (r: Option<Title>)
        ensures
            match (parameters::value_of(self@.headers, "Title"@), r) {
                (Some(raw), Some(t)) => t@ == chars::trim(raw),
                (None, None) => true,
                _ => false,
            },
    {
        match self.header("Title") {
            Some(raw) => Some(Title::parse(raw)),
            None => None,
        }
    }

    /// The `Name` header, read.
    pub fn name(&self) -> (r: Option<Name>)
        ensures
            match (parameters::value_of(self@.headers, "Name"@), r) {
                (Some(raw), Some(t)) => t@ == chars::trim(raw),
                (None, None) => true,
                _ => false,
            },
    {
        match self.header("Name") {
            Some(raw) => Some(Name::parse(raw)),
            None => None,
        }
    }

    /// The granule that a granule position names.
    pub fn extract_granules(&self, granulepos: i64) -> (r: i64)
        ensures
            r == self@.granules_of(granulepos),
    {
        let shift: u64 = self.granuleshift as u64;
        if granulepos < 0 {
            return granulepos;
        }
        if shift >= 63 {
            return 0;
        }
        let g: u64 = granulepos as u64;
        proof {
            power2::lemma2_to64_rest();
            theora::lemma_small_shift(shift as nat);
            bits::lemma_u64_shr_is_div(g, shift);
            bits::lemma_u64_shl_is_mul(1, shift);
            theora::lemma_halves(g as int, power2::pow2(shift as nat) as int);
        }
        let unit: u64 = 1u64 << shift;
        let upper: u64 = g >> shift;
        let offset: u64 = g % unit;
        (upper + offset) as i64
    }

    /// Whether granules can be turned into time: both parts of the rate are
    /// positive.
    pub fn has_time(&self) -> (r: bool)
        ensures
            r == self@.timed(),
    {
        self.granule_rate.numerator > 0 && self.granule_rate.denominator > 0
    }

    /// The granules that lie before a granule position, where they can be
    /// turned into time.
    pub fn timed_granules(&self, granulepos: i64) -> (r: Option<i64>)
        ensures
            match r {
                Some(granules) => granulepos >= 0 && self@.timed() && granules
                    == self@.granules_of(granulepos),
                None => granulepos < 0 || !self@.timed(),
            },
    {
        if granulepos < 0 || !self.has_time() {
            None
        } else {
            Some(self.extract_granules(granulepos))
        }
    }

    /// The granules that lie before the start of the stream's data, where they
    /// can be turned into time.
    pub fn start_granules(&self) -> (r: Option<i64>)
        ensures
            r == (if self@.timed() {
                Some(self.basegranule)
            } else {
                None
            }),
    {
        if self.has_time() {
            Some(self.basegranule)
        } else {
            None
        }
    }

    /// The granules between the start of the stream's data and a granule
    /// position, where they can be turned into time. A difference beyond the
    /// range is cut off there.
    pub fn elapsed_granules(&self, granulepos: i64) -> (r: Option<i64>)
        ensures
            r == (if granulepos >= 0 && self@.timed() {
                Some(elapsed(self@.granules_of(granulepos), self.basegranule as int))
            } else {
                None
            }),
    {
        match self.timed_granules(granulepos) {
            Some(granules) => {
                let d: i128 = granules as i128 - self.basegranule as i128;
                if d > i64::MAX as i128 {
                    Some(i64::MAX)
                } else if d < i64::MIN as i128 {
                    Some(i64::MIN)
                } else {
                    Some(d as i64)
                }
            },
            None => None,
        }
    }
}

/// A difference cut off at the ends of the range.
pub open spec fn elapsed(granules: int, base: int) -> i64 {
    if granules - base > i64::MAX {
        i64::MAX
    } else if granules - base < i64::MIN {
        i64::MIN
    } else {
        (granules - base) as i64
    }
}

/// Lines without a colon spell no header.
proof fn lemma_no_headers(tail: Seq<u8>)
    requires
        !tail.contains(0x3A),
    ensures
        headers_in(bytes::split_at_byte(tail, 0x0A)) == Seq::<(Seq<char>, Seq<char>)>::empty(),
    decreases tail.len(),
{
    let lines = bytes::split_at_byte(tail, 0x0A);
    bytes::lemma_found_byte(tail, 0x0A, 0);
    assert forall|k: int| 0 <= k < tail.len() implies tail[k] != 0x3A by {}
    match bytes::find_byte(tail, 0x0A) {
        Some(i) => {
            let line = tail.take(i);
            let rest = tail.skip(i + 1);
            lemma_no_header(line);
            assert(!rest.contains(0x3A));
            lemma_no_headers(rest);
            assert(lines[0] == line);
            assert(lines.skip(1) =~= bytes::split_at_byte(rest, 0x0A));
        },
        None => {
            lemma_no_header(tail);
            assert(lines =~= seq![tail]);
            assert(lines.skip(1) =~= Seq::<Seq<u8>>::empty());
            assert(headers_in(lines.skip(1)) =~= Seq::<(Seq<char>, Seq<char>)>::empty());
        },
    }
}

proof fn lemma_no_header(line: Seq<u8>)
    requires
        forall|k: int| 0 <= k < line.len() ==> line[k] != 0x3A,
    ensures
        header_in(line) is None,
{
    let l = if line.len() > 0 && line.last() == 0x0D {
        line.drop_last()
    } else {
        line
    };
    bytes::lemma_find_no_byte(l, 0x3A, 0);
}

/// A packet whose headers can stand on a line each, such as one that was read,
/// reads back as it was written, whatever lines without a colon stand behind it.
pub proof fn law_bone_tail(b: FisBoneView, tail: Seq<u8>)
    requires
        all_plain(b.headers),
        !tail.contains(0x3A),
    ensures
        parsed_bone(b.encoded() + tail) == Ok::<FisBoneView, Error>(b),
{
    let p = b.encoded() + tail;
    let fixed = b.fixed_part();
    assert(fixed.len() == 52);
    assert(p.take(8) =~= FISBONE_MAGIC@);
    assert(bytes::le_u32(p.skip(8)) == FISBONE_MSG_HEADER_OFFSET) by {
        bytes::law_u32_le_round_trip(FISBONE_MSG_HEADER_OFFSET, p.skip(12));
        assert(p.skip(8) =~= bytes::u32_le(FISBONE_MSG_HEADER_OFFSET) + p.skip(12));
    }
    assert(bytes::le_u32(p.skip(12)) == b.serial) by {
        bytes::law_u32_le_round_trip(b.serial, p.skip(16));
        assert(p.skip(12) =~= bytes::u32_le(b.serial) + p.skip(16));
    }
    assert(bytes::le_u32(p.skip(16)) == b.num_headers) by {
        bytes::law_u32_le_round_trip(b.num_headers, p.skip(20));
        assert(p.skip(16) =~= bytes::u32_le(b.num_headers) + p.skip(20));
    }
    assert(bytes::le_i64(p.skip(20)) == b.granule_rate.numerator) by {
        bytes::law_i64_le_round_trip(b.granule_rate.numerator, p.skip(28));
        assert(p.skip(20) =~= bytes::i64_le(b.granule_rate.numerator) + p.skip(28));
    }
    assert(bytes::le_i64(p.skip(28)) == b.granule_rate.denominator) by {
        bytes::law_i64_le_round_trip(b.granule_rate.denominator, p.skip(36));
        assert(p.skip(28) =~= bytes::i64_le(b.granule_rate.denominator) + p.skip(36));
    }
    assert(bytes::le_i64(p.skip(36)) == b.basegranule) by {
        bytes::law_i64_le_round_trip(b.basegranule, p.skip(44));
        assert(p.skip(36) =~= bytes::i64_le(b.basegranule) + p.skip(44));
    }
    assert(bytes::le_u32(p.skip(44)) == b.preroll) by {
        bytes::law_u32_le_round_trip(b.preroll, p.skip(48));
        assert(p.skip(44) =~= bytes::u32_le(b.preroll) + p.skip(48));
    }
    assert(p.skip(52) =~= headers_encoded(b.headers) + tail);
    lemma_headers_lines(b.headers, tail);
    lemma_no_headers(tail);
    assert(b.headers + Seq::<(Seq<char>, Seq<char>)>::empty() =~= b.headers);
    assert(bone_in(p) =~= b);
}

/// A packet whose headers can stand on a line each, such as one that was read,
/// reads back as it was written.
pub proof fn law_bone_round_trip(b: FisBoneView)
    requires
        all_plain(b.headers),
    ensures
        parsed_bone(b.encoded()) == Ok::<FisBoneView, Error>(b),
{
    law_bone_tail(b, Seq::empty());
    assert(b.encoded() + Seq::<u8>::empty() =~= b.encoded());
}

} // verus!
