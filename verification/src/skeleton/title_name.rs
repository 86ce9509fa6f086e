//! The `Title` and `Name` message headers.
use crate::chars;
use crate::chars::{to_chars, to_text, trimmed};
use vstd::prelude::*;
use vstd::string::*;

verus! {

/// The value of a `Title` header.
#[derive(Clone, Debug, PartialEq, Eq)]
pub struct Title {
    raw: String,
}

impl View for Title {
    type V = Seq<char>;

    closed spec fn view(&self) -> Seq<char> {
        self.raw@
    }
}

/// `s` without a pair of double quotes around it, where it has one.
pub open spec fn without_quotes(s: Seq<char>) -> Seq<char> {
    if s.len() >= 2 && s[0] == '"' && s.last() == '"' {
        s.subrange(1, s.len() - 1)
    } else {
        s
    }
}

impl Title {
    /// Reads the value of a `Title` header.
    pub fn parse(raw: &str) -> (r: Title)
        ensures
            r@ == chars::trim(raw@),
    {
        Title { raw: to_text(trimmed(to_chars(raw).as_slice())) }
    }

    /// The value without surrounding white space.
    pub fn raw(&self) -> (r: &str)
        ensures
            r@ == self@,
    {
        self.raw.as_str()
    }

    /// The value without a pair of double quotes around it.
    pub fn display(&self) -> (r: &str)
        ensures
            r@ == without_quotes(self@),
    {
        let s = self.raw.as_str();
        let n: usize = s.unicode_len();
        if n >= 2 && s.get_char(0) == '"' && s.get_char(n - 1) == '"' {
            s.substring_char(1, n - 1)
        } else {
            s
        }
    }

    /// Whether the value is empty.
    pub fn is_empty(&self) -> (r: bool)
        ensures
            r == (self@.len() == 0),
    {
        self.raw.as_str().unicode_len() == 0
    }
}

/// The value of a `Name` header.
#[derive(Clone, Debug, PartialEq, Eq)]
pub struct Name {
    raw: String,
}

impl View for Name {
    type V = Seq<char>;

    closed spec fn view(&self) -> Seq<char> {
        self.raw@
    }
}

/// A character that a name may begin with.
pub open spec fn name_start(c: char) -> bool {
    let u = c as u32;
    ||| 'A' <= c <= 'Z'
    ||| c == '_'
    ||| 'a' <= c <= 'z'
    ||| 0xC0 <= u <= 0xD6
    ||| 0xD8 <= u <= 0xF6
    ||| 0xF8 <= u <= 0x2FF
    ||| 0x370 <= u <= 0x37D
    ||| 0x37F <= u <= 0x1FFF
    ||| 0x200C <= u <= 0x200D
    ||| 0x2070 <= u <= 0x218F
    ||| 0x2C00 <= u <= 0x2FEF
    ||| 0x3001 <= u <= 0xD7FF
    ||| 0xF900 <= u <= 0xFDCF
    ||| 0xFDF0 <= u <= 0xFFFD
    ||| 0x10000 <= u <= 0xEFFFF
}

/// A character that a name may go on with.
pub open spec fn name_char(c: char) -> bool {
    let u = c as u32;
    ||| name_start(c)
    ||| c == '-'
    ||| c == '.'
    ||| '0' <= c <= '9'
    ||| u == 0xB7
    ||| 0x300 <= u <= 0x36F
    ||| 0x203F <= u <= 0x2040
}

/// Whether `s` follows the grammar of names.
pub open spec fn well_formed_name(s: Seq<char>) -> bool {
    &&& s.len() > 0
    &&& name_start(s[0])
    &&& forall|i: int| 1 <= i < s.len() ==> name_char(#[trigger] s[i])
}

fn is_xml_name_start_char(c: char) -> (r: bool)
    ensures
        r == name_start(c),
{
    let u: u32 = c as u32;
    ('A' <= c && c <= 'Z') || c == '_' || ('a' <= c && c <= 'z') || (0xC0 <= u && u <= 0xD6) || (
    0xD8 <= u && u <= 0xF6) || (0xF8 <= u && u <= 0x2FF) || (0x370 <= u && u <= 0x37D) || (0x37F
        <= u && u <= 0x1FFF) || (0x200C <= u && u <= 0x200D) || (0x2070 <= u && u <= 0x218F) || (
    0x2C00 <= u && u <= 0x2FEF) || (0x3001 <= u && u <= 0xD7FF) || (0xF900 <= u && u <= 0xFDCF)
        || (0xFDF0 <= u && u <= 0xFFFD) || (0x10000 <= u && u <= 0xEFFFF)
}

fn is_xml_name_char(c: char) -> (r: bool)
    ensures
        r == name_char(c),
{
    let u: u32 = c as u32;
    is_xml_name_start_char(c) || c == '-' || c == '.' || ('0' <= c && c <= '9') || u == 0xB7 || (
    0x300 <= u && u <= 0x36F) || (0x203F <= u && u <= 0x2040)
}

impl Name {
    /// Reads the value of a `Name` header.
    pub fn parse(raw: &str) -> (r: Name)
        ensures
            r@ == chars::trim(raw@),
    {
        Name { raw: to_text(trimmed(to_chars(raw).as_slice())) }
    }

    /// The value without surrounding white space.
    pub fn raw(&self) -> (r: &str)
        ensures
            r@ == self@,
    {
        self.raw.as_str()
    }

    /// Whether the value follows the grammar of names.
    pub fn is_well_formed(&self) -> (r: bool)
        ensures
            r == well_formed_name(self@),
    {
        let v = to_chars(self.raw.as_str());
        if v.len() == 0 || !is_xml_name_start_char(v[0]) {
            return false;
        }
        let mut i: usize = 1;
        while i < v.len()
            invariant
                1 <= i <= v@.len(),
                v@ == self@,
                forall|k: int| 1 <= k < i ==> name_char(#[trigger] v@[k]),
            decreases v@.len() - i,
        {
            if !is_xml_name_char(v[i]) {
                assert(!name_char(self@[i as int]));
                return false;
            }
            i += 1;
        }
        true
    }

    /// Whether the value is empty.
    pub fn is_empty(&self) -> (r: bool)
        ensures
            r == (self@.len() == 0),
    {
        self.raw.as_str().unicode_len() == 0
    }
}

} // verus!
