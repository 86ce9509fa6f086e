//! What holds of texts that are cut into pieces, compared and read as numbers.
use crate::chars;
use crate::text;
use vstd::prelude::*;

verus! {

// ---------------------------------------------------------------------------
// Case
// ---------------------------------------------------------------------------
/// Two characters are the same but for the case of an ASCII letter.
pub open spec fn same_letter(a: char, b: char) -> bool {
    ||| a == b
    ||| 'A' <= a <= 'Z' && b as u32 == a as u32 + 32
    ||| 'A' <= b <= 'Z' && a as u32 == b as u32 + 32
}

proof fn lemma_same_letter(a: char, b: char)
    ensures
        chars::lower_char(a) == chars::lower_char(b) <==> same_letter(a, b),
{
    vstd::utf8::char_u32_cast(a, a as u32);
    vstd::utf8::char_u32_cast(b, b as u32);
    let (x, y) = (chars::lower_char(a), chars::lower_char(b));
    assert('A' <= a <= 'Z' ==> x as u32 == a as u32 + 32);
    assert('A' <= b <= 'Z' ==> y as u32 == b as u32 + 32);
    vstd::utf8::char_u32_cast(x, x as u32);
    vstd::utf8::char_u32_cast(y, y as u32);
    if x as u32 == y as u32 {
        assert(x == y);
    }
}

/// Two texts are equal but for case exactly where they are equally long and each
/// of their characters is.
pub proof fn law_same_ignoring_case(a: Seq<char>, b: Seq<char>)
    ensures
        chars::same_ignoring_case(a, b) <==> a.len() == b.len() && forall|i: int|
            0 <= i < a.len() ==> same_letter(#[trigger] a[i], b[i]),
{
    let (x, y) = (chars::lower(a), chars::lower(b));
    if chars::same_ignoring_case(a, b) {
        assert(x.len() == y.len());
        assert forall|i: int| 0 <= i < a.len() implies same_letter(#[trigger] a[i], b[i]) by {
            assert(x[i] == y[i]);
            lemma_same_letter(a[i], b[i]);
        }
    }
    if a.len() == b.len() && forall|i: int|
        0 <= i < a.len() ==> same_letter(#[trigger] a[i], b[i]) {
        assert forall|i: int| 0 <= i < x.len() implies x[i] == y[i] by {
            assert(same_letter(a[i], b[i]));
            lemma_same_letter(a[i], b[i]);
        }
        assert(x =~= y);
    }
}

// ---------------------------------------------------------------------------
// Pieces
// ---------------------------------------------------------------------------
/// Pieces with a separator between each two of them.
pub open spec fn joined(pieces: Seq<Seq<char>>, sep: char) -> Seq<char>
    decreases pieces.len(),
{
    if pieces.len() == 0 {
        Seq::empty()
    } else if pieces.len() == 1 {
        pieces[0]
    } else {
        pieces[0] + seq![sep] + joined(pieces.skip(1), sep)
    }
}

/// No piece holds the separator.
pub open spec fn without(pieces: Seq<Seq<char>>, sep: char) -> bool {
    forall|i: int| 0 <= i < pieces.len() ==> !(#[trigger] pieces[i]).contains(sep)
}

pub proof fn lemma_find_is(s: Seq<char>, c: char, from: int, at: int)
    requires
        0 <= from <= at < s.len(),
        s[at] == c,
        forall|i: int| from <= i < at ==> s[i] != c,
    ensures
        chars::find_from(s, c, from) == Some(at),
    decreases at - from,
{
    if from < at {
        lemma_find_is(s, c, from + 1, at);
    }
}

pub proof fn lemma_find_none(s: Seq<char>, c: char, from: int)
    requires
        0 <= from <= s.len(),
        !s.contains(c),
    ensures
        chars::find_from(s, c, from) is None,
    decreases s.len() - from,
{
    if from < s.len() {
        assert(s.contains(s[from]));
        lemma_find_none(s, c, from + 1);
    }
}

/// Pieces that were put together are told apart again: the first `c` behind `a`
/// ends it.
pub proof fn lemma_find_behind(a: Seq<char>, c: char, b: Seq<char>)
    requires
        !a.contains(c),
    ensures
        chars::find(a + seq![c] + b, c) == Some(a.len() as int),
{
    let s = a + seq![c] + b;
    assert forall|i: int| 0 <= i < a.len() implies s[i] != c by {
        assert(a.contains(a[i]));
    }
    lemma_find_is(s, c, 0, a.len() as int);
}

/// A text is cut at each separator, and nowhere else.
pub proof fn law_split_joined(pieces: Seq<Seq<char>>, sep: char)
    requires
        pieces.len() > 0,
        without(pieces, sep),
    ensures
        chars::split(joined(pieces, sep), sep) == pieces,
    decreases pieces.len(),
{
    let s = joined(pieces, sep);
    assert(!pieces[0].contains(sep));
    if pieces.len() == 1 {
        lemma_find_none(s, sep, 0);
        assert(chars::split(s, sep) =~= pieces);
    } else {
        let rest = pieces.skip(1);
        assert forall|i: int| 0 <= i < rest.len() implies !(#[trigger] rest[i]).contains(sep) by {
            assert(!pieces[i + 1].contains(sep));
        }
        lemma_find_behind(pieces[0], sep, joined(rest, sep));
        let i = pieces[0].len() as int;
        assert(s.take(i) =~= pieces[0]);
        assert(s.skip(i + 1) =~= joined(rest, sep));
        law_split_joined(rest, sep);
        assert(seq![pieces[0]] + rest =~= pieces);
    }
}

// ---------------------------------------------------------------------------
// Numbers
// ---------------------------------------------------------------------------
/// The decimal form of a number has digits only, and they stand for the number.
pub proof fn law_decimal(n: nat)
    ensures
        text::decimal(n).len() > 0,
        chars::all_digits(text::decimal(n)),
        chars::digits_value(text::decimal(n)) == n,
        n > 0 ==> text::decimal(n)[0] != '0',
    decreases n,
{
    let s = text::decimal(n);
    let d = (n % 10) as int;
    let c = text::digit(d);
    vstd::utf8::char_u32_cast(c, c as u32);
    assert(c as u32 == 0x30 + d);
    if n < 10 {
        assert(s[0] == text::digit(n as int));
        assert(s.drop_last() =~= Seq::<char>::empty());
        assert(chars::digits_value(s.drop_last()) == 0);
        assert(s.last() == c);
    } else {
        let front = text::decimal(n / 10);
        law_decimal(n / 10);
        assert(s.drop_last() =~= front);
        assert(s.last() == c);
        assert forall|i: int| 0 <= i < s.len() implies chars::is_digit(#[trigger] s[i]) by {
            if i < front.len() {
                assert(chars::is_digit(front[i]));
            }
        }
        assert(s[0] == front[0]);
    }
}

/// A number in decimal form is read back, negative ones with their sign and
/// positive ones with or without one.
pub proof fn law_integer(n: int)
    ensures
        chars::integer(text::signed_decimal(n)) == Some(n),
        n >= 0 ==> chars::integer(seq!['+'] + text::decimal(n as nat)) == Some(n),
        n >= 0 ==> chars::integer(seq!['-'] + text::decimal(n as nat)) == Some(-n),
{
    let m = if n < 0 {
        (-n) as nat
    } else {
        n as nat
    };
    let d = text::decimal(m);
    law_decimal(m);
    assert(chars::is_digit(d[0]));
    assert((seq!['-'] + d).skip(1) =~= d);
    assert((seq!['+'] + d).skip(1) =~= d);
    assert((seq!['+'] + d)[0] == '+');
    assert((seq!['-'] + d)[0] == '-');
}

/// A zero before the digits of a number does not change it.
pub proof fn law_leading_zero(digits: Seq<char>)
    ensures
        chars::digits_value(seq!['0'] + digits) == chars::digits_value(digits),
    decreases digits.len(),
{
    let s = seq!['0'] + digits;
    if digits.len() == 0 {
        assert(s =~= seq!['0']);
        assert(s.drop_last() =~= Seq::<char>::empty());
        assert(chars::digits_value(s.drop_last()) == 0);
    } else {
        law_leading_zero(digits.drop_last());
        assert(s.drop_last() =~= seq!['0'] + digits.drop_last());
        assert(s.last() == digits.last());
    }
}

/// The value of a hexadecimal digit.
pub open spec fn hex_value(c: char) -> int {
    if '0' <= c <= '9' {
        c as u32 - 0x30
    } else {
        c as u32 - 0x61 + 10
    }
}

/// The number that hexadecimal digits stand for.
pub open spec fn hex_number(s: Seq<char>) -> int
    decreases s.len(),
{
    if s.len() == 0 {
        0
    } else {
        16 * hex_number(s.drop_last()) + hex_value(s.last())
    }
}

proof fn lemma_hex(n: nat, width: nat, bound: nat)
    requires
        bound == vstd::arithmetic::power::pow(16, width) as nat,
    ensures
        text::hex(n, width).len() == width,
        n < bound ==> hex_number(text::hex(n, width)) == n,
    decreases width,
{
    reveal(vstd::arithmetic::power::pow);
    if width > 0 {
        let less = vstd::arithmetic::power::pow(16, (width - 1) as nat) as nat;
        vstd::arithmetic::power::lemma_pow_positive(16, (width - 1) as nat);
        lemma_hex(n / 16, (width - 1) as nat, less);
        let s = text::hex(n, width);
        let d = (n % 16) as int;
        let c = text::digit(d);
        vstd::utf8::char_u32_cast(c, c as u32);
        assert(s.drop_last() =~= text::hex(n / 16, (width - 1) as nat));
        assert(s.last() == c);
        assert(hex_value(c) == d);
        if n < bound {
            assert(n / 16 < less);
        }
    }
}

/// The eight hexadecimal digits of a number stand for it.
pub proof fn law_hex(n: u32)
    ensures
        text::hex_u32(n).len() == 10,
        text::hex_u32(n).take(2) == "0x"@,
        hex_number(text::hex_u32(n).skip(2)) == n,
{
    reveal_strlit("0x");
    vstd::arithmetic::power::lemma_pow_positive(16, 8);
    assert(vstd::arithmetic::power::pow(16, 8) == 0x1_0000_0000) by {
        reveal_with_fuel(vstd::arithmetic::power::pow, 9);
    }
    lemma_hex(n as nat, 8, 0x1_0000_0000);
    assert(text::hex_u32(n).skip(2) =~= text::hex(n as nat, 8));
    assert(text::hex_u32(n).take(2) =~= "0x"@);
}

} // verus!
