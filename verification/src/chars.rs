//! Text as sequences of characters: trimming, splitting, comparing without
//! regard to case, and reading numbers.
use vstd::prelude::*;
use vstd::string::*;

verus! {

/// The characters of `s`.
pub fn to_chars(s: &str) -> (v: Vec<char>)
    ensures
        v@ == s@,
{
    let mut v: Vec<char> = Vec::new();
    for c in it: s.chars()
        invariant
            v@ == it.seq().take(it.index()),
            it.seq() == s@,
    {
        v.push(c);
        assert(v@ =~= it.seq().take(it.index() + 1));
    }
    assert(v@ =~= s@);
    v
}

/// A string of the given characters.
pub fn to_text(v: &[char]) -> (s: String)
    ensures
        s@ == v@,
{
    let mut s = String::new();
    let mut i: usize = 0;
    while i < v.len()
        invariant
            i <= v@.len(),
            s@ == v@.take(i as int),
        decreases v@.len() - i,
    {
        s.push(v[i]);
        i += 1;
        assert(s@ =~= v@.take(i as int));
    }
    assert(s@ =~= v@);
    s
}

// ---------------------------------------------------------------------------
// White space
// ---------------------------------------------------------------------------
/// The characters with the Unicode property `White_Space`.
pub open spec fn whitespace(c: char) -> bool {
    ||| 0x09 <= c as u32 <= 0x0D
    ||| c as u32 == 0x20
    ||| c as u32 == 0x85
    ||| c as u32 == 0xA0
    ||| c as u32 == 0x1680
    ||| 0x2000 <= c as u32 <= 0x200A
    ||| c as u32 == 0x2028
    ||| c as u32 == 0x2029
    ||| c as u32 == 0x202F
    ||| c as u32 == 0x205F
    ||| c as u32 == 0x3000
}

/// Whether `c` is white space.
pub fn is_whitespace(c: char) -> (r: bool)
    ensures
        r == whitespace(c),
{
    let u: u32 = c as u32;
    (0x09 <= u && u <= 0x0D) || u == 0x20 || u == 0x85 || u == 0xA0 || u == 0x1680 || (0x2000 <= u
        && u <= 0x200A) || u == 0x2028 || u == 0x2029 || u == 0x202F || u == 0x205F || u == 0x3000
}

/// `s` without leading white space.
pub open spec fn trim_start(s: Seq<char>) -> Seq<char>
    decreases s.len(),
{
    if s.len() > 0 && whitespace(s[0]) {
        trim_start(s.skip(1))
    } else {
        s
    }
}

/// `s` without trailing white space.
pub open spec fn trim_end(s: Seq<char>) -> Seq<char>
    decreases s.len(),
{
    if s.len() > 0 && whitespace(s.last()) {
        trim_end(s.drop_last())
    } else {
        s
    }
}

/// `s` without surrounding white space.
pub open spec fn trim(s: Seq<char>) -> Seq<char> {
    trim_end(trim_start(s))
}

/// Where `trim` of the characters begins and ends.
pub fn trim_range(v: &[char]) -> (r: (usize, usize))
    ensures
        r.0 <= r.1 <= v@.len(),
        trim(v@) == v@.subrange(r.0 as int, r.1 as int),
{
    let n: usize = v.len();
    let mut a: usize = 0;
    assert(v@.skip(0) =~= v@);
    while a < n && is_whitespace(v[a])
        invariant
            n == v@.len(),
            a <= n,
            trim_start(v@) == trim_start(v@.skip(a as int)),
        decreases n - a,
    {
        assert(v@.skip(a as int).skip(1) =~= v@.skip(a + 1));
        a += 1;
    }
    let mut b: usize = n;
    assert(v@.skip(a as int) =~= v@.subrange(a as int, b as int));
    while b > a && is_whitespace(v[b - 1])
        invariant
            n == v@.len(),
            a <= b <= n,
            trim(v@) == trim_end(v@.subrange(a as int, b as int)),
        decreases b,
    {
        assert(v@.subrange(a as int, b as int).drop_last() =~= v@.subrange(a as int, b - 1));
        b -= 1;
    }
    (a, b)
}

/// The characters of `v` without surrounding white space.
pub fn trimmed<'a>(v: &'a [char]) -> (r: &'a [char])
    ensures
        r@ == trim(v@),
{
    let (a, b) = trim_range(v);
    vstd::slice::slice_subrange(v, a, b)
}

/// What is left after trimming neither begins nor ends with white space, and
/// trimming it again changes nothing.
pub proof fn law_trim(s: Seq<char>)
    ensures
        trim(s).len() > 0 ==> !whitespace(trim(s)[0]) && !whitespace(trim(s).last()),
        trim(trim(s)) == trim(s),
{
    lemma_trim_start(s);
    lemma_trim_end(trim_start(s));
}

/// Every character is white space.
pub open spec fn blank(s: Seq<char>) -> bool {
    forall|i: int| 0 <= i < s.len() ==> whitespace(#[trigger] s[i])
}

/// A text that neither begins nor ends with white space.
pub open spec fn snug(s: Seq<char>) -> bool {
    s.len() > 0 && !whitespace(s[0]) && !whitespace(s[s.len() - 1])
}

proof fn lemma_trim_start_pad(a: Seq<char>, s: Seq<char>)
    requires
        blank(a),
        s.len() == 0 || !whitespace(s[0]),
    ensures
        trim_start(a + s) == s,
    decreases a.len(),
{
    if a.len() > 0 {
        let rest = a.skip(1);
        assert forall|i: int| 0 <= i < rest.len() implies whitespace(#[trigger] rest[i]) by {
            assert(whitespace(a[i + 1]));
        }
        assert(whitespace(a[0]));
        assert((a + s).skip(1) =~= rest + s);
        lemma_trim_start_pad(rest, s);
    } else {
        assert(a + s =~= s);
    }
}

proof fn lemma_trim_end_pad(s: Seq<char>, b: Seq<char>)
    requires
        blank(b),
        s.len() == 0 || !whitespace(s.last()),
    ensures
        trim_end(s + b) == s,
    decreases b.len(),
{
    if b.len() > 0 {
        let rest = b.drop_last();
        assert forall|i: int| 0 <= i < rest.len() implies whitespace(#[trigger] rest[i]) by {
            assert(whitespace(b[i]));
        }
        assert(whitespace(b[b.len() - 1]));
        assert((s + b).drop_last() =~= s + rest);
        lemma_trim_end_pad(s, rest);
    } else {
        assert(s + b =~= s);
    }
}

/// Trimming takes off exactly the white space around a text.
pub proof fn law_trim_pad(a: Seq<char>, s: Seq<char>, b: Seq<char>)
    requires
        blank(a),
        blank(b),
        snug(s) || (s.len() == 0 && b.len() == 0),
    ensures
        trim(a + s + b) == s,
{
    if s.len() > 0 {
        assert(a + s + b =~= a + (s + b));
        lemma_trim_start_pad(a, s + b);
    } else {
        assert(a + s + b =~= a + s);
        lemma_trim_start_pad(a, s);
        assert(s + b =~= s);
    }
    lemma_trim_end_pad(s, b);
}

/// What is left after trimming is a part of what was trimmed.
pub proof fn lemma_trim_within(s: Seq<char>)
    ensures
        forall|i: int| 0 <= i < trim(s).len() ==> s.contains(#[trigger] trim(s)[i]),
{
    lemma_start_within(s);
    lemma_end_within(trim_start(s));
    assert forall|i: int| 0 <= i < trim(s).len() implies s.contains(#[trigger] trim(s)[i]) by {
        assert(trim_start(s).contains(trim(s)[i]));
        let j = choose|j: int| 0 <= j < trim_start(s).len() && trim_start(s)[j] == trim(s)[i];
        assert(s.contains(trim_start(s)[j]));
    }
}

proof fn lemma_start_within(s: Seq<char>)
    ensures
        forall|i: int| 0 <= i < trim_start(s).len() ==> s.contains(#[trigger] trim_start(s)[i]),
    decreases s.len(),
{
    if s.len() > 0 && whitespace(s[0]) {
        let rest = s.skip(1);
        lemma_start_within(rest);
        assert forall|i: int| 0 <= i < trim_start(s).len() implies s.contains(
            #[trigger] trim_start(s)[i],
        ) by {
            assert(rest.contains(trim_start(rest)[i]));
            let j = choose|j: int| 0 <= j < rest.len() && rest[j] == trim_start(rest)[i];
            assert(s[j + 1] == rest[j]);
        }
    }
}

proof fn lemma_end_within(s: Seq<char>)
    ensures
        forall|i: int| 0 <= i < trim_end(s).len() ==> s.contains(#[trigger] trim_end(s)[i]),
    decreases s.len(),
{
    if s.len() > 0 && whitespace(s.last()) {
        let front = s.drop_last();
        lemma_end_within(front);
        assert forall|i: int| 0 <= i < trim_end(s).len() implies s.contains(
            #[trigger] trim_end(s)[i],
        ) by {
            assert(front.contains(trim_end(front)[i]));
            let j = choose|j: int| 0 <= j < front.len() && front[j] == trim_end(front)[i];
            assert(s[j] == front[j]);
        }
    }
}

proof fn lemma_trim_start(s: Seq<char>)
    ensures
        trim_start(s).len() > 0 ==> !whitespace(trim_start(s)[0]),
    decreases s.len(),
{
    if s.len() > 0 && whitespace(s[0]) {
        lemma_trim_start(s.skip(1));
    }
}

proof fn lemma_trim_end(s: Seq<char>)
    requires
        s.len() > 0 ==> !whitespace(s[0]),
    ensures
        trim_end(s).len() > 0 ==> !whitespace(trim_end(s)[0]) && !whitespace(trim_end(s).last()),
    decreases s.len(),
{
    if s.len() > 0 && whitespace(s.last()) {
        lemma_trim_end(s.drop_last());
    }
}

// ---------------------------------------------------------------------------
// Case
// ---------------------------------------------------------------------------
/// `c` with an ASCII capital made small.
pub open spec fn lower_char(c: char) -> char {
    if 'A' <= c <= 'Z' {
        (c as u8 + 32) as char
    } else {
        c
    }
}

/// `s` with ASCII capitals made small.
pub open spec fn lower(s: Seq<char>) -> Seq<char> {
    s.map_values(|c: char| lower_char(c))
}

/// Whether `a` and `b` are equal but for the case of ASCII letters.
pub open spec fn same_ignoring_case(a: Seq<char>, b: Seq<char>) -> bool {
    lower(a) == lower(b)
}

/// Making capitals small twice is making them small once.
pub proof fn law_lower_twice(s: Seq<char>)
    ensures
        lower(lower(s)) == lower(s),
{
    assert(lower(lower(s)) =~= lower(s));
}

fn to_lower_char(c: char) -> (r: char)
    ensures
        r == lower_char(c),
{
    if 'A' <= c && c <= 'Z' {
        (c as u8 + 32) as char
    } else {
        c
    }
}

/// The characters of `v` with ASCII capitals made small.
pub fn to_lower(v: &[char]) -> (r: Vec<char>)
    ensures
        r@ == lower(v@),
{
    let mut r: Vec<char> = Vec::new();
    let mut i: usize = 0;
    assert(r@ =~= lower(v@.take(0)));
    while i < v.len()
        invariant
            i <= v@.len(),
            r@ == lower(v@.take(i as int)),
        decreases v@.len() - i,
    {
        r.push(to_lower_char(v[i]));
        i += 1;
        assert(r@ =~= lower(v@.take(i as int)));
    }
    assert(v@.take(i as int) =~= v@);
    r
}

/// Whether `v` holds exactly the characters of `s`.
pub fn chars_eq(v: &[char], s: &str) -> (r: bool)
    ensures
        r == (v@ == s@),
{
    let w = to_chars(s);
    if v.len() != w.len() {
        return false;
    }
    let mut i: usize = 0;
    while i < v.len()
        invariant
            i <= v@.len(),
            v@.len() == w@.len(),
            w@ == s@,
            forall|k: int| 0 <= k < i ==> v@[k] == w@[k],
        decreases v@.len() - i,
    {
        if v[i] != w[i] {
            assert(v@[i as int] != s@[i as int]);
            return false;
        }
        i += 1;
    }
    assert(v@ =~= s@);
    true
}

/// Whether `a` and `b` are equal but for the case of ASCII letters.
pub fn eq_ignore_case(a: &str, b: &str) -> (r: bool)
    ensures
        r == same_ignoring_case(a@, b@),
{
    let x = to_lower(to_chars(a).as_slice());
    let y = to_lower(to_chars(b).as_slice());
    chars_eq(x.as_slice(), to_text(y.as_slice()).as_str())
}

// ---------------------------------------------------------------------------
// Finding and splitting
// ---------------------------------------------------------------------------
/// The first index at or behind `from` where `c` stands.
pub open spec fn find_from(s: Seq<char>, c: char, from: int) -> Option<int>
    decreases s.len() - from,
{
    if from >= s.len() {
        None
    } else if s[from] == c {
        Some(from)
    } else {
        find_from(s, c, from + 1)
    }
}

/// The first index where `c` stands.
pub open spec fn find(s: Seq<char>, c: char) -> Option<int> {
    find_from(s, c, 0)
}

/// The index that is found holds the character, and none before it does.
pub proof fn lemma_find(s: Seq<char>, c: char, from: int)
    requires
        0 <= from <= s.len(),
    ensures
        match find_from(s, c, from) {
            Some(i) => from <= i < s.len() && s[i] == c && forall|k: int|
                from <= k < i ==> s[k] != c,
            None => forall|k: int| from <= k < s.len() ==> s[k] != c,
        },
    decreases s.len() - from,
{
    if from < s.len() && s[from] != c {
        lemma_find(s, c, from + 1);
    }
}

/// The first index where `c` stands.
pub fn position(v: &[char], c: char) -> (r: Option<usize>)
    ensures
        match r {
            Some(i) => find(v@, c) == Some(i as int) && i < v@.len(),
            None => find(v@, c) is None,
        },
{
    let mut i: usize = 0;
    while i < v.len()
        invariant
            i <= v@.len(),
            find(v@, c) == find_from(v@, c, i as int),
        decreases v@.len() - i,
    {
        if v[i] == c {
            return Some(i);
        }
        i += 1;
    }
    None
}

/// The pieces of `s` between separators: one more than there are separators.
pub open spec fn split(s: Seq<char>, sep: char) -> Seq<Seq<char>>
    decreases s.len(),
{
    match find(s, sep) {
        Some(i) => if 0 <= i < s.len() {
            seq![s.take(i)] + split(s.skip(i + 1), sep)
        } else {
            seq![s]
        },
        None => seq![s],
    }
}

/// The first of the pieces that begin at `from`: where it ends, and whether
/// another piece follows.
pub fn next_piece(v: &[char], sep: char, from: usize) -> (r: (usize, bool))
    requires
        from <= v@.len(),
    ensures
        from <= r.0 <= v@.len(),
        r.1 ==> r.0 < v@.len() && r.0 < usize::MAX,
        split(v@.skip(from as int), sep) == (if r.1 {
            seq![v@.subrange(from as int, r.0 as int)] + split(v@.skip(r.0 + 1), sep)
        } else {
            seq![v@.subrange(from as int, r.0 as int)]
        }),
{
    let tail = vstd::slice::slice_subrange(v, from, v.len());
    assert(tail@ =~= v@.skip(from as int));
    match position(tail, sep) {
        Some(i) => {
            proof {
                assert(tail@.take(i as int) =~= v@.subrange(from as int, from + i));
                assert(tail@.skip(i + 1) =~= v@.skip(from + i + 1));
            }
            (from + i, true)
        },
        None => {
            assert(v@.skip(from as int) =~= v@.subrange(from as int, v@.len() as int));
            (v.len(), false)
        },
    }
}

// ---------------------------------------------------------------------------
// Numbers
// ---------------------------------------------------------------------------
pub open spec fn is_digit(c: char) -> bool {
    '0' <= c <= '9'
}

pub open spec fn all_digits(s: Seq<char>) -> bool {
    forall|i: int| 0 <= i < s.len() ==> is_digit(#[trigger] s[i])
}

/// The number that decimal digits stand for.
pub open spec fn digits_value(s: Seq<char>) -> nat
    decreases s.len(),
{
    if s.len() == 0 {
        0
    } else {
        10 * digits_value(s.drop_last()) + (s.last() as u32 - 0x30) as nat
    }
}

/// Whether `s` begins with a sign.
pub open spec fn signed(s: Seq<char>) -> bool {
    s.len() > 0 && (s[0] == '+' || s[0] == '-')
}

/// `s` without its sign.
pub open spec fn unsigned(s: Seq<char>) -> Seq<char> {
    if signed(s) {
        s.skip(1)
    } else {
        s
    }
}

/// The integer that `s` spells: an optional sign and at least one digit.
pub open spec fn integer(s: Seq<char>) -> Option<int> {
    let digits = unsigned(s);
    if digits.len() == 0 || !all_digits(digits) {
        None
    } else if s[0] == '-' {
        Some(-(digits_value(digits) as int))
    } else {
        Some(digits_value(digits) as int)
    }
}

/// The integer that `s` spells, where it lies between `lo` and `hi`.
pub open spec fn integer_within(s: Seq<char>, lo: int, hi: int) -> Option<int> {
    match integer(s) {
        Some(n) => if lo <= n <= hi {
            Some(n)
        } else {
            None
        },
        None => None,
    }
}

/// The value of decimal digits, where `v` holds nothing else and the value
/// stays within `max`.
fn parse_digits(v: &[char], max: u64) -> (r: Option<u64>)
    requires
        max <= 0x8000_0000_0000_0000,
    ensures
        match r {
            Some(n) => all_digits(v@) && n == digits_value(v@) && n <= max,
            None => !all_digits(v@) || digits_value(v@) > max,
        },
{
    let mut n: u64 = 0;
    let mut i: usize = 0;
    while i < v.len()
        invariant
            i <= v@.len(),
            max <= 0x8000_0000_0000_0000,
            n <= max,
            n == digits_value(v@.take(i as int)),
            forall|k: int| 0 <= k < i ==> is_digit(#[trigger] v@[k]),
        decreases v@.len() - i,
    {
        let c: char = v[i];
        if !('0' <= c && c <= '9') {
            assert(!is_digit(v@[i as int]));
            return None;
        }
        let d: u64 = (c as u32 - 0x30) as u64;
        proof {
            assert(v@.take(i + 1).drop_last() =~= v@.take(i as int));
            lemma_digits_grow(v@, i + 1);
        }
        if n > 0x1999_9999_9999_9998 || 10 * n + d > max {
            return None;
        }
        n = 10 * n + d;
        i += 1;
    }
    assert(v@.take(i as int) =~= v@);
    Some(n)
}

/// More digits do not make the number smaller.
pub proof fn lemma_digits_grow(s: Seq<char>, n: int)
    requires
        0 <= n <= s.len(),
    ensures
        all_digits(s) ==> digits_value(s.take(n)) <= digits_value(s),
    decreases s.len() - n,
{
    if n == s.len() {
        assert(s.take(n) =~= s);
    } else {
        lemma_digits_grow(s, n + 1);
        assert(s.take(n + 1).drop_last() =~= s.take(n));
    }
}

/// Reads a signed integer that lies between `lo` and `hi`.
pub fn parse_integer(v: &[char], lo: i64, hi: i64) -> (r: Option<i64>)
    requires
        lo <= 0 <= hi,
    ensures
        match r {
            Some(n) => integer_within(v@, lo as int, hi as int) == Some(n as int),
            None => integer_within(v@, lo as int, hi as int) is None,
        },
{
    let n: usize = v.len();
    if n == 0 {
        return None;
    }
    let negative: bool = v[0] == '-';
    let start: usize = if negative || v[0] == '+' {
        1
    } else {
        0
    };
    let digits = vstd::slice::slice_subrange(v, start, n);
    assert(digits@ =~= unsigned(v@));
    if digits.len() == 0 {
        return None;
    }
    if negative {
        let max: u64 = if lo == 0 {
            0
        } else {
            (-(lo + 1)) as u64 + 1
        };
        match parse_digits(digits, max) {
            Some(m) => {
                if m == 0x8000_0000_0000_0000 {
                    Some(i64::MIN)
                } else {
                    Some(-(m as i64))
                }
            },
            None => None,
        }
    } else {
        match parse_digits(digits, hi as u64) {
            Some(m) => Some(m as i64),
            None => None,
        }
    }
}

/// A run of digits with at most one point among them, and at least one digit.
pub open spec fn mantissa(s: Seq<char>) -> bool {
    match find(s, '.') {
        Some(i) => all_digits(s.take(i)) && all_digits(s.skip(i + 1)) && s.len() > 1,
        None => all_digits(s) && s.len() > 0,
    }
}

/// The decimal notation of a real number: an optional sign, then `inf`,
/// `infinity`, `nan`, or a mantissa with an optional exponent, in capitals or
/// small letters.
pub open spec fn real_notation(s: Seq<char>) -> bool {
    let t = unsigned(lower(s));
    ||| t == "inf"@
    ||| t == "infinity"@
    ||| t == "nan"@
    ||| match find(t, 'e') {
        Some(i) => mantissa(t.take(i)) && unsigned(t.skip(i + 1)).len() > 0 && all_digits(
            unsigned(t.skip(i + 1)),
        ),
        None => mantissa(t),
    }
}

fn only_digits(v: &[char]) -> (r: bool)
    ensures
        r == all_digits(v@),
{
    let mut i: usize = 0;
    while i < v.len()
        invariant
            i <= v@.len(),
            forall|k: int| 0 <= k < i ==> is_digit(#[trigger] v@[k]),
        decreases v@.len() - i,
    {
        if !('0' <= v[i] && v[i] <= '9') {
            assert(!is_digit(v@[i as int]));
            return false;
        }
        i += 1;
    }
    true
}

/// `v` without its sign.
pub fn without_sign<'a>(v: &'a [char]) -> (r: &'a [char])
    ensures
        r@ == unsigned(v@),
{
    if v.len() > 0 && (v[0] == '+' || v[0] == '-') {
        let r = vstd::slice::slice_subrange(v, 1, v.len());
        assert(r@ =~= v@.skip(1));
        r
    } else {
        v
    }
}

fn is_mantissa(v: &[char]) -> (r: bool)
    ensures
        r == mantissa(v@),
{
    let n: usize = v.len();
    match position(v, '.') {
        Some(i) => {
            let whole = vstd::slice::slice_subrange(v, 0, i);
            let part = vstd::slice::slice_subrange(v, i + 1, n);
            assert(whole@ =~= v@.take(i as int));
            assert(part@ =~= v@.skip(i + 1));
            only_digits(whole) && only_digits(part) && n > 1
        },
        None => only_digits(v) && n > 0,
    }
}

/// Whether `v` is the decimal notation of a real number.
pub fn is_real_notation(v: &[char]) -> (r: bool)
    ensures
        r == real_notation(v@),
{
    let small = to_lower(v);
    let t = without_sign(small.as_slice());
    if chars_eq(t, "inf") || chars_eq(t, "infinity") || chars_eq(t, "nan") {
        return true;
    }
    let n: usize = t.len();
    match position(t, 'e') {
        Some(i) => {
            let number = vstd::slice::slice_subrange(t, 0, i);
            let power = without_sign(vstd::slice::slice_subrange(t, i + 1, n));
            assert(number@ =~= t@.take(i as int));
            assert(t@.subrange(i + 1, t@.len() as int) =~= t@.skip(i + 1));
            is_mantissa(number) && power.len() > 0 && only_digits(power)
        },
        None => is_mantissa(t),
    }
}

} // verus!
