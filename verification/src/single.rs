//! Decimal numbers rounded to single-precision binary numbers.
use crate::chars;
use crate::chars::{chars_eq, is_real_notation, position, to_lower, without_sign};
use vstd::arithmetic::power2;
use vstd::prelude::*;

verus! {

/// The magnitude of infinity.
pub const INFINITE: u32 = 0x7F80_0000;

/// A magnitude that stands for no number.
pub const NOT_A_NUMBER: u32 = 0x7FC0_0000;

/// The sign bit.
pub const SIGN: u32 = 0x8000_0000;

/// The largest power of ten that is kept of an exponent.
const POWER_LIMIT: i128 = 0x10_0000_0000_0000_0000_0000_0000;

// ---------------------------------------------------------------------------
// The format
// ---------------------------------------------------------------------------
/// 10 to the power of `k`.
pub open spec fn pow10(k: nat) -> nat
    decreases k,
{
    if k == 0 {
        1
    } else {
        10 * pow10((k - 1) as nat)
    }
}

/// The significand of the number with magnitude `b`: 23 bits, and one more that
/// is set where the exponent field is not zero.
pub open spec fn significand(b: nat) -> nat {
    if b < 0x80_0000 {
        b
    } else {
        0x80_0000 + b % 0x80_0000
    }
}

/// The power of two by which the significand is scaled.
pub open spec fn scale(b: nat) -> nat {
    if b < 0x80_0000 {
        0
    } else {
        (b / 0x80_0000 - 1) as nat
    }
}

/// The number with magnitude `b`, in units of the smallest positive one, which
/// is 2 to the power of -149. Behind the largest number comes the one that an
/// unbounded exponent would give.
pub open spec fn units(b: nat) -> nat {
    significand(b) * power2::pow2(scale(b))
}

/// A number in decimal notation: `digits` times 10 to the power of `exponent`.
pub struct Decimal {
    pub digits: nat,
    pub exponent: int,
}

/// `x` lies beyond the middle between the number with magnitude `b` and the
/// next, or in the middle where `b` is odd.
pub open spec fn beyond(x: Decimal, b: nat) -> bool {
    let middle = units(b) + units(b + 1);
    let whole = if x.exponent >= 0 {
        x.digits * pow10(x.exponent as nat)
    } else {
        x.digits
    };
    let left = whole * power2::pow2(150);
    let right = if x.exponent >= 0 {
        middle
    } else {
        middle * pow10((-x.exponent) as nat)
    };
    left > right || (left == right && b % 2 == 1)
}

/// `b` is the magnitude of the number that is nearest to `x`; of two that are
/// equally near, the even one; and infinity behind the largest.
pub open spec fn nearest(x: Decimal, b: nat) -> bool {
    &&& b <= INFINITE
    &&& b == 0 || beyond(x, (b - 1) as nat)
    &&& b < INFINITE ==> !beyond(x, b)
}

/// The digits of a mantissa, without its point.
pub open spec fn mantissa_digits(s: Seq<char>) -> Seq<char> {
    match chars::find(s, '.') {
        Some(i) => s.take(i) + s.skip(i + 1),
        None => s,
    }
}

/// Number of digits behind the point of a mantissa.
pub open spec fn fraction_len(s: Seq<char>) -> int {
    match chars::find(s, '.') {
        Some(i) => s.len() - i - 1,
        None => 0,
    }
}

/// The number that a mantissa with an optional exponent spells.
pub open spec fn decimal_in(t: Seq<char>) -> Decimal {
    match chars::find(t, 'e') {
        Some(i) => Decimal {
            digits: chars::digits_value(mantissa_digits(t.take(i))),
            exponent: chars::integer(t.skip(i + 1))->Some_0 - fraction_len(t.take(i)),
        },
        None => Decimal {
            digits: chars::digits_value(mantissa_digits(t)),
            exponent: -fraction_len(t),
        },
    }
}

/// The magnitude of the number that an unsigned notation in small letters
/// spells.
pub open spec fn magnitude_in(t: Seq<char>) -> nat {
    if t == "inf"@ || t == "infinity"@ {
        INFINITE as nat
    } else if t == "nan"@ {
        NOT_A_NUMBER as nat
    } else {
        choose|b: nat| nearest(decimal_in(t), b)
    }
}

/// The bits of the number that a notation spells.
pub open spec fn bits_in(s: Seq<char>) -> u32 {
    (magnitude_in(chars::unsigned(chars::lower(s))) + if s.len() > 0 && s[0] == '-' {
        SIGN as nat
    } else {
        0
    }) as u32
}

/// Two patterns of bits stand for one number: they are the same or both zero,
/// and neither of them stands for none.
pub open spec fn same_number(a: u32, b: u32) -> bool {
    &&& a % SIGN <= INFINITE
    &&& b % SIGN <= INFINITE
    &&& a == b || (a % SIGN == 0 && b % SIGN == 0)
}

/// A single-precision number.
#[derive(Clone, Copy, Debug)]
pub struct Single {
    bits: u32,
}

impl View for Single {
    type V = u32;

    closed spec fn view(&self) -> u32 {
        self.bits
    }
}

impl Single {
    /// The number with these bits.
    pub fn from_bits(bits: u32) -> (s: Self)
        ensures
            s@ == bits,
    {
        Single { bits }
    }

    /// The bits of the number.
    pub fn to_bits(self) -> (r: u32)
        ensures
            r == self@,
    {
        self.bits
    }
}

impl PartialEq for Single {
    fn eq(&self, other: &Single) -> (r: bool) {
        self.bits % SIGN <= INFINITE && other.bits % SIGN <= INFINITE && (self.bits == other.bits
            || (self.bits % SIGN == 0 && other.bits % SIGN == 0))
    }
}

impl vstd::std_specs::cmp::PartialEqSpecImpl for Single {
    open spec fn obeys_eq_spec() -> bool {
        true
    }

    open spec fn eq_spec(&self, other: &Single) -> bool {
        same_number(self@, other@)
    }
}

// ---------------------------------------------------------------------------
// Order
// ---------------------------------------------------------------------------
proof fn lemma_pow10_adds(a: nat, b: nat)
    ensures
        pow10(a + b) == pow10(a) * pow10(b),
        pow10(a) >= 1,
    decreases a,
{
    if a > 0 {
        lemma_pow10_adds((a - 1) as nat, b);
        let p = pow10((a - 1) as nat);
        let q = pow10(b);
        assert(10 * (p * q) == (10 * p) * q) by (nonlinear_arith);
        assert((a + b - 1) as nat == ((a - 1) as nat) + b);
    } else {
        let q = pow10(b);
        assert(1 * q == q) by (nonlinear_arith);
    }
}

proof fn lemma_pow10_grows(a: nat, b: nat)
    requires
        a <= b,
    ensures
        pow10(a) <= pow10(b),
    decreases b - a,
{
    if a < b {
        lemma_pow10_grows(a, (b - 1) as nat);
        lemma_pow10_adds((b - 1) as nat, 0);
    }
}

/// The step from one number to the next.
proof fn lemma_units_next(b: nat)
    ensures
        units(b + 1) == units(b) + power2::pow2(scale(b)),
        power2::pow2(scale(b)) > 0,
{
    let p = power2::pow2(scale(b));
    power2::lemma_pow2_pos(scale(b));
    if b + 1 < 0x80_0000 {
        assert((b + 1) * p == b * p + p) by (nonlinear_arith);
    } else if b + 1 == 0x80_0000 {
        assert(0x80_0000 * p == b * p + p) by (nonlinear_arith)
            requires
                b + 1 == 0x80_0000,
        ;
    } else if (b + 1) % 0x80_0000 != 0 {
        assert((b + 1) / 0x80_0000 == b / 0x80_0000);
        let m = significand(b);
        assert(significand(b + 1) == m + 1);
        assert((m + 1) * p == m * p + p) by (nonlinear_arith);
    } else {
        assert((b + 1) / 0x80_0000 == b / 0x80_0000 + 1);
        assert(b % 0x80_0000 == 0x7F_FFFF);
        power2::lemma_pow2_unfold(scale(b + 1));
        assert(scale(b + 1) == scale(b) + 1);
        assert(significand(b) == 0xFF_FFFF);
        assert(0x80_0000 * (2 * p) == 0xFF_FFFF * p + p) by (nonlinear_arith);
    }
}

/// Twice the middle between a number and the next.
spec fn middle(b: nat) -> nat {
    units(b) + units(b + 1)
}

proof fn lemma_middle_grows(b: nat, c: nat)
    requires
        b < c,
    ensures
        middle(b) < middle(c),
    decreases c - b,
{
    lemma_units_next((c - 1) as nat);
    lemma_units_next(c);
    if b < c - 1 {
        lemma_middle_grows(b, (c - 1) as nat);
    }
}

proof fn lemma_beyond_down(x: Decimal, b: nat, c: nat)
    requires
        b <= c,
        beyond(x, c),
    ensures
        beyond(x, b),
{
    if b < c {
        lemma_middle_grows(b, c);
        if x.exponent < 0 {
            let k = (-x.exponent) as nat;
            let p = pow10(k);
            lemma_pow10_adds(k, 0);
            let (m, n) = (middle(b), middle(c));
            assert(m * p < n * p) by (nonlinear_arith)
                requires
                    m < n,
                    p >= 1,
            ;
        }
    }
}

/// Only one magnitude is nearest.
pub proof fn law_nearest_is_one(x: Decimal, b: nat, c: nat)
    requires
        nearest(x, b),
        nearest(x, c),
    ensures
        b == c,
{
    if b < c {
        lemma_beyond_down(x, b, (c - 1) as nat);
    } else if c < b {
        lemma_beyond_down(x, c, (b - 1) as nat);
    }
}

/// A zero behind the last digit does not change what is nearest.
pub proof fn law_trailing_zero(x: Decimal, b: nat)
    ensures
        nearest(x, b) == nearest(
            (Decimal { digits: 10 * x.digits, exponent: x.exponent - 1 }),
            b,
        ),
{
    lemma_trailing_zero(x, b);
    if b > 0 {
        lemma_trailing_zero(x, (b - 1) as nat);
    }
}

proof fn lemma_trailing_zero(x: Decimal, b: nat)
    ensures
        beyond(x, b) == beyond((Decimal { digits: 10 * x.digits, exponent: x.exponent - 1 }), b),
{
    let d = x.digits;
    let m = middle(b);
    let q = power2::pow2(150);
    if x.exponent >= 1 {
        let p = pow10((x.exponent - 1) as nat);
        assert((10 * d) * p == d * (10 * p)) by (nonlinear_arith);
    } else {
        let k = (-x.exponent) as nat;
        let p = pow10(k);
        assert(pow10(k + 1) == 10 * p);
        assert((10 * d) * q == 10 * (d * q)) by (nonlinear_arith);
        assert(m * (10 * p) == 10 * (m * p)) by (nonlinear_arith);
        if x.exponent == 0 {
            assert(d * 1 == d) by (nonlinear_arith);
            assert(m * 1 == m) by (nonlinear_arith);
        }
    }
}

/// Zero is nearest to zero.
proof fn lemma_zero(x: Decimal)
    requires
        x.digits == 0,
    ensures
        nearest(x, 0),
{
    let k = if x.exponent >= 0 {
        x.exponent as nat
    } else {
        (-x.exponent) as nat
    };
    lemma_pow10_adds(k, 0);
    lemma_first_middle();
    let p = pow10(k);
    let q = power2::pow2(150);
    assert(0 * p == 0) by (nonlinear_arith);
    assert(0 * q == 0) by (nonlinear_arith);
    assert(1 * p == p) by (nonlinear_arith);
}

proof fn lemma_first_middle()
    ensures
        middle(0) == 1,
{
    power2::lemma2_to64();
    assert(units(0) == 0 * power2::pow2(0));
    assert(units(1) == 1 * power2::pow2(0));
}

proof fn lemma_large_powers()
    ensures
        power2::pow2(150) < pow10(50),
        power2::pow2(128) < pow10(39),
        power2::pow2(278) == power2::pow2(128) * power2::pow2(150),
        power2::pow2(278) == 0x200_0000 * power2::pow2(253),
{
    power2::lemma2_to64();
    power2::lemma2_to64_rest();
    power2::lemma_pow2_adds(50, 50);
    power2::lemma_pow2_adds(100, 50);
    power2::lemma_pow2_adds(64, 64);
    power2::lemma_pow2_adds(128, 150);
    power2::lemma_pow2_adds(25, 253);
    let a = power2::pow2(50);
    assert(a == 1125899906842624);
    assert(a * a == 1267650600228229401496703205376) by (nonlinear_arith)
        requires
            a == 1125899906842624,
    ;
    let b = power2::pow2(100);
    assert(b * a == 1427247692705959881058285969449495136382746624) by (nonlinear_arith)
        requires
            a == 1125899906842624,
            b == 1267650600228229401496703205376,
    ;
    let c = power2::pow2(64);
    assert(c * c == 340282366920938463463374607431768211456) by (nonlinear_arith)
        requires
            c == 18446744073709551616,
    ;
    reveal_with_fuel(pow10, 14);
    lemma_pow10_adds(13, 13);
    lemma_pow10_adds(26, 13);
    lemma_pow10_adds(39, 11);
    let t = pow10(13);
    assert(t == 10000000000000);
    assert(t * t == 100000000000000000000000000) by (nonlinear_arith)
        requires
            t == 10000000000000,
    ;
    let u = pow10(26);
    assert(u * t == 1000000000000000000000000000000000000000) by (nonlinear_arith)
        requires
            t == 10000000000000,
            u == 100000000000000000000000000,
    ;
    let v = pow10(39);
    let w = pow10(11);
    assert(w == 100000000000);
    assert(v * w == 100000000000000000000000000000000000000000000000000) by (nonlinear_arith)
        requires
            v == 1000000000000000000000000000000000000000,
            w == 100000000000,
    ;
}

/// A number with a large exponent is infinite.
proof fn lemma_huge(x: Decimal)
    requires
        x.digits >= 1,
        x.exponent >= 39,
    ensures
        nearest(x, INFINITE as nat),
{
    let b = 0x7F7F_FFFFnat;
    lemma_large_powers();
    lemma_units_next(b);
    assert(scale(b) == 253 && significand(b) == 0xFF_FFFF);
    let e = x.exponent as nat;
    lemma_pow10_grows(39, e);
    let p = pow10(e);
    let d = x.digits;
    assert(d * p >= p) by (nonlinear_arith)
        requires
            d >= 1,
    ;
    let q = power2::pow2(253);
    assert(0xFF_FFFF * q + (0xFF_FFFF * q + q) < 0x200_0000 * q) by (nonlinear_arith)
        requires
            q > 0,
    ;
    let r = power2::pow2(150);
    let s = power2::pow2(128);
    let whole = d * p;
    assert(whole * r >= s * r) by (nonlinear_arith)
        requires
            whole >= s,
    ;
}

/// A number with a small exponent is zero.
proof fn lemma_tiny(x: Decimal, n: nat)
    requires
        x.digits < pow10(n),
        x.exponent <= -(n + 50),
    ensures
        nearest(x, 0),
{
    lemma_large_powers();
    lemma_first_middle();
    let k = (-x.exponent) as nat;
    lemma_pow10_adds(n, 50);
    lemma_pow10_grows(n + 50, k);
    let d = x.digits;
    let (p, q) = (pow10(n), power2::pow2(150));
    let t = pow10(50);
    assert(d * q < p * t) by (nonlinear_arith)
        requires
            d < p,
            q < t,
            q >= 0,
    ;
    let w = pow10(k);
    assert(1 * w == w) by (nonlinear_arith);
}

// ---------------------------------------------------------------------------
// Natural numbers of any size, as decimal digits from the lowest on
// ---------------------------------------------------------------------------
/// The number that digits stand for.
spec fn val(v: Seq<u8>) -> nat
    decreases v.len(),
{
    if v.len() == 0 {
        0
    } else {
        val(v.drop_last()) + v.last() as nat * pow10((v.len() - 1) as nat)
    }
}

spec fn tens(v: Seq<u8>) -> bool {
    forall|i: int| 0 <= i < v.len() ==> (#[trigger] v[i]) < 10
}

proof fn lemma_val_bound(v: Seq<u8>)
    requires
        tens(v),
    ensures
        val(v) < pow10(v.len()),
    decreases v.len(),
{
    if v.len() > 0 {
        let n = v.len() - 1;
        assert forall|i: int| 0 <= i < v.drop_last().len() implies (
        #[trigger] v.drop_last()[i]) < 10 by {
            assert(v[i] < 10);
        }
        lemma_val_bound(v.drop_last());
        let p = pow10(n as nat);
        let d = v.last() as nat;
        assert(v[n] < 10);
        assert(d * p <= 9 * p) by (nonlinear_arith)
            requires
                d <= 9,
        ;
    }
}

proof fn lemma_val_push(v: Seq<u8>, d: u8)
    ensures
        val(v.push(d)) == val(v) + d as nat * pow10(v.len()),
{
    assert(v.push(d).drop_last() =~= v);
}

/// Twice the number.
fn doubled(v: &Vec<u8>) -> (out: Vec<u8>)
    requires
        tens(v@),
    ensures
        tens(out@),
        val(out@) == 2 * val(v@),
{
    let mut out: Vec<u8> = Vec::new();
    let mut carry: u8 = 0;
    let mut i: usize = 0;
    assert(0 * pow10(0) == 0) by (nonlinear_arith);
    while i < v.len()
        invariant
            i <= v@.len(),
            tens(v@),
            tens(out@),
            carry <= 1,
            out@.len() == i,
            val(out@) + carry as nat * pow10(i as nat) == 2 * val(v@.take(i as int)),
        decreases v@.len() - i,
    {
        let d: u8 = v[i];
        let s: u8 = 2 * d + carry;
        let low: u8 = s % 10;
        let high: u8 = s / 10;
        proof {
            lemma_val_push(out@, low);
            lemma_val_push(v@.take(i as int), d);
            assert(v@.take(i as int).push(d) =~= v@.take(i + 1));
            let p = pow10(i as nat);
            let (l, h, c, x) = (low as nat, high as nat, carry as nat, d as nat);
            assert(l * p + h * (10 * p) == c * p + 2 * (x * p)) by (nonlinear_arith)
                requires
                    l + 10 * h == 2 * x + c,
            ;
        }
        out.push(low);
        carry = high;
        i += 1;
    }
    proof {
        assert(v@.take(i as int) =~= v@);
        lemma_val_push(out@, carry);
        assert(0 * pow10(i as nat) == 0) by (nonlinear_arith);
    }
    if carry > 0 {
        out.push(carry);
    }
    out
}

/// The number times 2 to the power of `n`.
fn doubled_times(v: Vec<u8>, n: u32) -> (out: Vec<u8>)
    requires
        tens(v@),
    ensures
        tens(out@),
        val(out@) == val(v@) * power2::pow2(n as nat),
{
    let ghost start = val(v@);
    let mut out: Vec<u8> = v;
    let mut i: u32 = 0;
    proof {
        power2::lemma2_to64();
        assert(start * 1 == start) by (nonlinear_arith);
    }
    while i < n
        invariant
            i <= n,
            tens(out@),
            val(out@) == start * power2::pow2(i as nat),
        decreases n - i,
    {
        proof {
            power2::lemma_pow2_unfold((i + 1) as nat);
            let p = power2::pow2(i as nat);
            assert(2 * (start * p) == start * (2 * p)) by (nonlinear_arith);
        }
        out = doubled(&out);
        i += 1;
    }
    out
}

/// The number times 10 to the power of `k`.
fn shifted(v: &Vec<u8>, k: u128) -> (out: Vec<u8>)
    requires
        tens(v@),
    ensures
        tens(out@),
        val(out@) == val(v@) * pow10(k as nat),
{
    let mut out: Vec<u8> = Vec::new();
    let mut j: u128 = 0;
    while j < k
        invariant
            j <= k,
            tens(out@),
            out@.len() == j,
            val(out@) == 0,
        decreases k - j,
    {
        proof {
            lemma_val_push(out@, 0);
            assert(0 * pow10(out@.len()) == 0) by (nonlinear_arith);
        }
        out.push(0);
        j += 1;
    }
    let mut i: usize = 0;
    assert(0 * pow10(k as nat) == 0) by (nonlinear_arith);
    while i < v.len()
        invariant
            i <= v@.len(),
            tens(v@),
            tens(out@),
            out@.len() == k + i,
            val(out@) == val(v@.take(i as int)) * pow10(k as nat),
        decreases v@.len() - i,
    {
        let d: u8 = v[i];
        proof {
            lemma_val_push(out@, d);
            lemma_val_push(v@.take(i as int), d);
            assert(v@.take(i as int).push(d) =~= v@.take(i + 1));
            lemma_pow10_adds(i as nat, k as nat);
            assert(pow10((k + i) as nat) == pow10(i as nat) * pow10(k as nat));
            let (p, q) = (pow10(i as nat), pow10(k as nat));
            let (x, w) = (d as nat, val(v@.take(i as int)));
            assert(w * q + x * (p * q) == (w + x * p) * q) by (nonlinear_arith);
        }
        out.push(d);
        i += 1;
    }
    assert(v@.take(i as int) =~= v@);
    out
}

/// The digits of a small number.
fn small_digits(n: u32) -> (out: Vec<u8>)
    ensures
        tens(out@),
        val(out@) == n,
{
    let mut out: Vec<u8> = Vec::new();
    let mut left: u32 = n;
    assert(n as nat * pow10(0) == n) by {
        assert(n as nat * 1 == n) by (nonlinear_arith);
    }
    while left > 0
        invariant
            tens(out@),
            val(out@) + left as nat * pow10(out@.len()) == n,
        decreases left,
    {
        let d: u8 = (left % 10) as u8;
        proof {
            lemma_val_push(out@, d);
            let p = pow10(out@.len());
            let (x, q, l) = (d as nat, (left / 10) as nat, left as nat);
            assert(x * p + q * (10 * p) == l * p) by (nonlinear_arith)
                requires
                    x + 10 * q == l,
            ;
        }
        out.push(d);
        left = left / 10;
    }
    assert(0 * pow10(out@.len()) == 0) by (nonlinear_arith);
    out
}

/// The number of the first `i` digits.
spec fn low(v: Seq<u8>, i: nat) -> nat {
    if i < v.len() {
        val(v.take(i as int))
    } else {
        val(v)
    }
}

/// Digit `i`, 0 behind the last.
spec fn digit_at(v: Seq<u8>, i: nat) -> nat {
    if i < v.len() {
        v[i as int] as nat
    } else {
        0
    }
}

proof fn lemma_low(v: Seq<u8>, i: nat)
    requires
        tens(v),
    ensures
        low(v, i + 1) == low(v, i) + digit_at(v, i) * pow10(i),
        low(v, i) < pow10(i),
{
    if i < v.len() {
        lemma_val_push(v.take(i as int), v[i as int]);
        assert(v.take(i as int).push(v[i as int]) =~= v.take((i + 1) as int));
        assert(v.take(v.len() as int) =~= v);
        assert forall|j: int| 0 <= j < v.take(i as int).len() implies (
        #[trigger] v.take(i as int)[j]) < 10 by {
            assert(v[j] < 10);
        }
        lemma_val_bound(v.take(i as int));
    } else {
        assert(0 * pow10(i) == 0) by (nonlinear_arith);
        lemma_val_bound(v);
        lemma_pow10_grows(v.len(), i);
    }
}

fn digit(v: &Vec<u8>, i: usize) -> (d: u8)
    ensures
        d == digit_at(v@, i as nat),
{
    if i < v.len() {
        v[i]
    } else {
        0
    }
}

/// Whether `a` is larger than `b`, and whether they are the same.
fn weigh(a: &Vec<u8>, b: &Vec<u8>) -> (r: (bool, bool))
    requires
        tens(a@),
        tens(b@),
    ensures
        r.0 == (val(a@) > val(b@)),
        r.1 == (val(a@) == val(b@)),
{
    let mut larger: bool = false;
    let mut same: bool = true;
    let mut i: usize = 0;
    proof {
        assert(a@.take(0) =~= Seq::<u8>::empty());
        assert(b@.take(0) =~= Seq::<u8>::empty());
    }
    while i < a.len() || i < b.len()
        invariant
            tens(a@),
            tens(b@),
            i <= a@.len() || i <= b@.len(),
            larger == (low(a@, i as nat) > low(b@, i as nat)),
            same == (low(a@, i as nat) == low(b@, i as nat)),
        decreases a@.len() + b@.len() - i,
    {
        let x: u8 = digit(a, i);
        let y: u8 = digit(b, i);
        proof {
            lemma_low(a@, i as nat);
            lemma_low(b@, i as nat);
            let p = pow10(i as nat);
            let (u, w) = (low(a@, i as nat), low(b@, i as nat));
            let (s, t) = (x as nat, y as nat);
            if s > t {
                assert(u + s * p > w + t * p) by (nonlinear_arith)
                    requires
                        s >= t + 1,
                        w < p,
                ;
            } else if s < t {
                assert(u + s * p < w + t * p) by (nonlinear_arith)
                    requires
                        t >= s + 1,
                        u < p,
                ;
            }
        }
        if x != y {
            larger = x > y;
            same = false;
        }
        i += 1;
    }
    (larger, same)
}

// ---------------------------------------------------------------------------
// Rounding
// ---------------------------------------------------------------------------
proof fn lemma_digits_bound(s: Seq<char>)
    requires
        chars::all_digits(s),
    ensures
        chars::digits_value(s) < pow10(s.len()),
    decreases s.len(),
{
    if s.len() > 0 {
        assert forall|i: int| 0 <= i < s.drop_last().len() implies chars::is_digit(
            #[trigger] s.drop_last()[i],
        ) by {
            assert(chars::is_digit(s[i]));
        }
        lemma_digits_bound(s.drop_last());
        assert(chars::is_digit(s[s.len() - 1]));
    }
}

/// The digits of a text, from the lowest on.
fn low_digits(s: &Vec<char>) -> (out: Vec<u8>)
    requires
        chars::all_digits(s@),
    ensures
        tens(out@),
        val(out@) == chars::digits_value(s@),
{
    let mut out: Vec<u8> = Vec::new();
    let n: usize = s.len();
    let mut i: usize = n;
    let ghost whole = chars::digits_value(s@);
    proof {
        assert(s@.take(n as int) =~= s@);
        assert(whole * 1 == whole) by (nonlinear_arith);
    }
    while i > 0
        invariant
            i <= n,
            n == s@.len(),
            chars::all_digits(s@),
            tens(out@),
            out@.len() == n - i,
            chars::digits_value(s@.take(i as int)) * pow10((n - i) as nat) + val(out@) == whole,
        decreases i,
    {
        let ghost front = s@.take(i as int);
        i -= 1;
        assert(chars::is_digit(s@[i as int]));
        let d: u8 = (s[i] as u32 - 0x30) as u8;
        proof {
            assert(front.drop_last() =~= s@.take(i as int));
            assert(front.last() == s@[i as int]);
            lemma_val_push(out@, d);
            let p = pow10(out@.len());
            let (x, w) = (d as nat, chars::digits_value(s@.take(i as int)));
            assert((10 * w + x) * p == w * (10 * p) + x * p) by (nonlinear_arith);
        }
        out.push(d);
    }
    proof {
        assert(s@.take(0) =~= Seq::<char>::empty());
        assert(0 * pow10(n as nat) == 0) by (nonlinear_arith);
    }
    out
}

/// The digits of twice the middle between the number with magnitude `b` and the
/// next.
fn middle_digits(b: u32) -> (out: Vec<u8>)
    requires
        b < INFINITE,
    ensures
        tens(out@),
        val(out@) == middle(b as nat),
{
    let (m, e): (u32, u32) = if b < 0x80_0000 {
        (b, 0)
    } else {
        (0x80_0000 + b % 0x80_0000, b / 0x80_0000 - 1)
    };
    proof {
        lemma_units_next(b as nat);
        let (x, p) = (m as nat, power2::pow2(e as nat));
        assert((2 * x + 1) * p == x * p + (x * p + p)) by (nonlinear_arith);
    }
    doubled_times(small_digits(2 * m + 1), e)
}

/// Whether a number, of which `left` are the digits in the units that are
/// compared, lies beyond the middle behind `b`.
fn is_beyond(left: &Vec<u8>, shift: u128, b: u32) -> (r: bool)
    requires
        tens(left@),
        b < INFINITE,
    ensures
        ({
            let right = middle(b as nat) * pow10(shift as nat);
            r == (val(left@) > right || (val(left@) == right && b % 2 == 1))
        }),
{
    let right = shifted(&middle_digits(b), shift);
    let (larger, same) = weigh(left, &right);
    larger || (same && b % 2 == 1)
}

/// Whether all digits are zero.
fn all_zero(s: &Vec<char>) -> (r: bool)
    requires
        chars::all_digits(s@),
    ensures
        r == (chars::digits_value(s@) == 0),
{
    let mut i: usize = 0;
    while i < s.len()
        invariant
            i <= s@.len(),
            chars::all_digits(s@),
            chars::digits_value(s@.take(i as int)) == 0,
        decreases s@.len() - i,
    {
        proof {
            assert(s@.take(i + 1).drop_last() =~= s@.take(i as int));
            assert(chars::is_digit(s@[i as int]));
        }
        if s[i] != '0' {
            proof {
                chars::lemma_digits_grow(s@, i + 1);
            }
            return false;
        }
        i += 1;
    }
    assert(s@.take(i as int) =~= s@);
    true
}

/// The magnitude that is nearest to a number. An exponent that is given cut off
/// is far from where it matters.
fn nearest_magnitude(digits: &Vec<char>, exponent: i128, Ghost(x): Ghost<Decimal>) -> (b: u32)
    requires
        chars::all_digits(digits@),
        x.digits == chars::digits_value(digits@),
        ({
            ||| exponent == x.exponent
            ||| exponent > 400 && x.exponent > 400
            ||| exponent < -0x4_0000_0000_0000_0000 && x.exponent < -0x4_0000_0000_0000_0000
        }),
    ensures
        nearest(x, b as nat),
{
    let n: usize = digits.len();
    if all_zero(digits) {
        proof {
            lemma_zero(x);
        }
        return 0;
    }
    if exponent > 400 {
        proof {
            lemma_huge(x);
        }
        return INFINITE;
    }
    if exponent < -400 - (n as i128) {
        proof {
            lemma_digits_bound(digits@);
            lemma_tiny(x, n as nat);
        }
        return 0;
    }
    assert(exponent == x.exponent);
    let (up, down): (u128, u128) = if exponent >= 0 {
        (exponent as u128, 0)
    } else {
        (0, (-exponent) as u128)
    };
    let whole = shifted(&low_digits(digits), up);
    let ghost w = val(whole@);
    let left = doubled_times(whole, 150);
    proof {
        let d = x.digits;
        assert(d * 1 == d) by (nonlinear_arith);
    }
    let mut lo: u32 = 0;
    let mut hi: u32 = INFINITE;
    while lo < hi
        invariant
            tens(left@),
            lo <= hi <= INFINITE,
            exponent == x.exponent,
            val(left@) == w * power2::pow2(150),
            exponent >= 0 ==> down == 0 && w == x.digits * pow10(exponent as nat),
            exponent < 0 ==> down == -exponent && w == x.digits,
            lo == 0 || beyond(x, (lo - 1) as nat),
            hi < INFINITE ==> !beyond(x, hi as nat),
        decreases hi - lo,
    {
        let mid: u32 = lo + (hi - lo) / 2;
        proof {
            let m = middle(mid as nat);
            assert(m * 1 == m) by (nonlinear_arith);
        }
        let past: bool = is_beyond(&left, down, mid);
        assert(past == beyond(x, mid as nat));
        if past {
            lo = mid + 1;
        } else {
            hi = mid;
        }
    }
    lo
}

/// The value of the digits of an exponent, cut off at the limit.
fn power_of(s: &[char]) -> (n: i128)
    requires
        chars::all_digits(s@),
    ensures
        n == (if chars::digits_value(s@) < POWER_LIMIT {
            chars::digits_value(s@) as int
        } else {
            POWER_LIMIT as int
        }),
{
    let mut n: i128 = 0;
    let mut i: usize = 0;
    while i < s.len()
        invariant
            i <= s@.len(),
            chars::all_digits(s@),
            0 <= n <= POWER_LIMIT,
            n == (if chars::digits_value(s@.take(i as int)) < POWER_LIMIT {
                chars::digits_value(s@.take(i as int)) as int
            } else {
                POWER_LIMIT as int
            }),
        decreases s@.len() - i,
    {
        proof {
            assert(s@.take(i + 1).drop_last() =~= s@.take(i as int));
            assert(chars::is_digit(s@[i as int]));
        }
        let d: i128 = (s[i] as u32 - 0x30) as i128;
        n = if 10 * n + d < POWER_LIMIT {
            10 * n + d
        } else {
            POWER_LIMIT
        };
        i += 1;
    }
    assert(s@.take(i as int) =~= s@);
    n
}

/// The digits of a mantissa, and how many of them stand behind the point.
fn split_mantissa(s: &[char]) -> (r: (Vec<char>, usize))
    requires
        chars::mantissa(s@),
    ensures
        r.0@ == mantissa_digits(s@),
        r.1 == fraction_len(s@),
        chars::all_digits(r.0@),
{
    let n: usize = s.len();
    match position(s, '.') {
        Some(i) => {
            let mut out = vstd::slice::slice_to_vec(vstd::slice::slice_subrange(s, 0, i));
            let mut rest = vstd::slice::slice_to_vec(
                vstd::slice::slice_subrange(s, i + 1, n),
            );
            assert(out@ =~= s@.take(i as int));
            assert(rest@ =~= s@.skip(i + 1));
            out.append(&mut rest);
            proof {
                let all = s@.take(i as int) + s@.skip(i + 1);
                assert(out@ =~= all);
                assert forall|k: int| 0 <= k < all.len() implies chars::is_digit(
                    #[trigger] all[k],
                ) by {
                    if k < i {
                        assert(chars::is_digit(s@.take(i as int)[k]));
                    } else {
                        assert(chars::is_digit(s@.skip(i + 1)[k - i]));
                    }
                }
            }
            (out, n - i - 1)
        },
        None => {
            let out = vstd::slice::slice_to_vec(s);
            (out, 0)
        },
    }
}

/// The magnitude of the number that a mantissa with an optional exponent spells.
fn read_magnitude(t: &[char]) -> (b: u32)
    requires
        match chars::find(t@, 'e') {
            Some(i) => chars::mantissa(t@.take(i)) && chars::unsigned(t@.skip(i + 1)).len() > 0
                && chars::all_digits(chars::unsigned(t@.skip(i + 1))),
            None => chars::mantissa(t@),
        },
    ensures
        nearest(decimal_in(t@), b as nat),
{
    let n: usize = t.len();
    match position(t, 'e') {
        Some(i) => {
            let number = vstd::slice::slice_subrange(t, 0, i);
            let power = vstd::slice::slice_subrange(t, i + 1, n);
            assert(number@ =~= t@.take(i as int));
            assert(power@ =~= t@.skip(i + 1));
            let (digits, behind) = split_mantissa(number);
            let size: i128 = power_of(without_sign(power));
            let negative: bool = power[0] == '-';
            let exponent: i128 = if negative {
                -size - behind as i128
            } else {
                size - behind as i128
            };
            nearest_magnitude(&digits, exponent, Ghost(decimal_in(t@)))
        },
        None => {
            let (digits, behind) = split_mantissa(t);
            nearest_magnitude(&digits, -(behind as i128), Ghost(decimal_in(t@)))
        },
    }
}

/// Reads a number in decimal notation, rounded to the nearest single-precision
/// number.
pub fn read_single(v: &[char]) -> (r: Option<Single>)
    ensures
        match r {
            Some(s) => chars::real_notation(v@) && s@ == bits_in(v@),
            None => !chars::real_notation(v@),
        },
{
    if !is_real_notation(v) {
        return None;
    }
    let small = to_lower(v);
    let t = without_sign(small.as_slice());
    let magnitude: u32 = if chars_eq(t, "inf") || chars_eq(t, "infinity") {
        INFINITE
    } else if chars_eq(t, "nan") {
        NOT_A_NUMBER
    } else {
        let b: u32 = read_magnitude(t);
        proof {
            let c = choose|c: nat| nearest(decimal_in(t@), c);
            law_nearest_is_one(decimal_in(t@), b as nat, c);
        }
        b
    };
    let sign: u32 = if v.len() > 0 && v[0] == '-' {
        SIGN
    } else {
        0
    };
    Some(Single { bits: magnitude + sign })
}

} // verus!
