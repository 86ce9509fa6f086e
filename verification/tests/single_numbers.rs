//! Decimal notation read as single-precision numbers.
use oxideav_ogg::single::{read_single, Single};
use oxideav_ogg::skeleton::{DisplayCoord, DisplayHint};

fn read(text: &str) -> Option<Single> {
    let chars: Vec<char> = text.chars().collect();
    read_single(&chars)
}

fn assert_same(text: &str) {
    let want: f32 = text.parse().expect(text);
    let got = read(text).expect(text);
    assert_eq!(got.to_bits(), want.to_bits(), "{}", text);
}

struct Numbers(u64);

impl Numbers {
    fn next(&mut self) -> u64 {
        self.0 = self.0.wrapping_mul(6364136223846793005).wrapping_add(1442695040888963407);
        self.0 >> 33
    }
}

#[test]
fn whole_numbers_and_fractions_are_rounded() {
    assert_eq!(read("20").unwrap().to_bits(), 20.0f32.to_bits());
    assert_eq!(read("12.5").unwrap().to_bits(), 12.5f32.to_bits());
    assert_eq!(read("0.1").unwrap().to_bits(), 0x3DCC_CCCD);
    for text in [
        "0", "-0", "+7", "1.", ".5", "00012.50", "33.333333333", "1e2", "1E+2", "25e-1", "-3.75",
        "16777217", "16777219", "16777217.0000000000000000000001", "123456789012345678901234567890",
    ] {
        assert_same(text);
    }
}

#[test]
fn the_ends_of_the_range_are_met() {
    for text in [
        "3.4028234e38", "3.4028235677973366e38", "3.4028235677973365e38", "3.5e38", "1e39", "1e400",
        "1e401", "1e99999999999999999999999999999999999999", "0e99999999999999999999999999999999",
        "1e-45", "7.0064923216240853e-46", "7.0064923216240854e-46", "7e-46", "1.1754942e-38",
        "1.17549435e-38", "1e-400", "1e-99999999999999999999999999999999999999",
        "-1e-99999999999999999999999999999999999999", "infinity", "-inf", "INF", "+Infinity",
    ] {
        assert_same(text);
    }
    let long = format!("0.{}1e450", "0".repeat(440));
    assert_same(&long);
    let small = format!("{}e-460", "9".repeat(460));
    assert_same(&small);
}

#[test]
fn texts_that_are_no_numbers_are_refused() {
    for text in ["", "+", "-", ".", "e5", "1e", "1e+", "1..2", "0x10", "1 2", "--1", "infin", "1_0"] {
        assert!(text.parse::<f32>().is_err());
        assert!(read(text).is_none(), "{}", text);
    }
}

#[test]
fn two_notations_of_one_number_are_equal() {
    let parse = |text: &str| DisplayHint::parse(text).unwrap();
    assert_eq!(parse("pip(20%,5%)"), parse("pip(20.0%, 0.5e1 %)"));
    assert_ne!(parse("pip(20%,5%)"), parse("pip(20.1%,5%)"));
    assert_eq!(read("-0"), read("0"));
    assert_ne!(read("nan"), read("nan"));
    assert_ne!(read("inf"), read("-inf"));
    match parse("pip(12.5%,7)") {
        DisplayHint::Pip { x: DisplayCoord::Percent(v), .. } => {
            assert_eq!(f32::from_bits(v.to_bits()), 12.5)
        }
        other => panic!("{:?}", other),
    }
}

#[test]
fn random_notations_are_rounded_to_the_nearest() {
    let mut numbers = Numbers(11);
    for _ in 0..150 {
        let digits = numbers.next() * (1 + numbers.next() % 1000);
        let fraction = numbers.next();
        let exponent = (numbers.next() % 100) as i64 - 55;
        assert_same(&format!("{}.{}e{}", digits, fraction, exponent));
    }
    for _ in 0..100 {
        let bits = (numbers.next() as u32).wrapping_mul(2) % 0x7F80_0000;
        let value = f32::from_bits(bits);
        assert_same(&format!("{:e}", value));
        let half = value as f64 + (f32::from_bits(bits + 1) as f64 - value as f64) / 2.0;
        if half.is_finite() {
            assert_same(&format!("{:e}", half));
        }
    }
}
