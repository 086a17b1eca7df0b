//! The number arithmetic against the machine's own.

use reqrun::duration::Duration;
use reqrun::number::{from_u64, is_below, is_equal, parse, plus, to_fixed, to_text, Number};

fn number(x: f64) -> Number {
    Number { bits: x.to_bits() }
}

fn chars(s: &str) -> Vec<char> {
    s.chars().collect()
}

/// Whole numbers below 10^15 without a point, everything else as the machine
/// shows it.
fn shown(x: f64) -> String {
    if x.fract() == 0.0 && x.abs() < 1e15 {
        format!("{}", x as i64)
    } else {
        format!("{x}")
    }
}

/// Bit patterns that cover the whole range.
fn patterns(count: usize) -> Vec<u64> {
    let mut x: u64 = 0x9E37_79B9_7F4A_7C15;
    let mut out = Vec::new();
    for _ in 0..count {
        x ^= x << 13;
        x ^= x >> 7;
        x ^= x << 17;
        out.push(x);
    }
    out
}

const SAMPLES: [f64; 22] = [
    0.0,
    1.0,
    -1.0,
    0.1,
    0.5,
    -3.5,
    2.5,
    123.456,
    1e15,
    999_999_999_999_999.0,
    1e21,
    1.5e300,
    5e-324,
    2.2250738585072014e-308,
    1.7976931348623157e308,
    1125899906842624.25,
    1125899906842624.5,
    4503599627370497.5,
    9007199254740993.0,
    0.3,
    1e-7,
    123456789012345680.0,
];

#[test]
fn numbers_show_as_the_shortest_text() {
    for x in SAMPLES {
        assert_eq!(to_text(number(x)), shown(x), "{x:e}");
        assert_eq!(to_text(number(-x)), shown(-x), "-{x:e}");
    }
    assert_eq!(to_text(number(f64::INFINITY)), "inf");
    assert_eq!(to_text(number(f64::NEG_INFINITY)), "-inf");
    assert_eq!(to_text(number(f64::NAN)), "NaN");
    assert_eq!(to_text(number(-0.0)), "0");
    for bits in patterns(60) {
        let x = f64::from_bits(bits);
        if x.is_finite() {
            assert_eq!(to_text(Number { bits }), shown(x), "{x:e}");
        }
    }
}

#[test]
fn shown_numbers_read_back() {
    for x in SAMPLES {
        let text = to_text(number(x));
        assert_eq!(parse(&chars(&text)).unwrap().bits, x.to_bits(), "{text}");
    }
    for bits in patterns(40) {
        let n = Number { bits };
        if f64::from_bits(bits).is_finite() {
            let text = to_text(n);
            assert_eq!(parse(&chars(&text)).unwrap().bits, bits, "{text}");
        }
    }
    // The negative zero is the one finite number that does not.
    assert_eq!(parse(&chars(&to_text(number(-0.0)))).unwrap().bits, 0);
}

#[test]
fn numerals_read_as_the_nearest_number() {
    let good = [
        "0",
        "-0",
        "007",
        "1.",
        ".5",
        "+2.5",
        "1e3",
        "1E+3",
        "1e-3",
        "-12.25e2",
        "0.1",
        "9007199254740993",
        "1125899906842624.125",
        "2.2250738585072011e-308",
        "4.9e-324",
        "2e-324",
        "1e400",
        "-1e400",
        "123456789012345678901234567890",
        "inf",
        "-Infinity",
    ];
    for text in good {
        let expected: f64 = text.parse().unwrap();
        let read = parse(&chars(text)).unwrap_or_else(|| panic!("{text} does not read"));
        assert_eq!(read.bits, expected.to_bits(), "{text}");
    }
    assert!(parse(&chars("NaN")).unwrap().is_nan());
    for text in ["", "-", "+", ".", "e5", "1e", "1e+", "1.2.3", "--1", "0x10", " 1", "1 ", "1_0"] {
        assert!(text.parse::<f64>().is_err());
        assert!(parse(&chars(text)).is_none(), "{text}");
    }
}

#[test]
fn sums_and_comparisons_round_like_the_machine() {
    let mut values: Vec<f64> = SAMPLES.to_vec();
    values.extend([
        -0.0,
        -0.1,
        -1e15,
        f64::INFINITY,
        f64::NEG_INFINITY,
        f64::NAN,
        f64::MAX,
        f64::MIN_POSITIVE,
    ]);
    for a in &values {
        for b in &values {
            let (x, y) = (number(*a), number(*b));
            let sum = a + b;
            if sum.is_nan() {
                assert!(plus(x, y).is_nan(), "{a:e} + {b:e}");
            } else {
                assert_eq!(plus(x, y).bits, sum.to_bits(), "{a:e} + {b:e}");
            }
            assert_eq!(is_below(x, y), a < b, "{a:e} < {b:e}");
            assert_eq!(is_equal(x, y), a == b, "{a:e} == {b:e}");
        }
        assert_eq!(number(*a).is_negative(), a.is_sign_negative());
        assert_eq!(number(*a).is_infinite(), a.is_infinite());
        assert_eq!(number(*a).is_nan(), a.is_nan());
        assert_eq!(number(*a).is_nonzero(), *a != 0.0 && !a.is_nan());
    }
    let p = patterns(80);
    for pair in p.chunks(2) {
        let (a, b) = (f64::from_bits(pair[0]), f64::from_bits(pair[1]));
        if !a.is_nan() && !b.is_nan() {
            let sum = plus(number(a), number(b));
            assert_eq!(sum.bits, (a + b).to_bits(), "{a:e} + {b:e}");
            assert_eq!(is_below(number(a), number(b)), a < b);
        }
    }
}

#[test]
fn integers_and_indices_convert() {
    for n in [0, 1, 7, 1 << 53, (1 << 53) + 1, u64::MAX] {
        assert_eq!(from_u64(n).bits, (n as f64).to_bits(), "{n}");
    }
    for x in [0.0, 0.9, 1.0, 2.7, -1.0, 1e30, f64::INFINITY, f64::NAN] {
        assert_eq!(number(x).to_index(), x as usize, "{x}");
    }
}

#[test]
fn fixed_places_round_half_to_even_digit() {
    for x in SAMPLES {
        if x.abs() < 1e18 {
            assert_eq!(to_fixed(number(x), 3), format!("{x:.3}"), "{x:e}");
            assert_eq!(to_fixed(number(x), 1), format!("{x:.1}"), "{x:e}");
        }
    }
    for x in [0.125, 0.0625, 0.0005, 1.0005, 2.5, 3.5, 0.4995, -0.0004] {
        assert_eq!(to_fixed(number(x), 3), format!("{x:.3}"), "{x}");
        assert_eq!(to_fixed(number(x), 2), format!("{x:.2}"), "{x}");
    }
}

#[test]
fn seconds_of_a_duration_match_the_machine() {
    for (secs, nanos) in [(0, 0), (0, 1), (1, 500_000_000), (12, 345_678_901), (1 << 40, 999_999_999)] {
        let d = Duration { secs, nanos };
        let std = std::time::Duration::new(secs, nanos);
        assert_eq!(d.as_secs_number().bits, std.as_secs_f64().to_bits());
        assert_eq!(d.as_millis(), std.as_millis());
    }
}
