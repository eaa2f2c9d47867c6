//! The arithmetic on bit patterns against the machine's own.

use myailocalmodel::decimal;
use myailocalmodel::double::Double;

fn double(x: f64) -> Double {
    Double { bits: x.to_bits() }
}

fn float(x: Double) -> f64 {
    f64::from_bits(x.bits)
}

fn same(ours: Double, theirs: f64) -> bool {
    if theirs.is_nan() {
        float(ours).is_nan()
    } else {
        ours.bits == theirs.to_bits()
    }
}

fn next(state: &mut u64) -> u64 {
    *state ^= *state << 13;
    *state ^= *state >> 7;
    *state ^= *state << 17;
    *state
}

/// Numbers of every kind: round ones, odd ones, tiny ones, huge ones.
fn samples() -> Vec<f64> {
    let mut all = vec![
        0.0,
        -0.0,
        1.0,
        -1.0,
        0.5,
        1.5,
        2.5,
        -2.5,
        0.1,
        0.72,
        0.75,
        0.82,
        3.0,
        7.0,
        10.0,
        14.0,
        20.0,
        1000.0,
        f64::MIN_POSITIVE,
        f64::MIN_POSITIVE / 2.0,
        f64::from_bits(1),
        f64::from_bits(2),
        f64::from_bits(0x000f_ffff_ffff_ffff),
        f64::MAX,
        f64::MIN,
        f64::EPSILON,
        f64::INFINITY,
        f64::NEG_INFINITY,
        f64::NAN,
        4503599627370495.5,
        4503599627370496.5,
        9007199254740993.0,
        0.49999999999999994,
    ];
    let mut state: u64 = 0x9e37_79b9_7f4a_7c15;
    for _ in 0..40 {
        all.push(f64::from_bits(next(&mut state)));
    }
    for _ in 0..40 {
        let exponent = 1003 + next(&mut state) % 40;
        let fraction = next(&mut state) >> 12;
        let sign = next(&mut state) >> 63;
        all.push(f64::from_bits(sign << 63 | exponent << 52 | fraction));
    }
    for _ in 0..10 {
        all.push(f64::from_bits(next(&mut state) >> 12));
    }
    all
}

#[test]
fn sums_agree_with_the_machine() {
    for a in samples() {
        for b in samples() {
            assert!(same(double(a).plus(double(b)), a + b), "{a:e} + {b:e}");
        }
    }
}

#[test]
fn differences_agree_with_the_machine() {
    for a in samples() {
        for b in samples() {
            assert!(same(double(a).minus(double(b)), a - b), "{a:e} - {b:e}");
        }
    }
}

#[test]
fn products_agree_with_the_machine() {
    for a in samples() {
        for b in samples() {
            assert!(same(double(a).times(double(b)), a * b), "{a:e} * {b:e}");
        }
    }
}

#[test]
fn quotients_agree_with_the_machine() {
    for a in samples() {
        for b in samples() {
            assert!(same(double(a).over(double(b)), a / b), "{a:e} / {b:e}");
        }
    }
}

#[test]
fn comparisons_agree_with_the_machine() {
    for a in samples() {
        for b in samples() {
            assert_eq!(double(a).is_less(double(b)), a < b, "{a:e} < {b:e}");
            assert_eq!(double(a).is_at_most(double(b)), a <= b, "{a:e} <= {b:e}");
        }
    }
}

#[test]
fn choices_agree_with_the_machine() {
    for a in samples() {
        for b in samples() {
            if a == 0.0 && b == 0.0 {
                continue;
            }
            assert!(same(double(a).min(double(b)), a.min(b)), "{a:e} min {b:e}");
            assert!(same(double(a).max(double(b)), a.max(b)), "{a:e} max {b:e}");
        }
        assert!(same(double(a).clamp(double(0.05), double(1.0)), a.clamp(0.05, 1.0)), "{a:e}");
        assert!(same(double(a).clamp(double(0.0), double(1.0)), a.clamp(0.0, 1.0)), "{a:e}");
    }
}

#[test]
fn rounding_to_whole_numbers_agrees_with_the_machine() {
    for a in samples() {
        assert!(same(double(a).round(), a.round()), "{a:e}");
        assert!(same(double(a).negated(), -a), "{a:e}");
    }
    for k in 0..2000 {
        let a = k as f64 / 4.0 - 250.0;
        assert!(same(double(a).round(), a.round()), "{a:e}");
    }
}

#[test]
fn ratios_are_the_decimal_literals() {
    assert_eq!(Double::ratio(72, 100).bits, 0.72f64.to_bits());
    assert_eq!(Double::ratio(75, 100).bits, 0.75f64.to_bits());
    assert_eq!(Double::ratio(205, 100).bits, 2.05f64.to_bits());
    assert_eq!(Double::ratio(15, 10).bits, 1.5f64.to_bits());
    assert_eq!(Double::ratio(8, 100).bits, 0.08f64.to_bits());
    assert_eq!(Double::ratio(1, 3).bits, (1.0f64 / 3.0).to_bits());
    let mut state: u64 = 12345;
    for _ in 0..2000 {
        let n = next(&mut state) % 1_000_000;
        let d = 1 + next(&mut state) % 1_000_000;
        assert_eq!(Double::ratio(n, d).bits, (n as f64 / d as f64).to_bits(), "{n} / {d}");
    }
}

#[test]
fn whole_numbers_agree_with_the_machine() {
    let mut state: u64 = 99;
    for k in 0..64 {
        let n = next(&mut state) >> k;
        assert_eq!(Double::whole(n).bits, (n as f64).to_bits(), "{n}");
    }
    for n in [0, 1, u64::MAX, u64::MAX - 1024, u64::MAX - 1023, 9007199254740993] {
        assert_eq!(Double::whole(n).bits, (n as f64).to_bits(), "{n}");
    }
}

#[test]
fn parsing_agrees_with_the_machine() {
    let mut texts: Vec<String> = Vec::new();
    for t in [
        "0", "7", "70", "1.5", "0.5", "2.05", "0.1", "9007199254740993", "9007199254740992.5",
        "123456789012345678901234567890", "0.00000000000000000000001", "000.100", "3.14159265358979",
        "0.30000000000000004", "179769313486231570000000000000000000000.125",
    ] {
        texts.push(t.to_string());
    }
    texts.push("9".repeat(400));
    texts.push(format!("0.{}1", "0".repeat(330)));
    texts.push(format!("0.{}49406564584124654", "0".repeat(323)));
    texts.push(format!("17976931348623157{}", "0".repeat(292)));
    texts.push(format!("17976931348623159{}", "0".repeat(292)));
    let mut state: u64 = 4711;
    for _ in 0..300 {
        let a = next(&mut state) >> (next(&mut state) % 60);
        let b = next(&mut state) >> (next(&mut state) % 60);
        texts.push(format!("{a}.{b}"));
    }
    for t in texts {
        let ours = decimal::parse(&t).unwrap();
        assert!(same(ours, t.parse::<f64>().unwrap()), "{t}");
    }
}

#[test]
fn only_plain_decimals_are_parsed() {
    for t in ["", ".", "1.", ".5", "1.2.3", "-1", "+1", "1e5", "b", "1 "] {
        assert!(decimal::parse(t).is_none(), "{t}");
    }
}

#[test]
fn one_decimal_text_agrees_with_the_machine() {
    let mut all = samples();
    for k in 0..4000 {
        all.push(k as f64 / 80.0);
    }
    for a in all {
        assert_eq!(decimal::with_one_decimal(double(a)), format!("{a:.1}"), "{a:e}");
    }
}

#[test]
fn integers_agree_with_the_machine() {
    for n in [0, 9, 10, 39281, 999, 16384, u64::MAX] {
        assert_eq!(decimal::number(n), n.to_string());
    }
    for n in [0, 7, -1, 999, i32::MAX, i32::MIN] {
        assert_eq!(decimal::integer(n), n.to_string());
    }
}
