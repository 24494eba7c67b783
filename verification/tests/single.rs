use iptv_proxy::decimal::read_single;
use iptv_proxy::single::{audible_kbps_of, kbps_of, single_kbps_of, Single};

fn single(x: f32) -> Single {
    Single { bits: x.to_bits() }
}

/// Numbers of all sizes, and those where a step is.
fn numbers() -> Vec<f32> {
    let mut v = vec![
        0.0, 1.0, 0.1, 0.3, 0.7, 0.9, 2.5, 10.0, 48.0, 5.005, 4523.4, 1e-40, 1e-45, 3e-45, 1.1754944e-38, 3.4028235e38,
        1.7e38, 16777215.0, 16777216.0, 33554434.0, 4294967040.0, 8388607.5, 8388608.5, 0.5, 1.5, 0.49999997,
    ];
    let mut bits: u32 = 1;
    for i in 0..200u32 {
        bits = bits.wrapping_mul(1664525).wrapping_add(1013904223 + i);
        let x = f32::from_bits(bits >> 1);
        if x.is_finite() {
            v.push(x);
        }
    }
    v
}

#[test]
fn sums_products_and_quotients_are_those_of_floating_point() {
    for a in numbers() {
        for b in numbers() {
            let (x, y) = (single(a), single(b));
            assert_eq!(x.plus(y), single(a + b), "{a} + {b}");
            assert_eq!(x.times(y), single(a * b), "{a} * {b}");
            if b > 0.0 {
                assert_eq!(x.divided_by(y), single(a / b), "{a} / {b}");
            }
        }
    }
}

#[test]
fn infinity_is_reckoned_with() {
    let inf = f32::INFINITY;
    for a in [0.0f32, 2.5, inf] {
        for (got, want) in [
            (single(a).plus(single(inf)), a + inf),
            (single(a).times(single(inf)), a * inf),
            (single(inf).times(single(a)), inf * a),
            (single(a).divided_by(single(inf)), a / inf),
            (single(inf).divided_by(single(a)), inf / a),
            (single(a).divided_by(single(0.0)), a / 0.0),
        ] {
            if want.is_nan() {
                assert!(f32::from_bits(got.bits).is_nan());
                assert_eq!(got.to_whole(), 0);
            } else {
                assert_eq!(got, single(want));
            }
        }
    }
    assert_eq!(single(inf).to_whole(), u32::MAX);
    assert_eq!(single(-1.0).to_whole(), 0);
    assert!(single(inf).is_positive() && !single(inf).is_finite());
    assert!(!single(-1.0).is_positive() && !single(0.0).is_positive());
}

#[test]
fn whole_numbers_come_and_go() {
    for a in numbers() {
        assert_eq!(single(a).to_whole(), a.round() as u32, "{a}");
    }
    for n in [0u64, 1, 25, 16777217, 16777219, 4294967295, 959999999, u64::MAX, 1 << 40, (1 << 40) + (1 << 15)] {
        assert_eq!(Single::of_whole(n), single(n as f32), "{n}");
        assert_eq!(Single::of_whole(n).over(2, single(3.0)), single(n as f32 / 6.0), "{n}");
    }
}

#[test]
fn bit_rates_are_those_of_floating_point() {
    for len in [0u64, 1, 7, 16_000, 625_625, 12_345_678, 1 << 33, u64::MAX] {
        for d in numbers() {
            if d > 0.0 {
                let s = single(d);
                assert_eq!(kbps_of(len, s), (len as f64 * 8.0 / 1000.0 / d as f64) as u32, "{len} in {d}");
                assert_eq!(single_kbps_of(len, s), single((len as f64 * 8.0 / 1000.0 / d as f64) as f32), "{len} in {d}");
                let k = (len as f64 * 8.0) / (d as f64 * 1000.0);
                let heard = if k >= 16.0 { Some(k.round() as u32) } else { None };
                assert_eq!(audible_kbps_of(len, s), heard, "{len} in {d}");
            }
        }
    }
    assert_eq!(kbps_of(625_625, single(5.005)), 999);
    assert_eq!(kbps_of(625_625, single(f32::INFINITY)), 0);
    assert_eq!(kbps_of(1, single(1e-9)), 8_000_000);
    assert_eq!(single_kbps_of(16_000, single(f32::INFINITY)), single(0.0));
    assert_eq!(audible_kbps_of(12_000, single(1.0)), Some(96));
}

#[test]
fn numbers_are_read_to_the_nearest() {
    let read = |s: &str| read_single(&s.chars().collect::<Vec<char>>());
    for text in [
        "0", "1", "5.005", "6.006", "4.5", "0.1", "10.010000", "16777217", "16777219", "33554434.000000001", "1e-45",
        "7.0064923216240853546186479164495e-46", "7.00649232162408535461864791644958e-46",
        "7.1e-46", "1.1754943e-38", "3.4028235e38", "3.4028235677973366e38", "3.4028235677973362e38", "1e39", "1e300", "1e-300",
        "123456789012345678901234567890", ".5e1", "5.e-1", "+7", "0.000000000000000000000000000000000000000000001",
        "8388608.5", "8388609.5", "8388609.50000000000000000000000000000000000001", "INF", "infinity", "1e-999999", "1e999999",
    ] {
        assert_eq!(read(text), Some(single(text.parse::<f32>().unwrap())), "{text}");
    }
    for text in ["", "+", ".", "e", "1e", "e5", "1e+", "1.2.3", "0x10", "1 ", " 1", "infin", "--1", "+-1", "1e5.0", "1_0"] {
        assert!(text.parse::<f32>().is_err());
        assert_eq!(read(text), None, "{text}");
    }
    // Neither is a number above zero.
    assert_eq!(read("-2"), None);
    assert_eq!(read("nan"), None);
}
