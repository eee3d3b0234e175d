//! The arithmetic on bit patterns, held against the processor's own.

use kingdom::float::F32;
use kingdom::vec2::{tile_center, Vec2};

fn f(v: f32) -> F32 {
    F32 { bits: v.to_bits() }
}

/// Equal numbers, zeros told apart by their sign; or neither is a number.
fn same(got: F32, want: f32) -> bool {
    if want.is_nan() {
        f32::from_bits(got.bits).is_nan()
    } else {
        got.bits == want.to_bits()
    }
}

/// Patterns at the edges, and a spread of others.
fn patterns() -> Vec<f32> {
    let mut v: Vec<f32> = vec![
        0.0, -0.0, 1.0, -1.0, 0.5, -0.5, 0.1, 2.4, 2.9, 1.5, 16.0, 28.0, 60.0, 0.02, 0.7, 1e-20,
        1e20, 3.0e38, -3.0e38, 1e-45, -1e-45, 1.1754944e-38, 1.1754942e-38, 3.4028235e38,
        16777216.0, 16777217.0, 8388608.5, 4194303.75, 2147483648.0, -2147483648.0, 2147483520.0,
        4294967296.0, 1e10, -1e10,
    ];
    v.push(f32::INFINITY);
    v.push(f32::NEG_INFINITY);
    v.push(f32::NAN);
    let mut x: u64 = 0x9e3779b97f4a7c15;
    for _ in 0..80 {
        x ^= x << 13;
        x ^= x >> 7;
        x ^= x << 17;
        v.push(f32::from_bits((x >> 32) as u32));
        v.push(((x >> 40) as f32) / 1000.0 - 8000.0);
    }
    v
}

#[test]
fn sums_and_differences_agree() {
    for &a in &patterns() {
        for &b in &patterns() {
            assert!(same(f(a).add(f(b)), a + b), "{a:e} + {b:e}");
            assert!(same(f(a).sub(f(b)), a - b), "{a:e} - {b:e}");
        }
    }
}

#[test]
fn products_and_quotients_agree() {
    for &a in &patterns() {
        for &b in &patterns() {
            assert!(same(f(a).mul(f(b)), a * b), "{a:e} * {b:e}");
            assert!(same(f(a).div(f(b)), a / b), "{a:e} / {b:e}");
        }
    }
}

#[test]
fn roots_agree() {
    for &a in &patterns() {
        assert!(same(f(a).sqrt(), a.sqrt()), "sqrt {a:e}");
        assert!(same(f(a.abs()).sqrt(), a.abs().sqrt()), "sqrt |{a:e}|");
    }
    assert_eq!(f(2.0).sqrt().bits, 0x3fb5_04f3);
}

#[test]
fn roundings_to_integers_agree() {
    for &a in &patterns() {
        assert_eq!(f(a).floor(), a.floor() as i32, "floor {a:e}");
        assert_eq!(f(a).ceil(), a.ceil() as i32, "ceil {a:e}");
        assert_eq!(f(a).trunc(), a as u32, "trunc {a:e}");
    }
    assert_eq!(f(-0.5).floor(), -1);
    assert_eq!(f(-0.5).ceil(), 0);
}

#[test]
fn comparisons_agree() {
    for &a in &patterns() {
        assert_eq!(f(a).is_nan(), a.is_nan());
        assert!(same(f(a).negate(), -a));
        assert!(same(f(a).abs(), a.abs()));
        for &b in &patterns() {
            assert_eq!(f(a).lt(f(b)), a < b);
            assert_eq!(f(a).le(f(b)), a <= b);
            assert_eq!(f(a).eq_value(f(b)), a == b);
            if !(a == 0.0 && b == 0.0) {
                assert!(same(f(a).min(f(b)), a.min(b)), "{a:e} min {b:e}");
                assert!(same(f(a).max(f(b)), a.max(b)), "{a:e} max {b:e}");
            }
        }
        assert!(same(f(a).clamp(f(8.0), f(80.0)), a.clamp(8.0, 80.0)));
    }
}

#[test]
fn integers_convert_as_they_should() {
    for v in [0i64, 1, -1, 7, 16777216, 16777217, 16777219, -16777219, 2147483647, -2147483648] {
        assert_eq!(F32::from_int(v).bits, (v as f32).to_bits(), "{v}");
    }
    for n in [0usize, 1, 5, 16777217, 4294967295] {
        assert_eq!(F32::from_count(n).bits, (n as f32).to_bits(), "{n}");
    }
}

#[test]
fn vectors_agree() {
    let a = Vec2::new(f(3.25), f(-1.5));
    let b = Vec2::new(f(0.75), f(2.0));
    let d = a.sub(b);
    assert_eq!(d, Vec2::new(f(2.5), f(-3.5)));
    assert_eq!(a.add(b), Vec2::new(f(4.0), f(0.5)));
    assert_eq!(a.mul(f(2.0)), Vec2::new(f(6.5), f(-3.0)));
    assert_eq!(a.div(f(2.0)), Vec2::new(f(1.625), f(-0.75)));
    assert_eq!(d.length_squared(), f(18.5));
    assert_eq!(d.length(), f(18.5f32.sqrt()));
    assert_eq!(a.distance_squared(b), f(18.5));
    assert_eq!(a.tile(), (3, -2));
    assert!(a.eq_value(a));
    assert!(!a.eq_value(b));
    assert!(Vec2::new(f(0.0), f(1.0)).eq_value(Vec2::new(f(-0.0), f(1.0))));
    assert_eq!(tile_center((2, -3)), Vec2::new(f(2.5), f(-2.5)));
}
