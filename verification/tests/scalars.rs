use engine::scalar::Scalar;
use engine::types::Range;

fn s(x: f32) -> Scalar {
    Scalar::from_bits(x.to_bits())
}

fn f(x: Scalar) -> f32 {
    f32::from_bits(x.to_bits())
}

fn samples() -> Vec<f32> {
    vec![
        0.0,
        -0.0,
        1.0,
        -1.0,
        0.5,
        -0.5,
        1e-8,
        -1e-8,
        3.25,
        255.999,
        1e30,
        -1e30,
        f32::MIN_POSITIVE,
        f32::MAX,
        f32::MIN,
        f32::INFINITY,
        f32::NEG_INFINITY,
        f32::NAN,
        -f32::NAN,
    ]
}

#[test]
fn comparisons_agree_with_the_numbers() {
    for a in samples() {
        for b in samples() {
            assert_eq!(s(a).lt(s(b)), a < b, "{a} < {b}");
            assert_eq!(s(a).le(s(b)), a <= b, "{a} <= {b}");
            assert_eq!(s(a).gt(s(b)), a > b, "{a} > {b}");
            assert_eq!(s(a).ge(s(b)), a >= b, "{a} >= {b}");
            assert_eq!(s(a).same_value(s(b)), a == b, "{a} == {b}");
        }
    }
}

#[test]
fn least_and_greatest_agree_with_the_numbers() {
    for a in samples() {
        for b in samples() {
            let least = f(s(a).min(s(b)));
            let greatest = f(s(a).max(s(b)));
            let want_least = a.min(b);
            let want_greatest = a.max(b);
            // of two zeros either may come back
            assert!(least == want_least || (least.is_nan() && want_least.is_nan()));
            assert!(greatest == want_greatest || (greatest.is_nan() && want_greatest.is_nan()));
        }
    }
}

#[test]
fn total_key_orders_as_total_cmp() {
    for a in samples() {
        for b in samples() {
            let keys = s(a).total_key().cmp(&s(b).total_key());
            assert_eq!(keys, a.total_cmp(&b), "{a} against {b}");
        }
    }
}

#[test]
fn sign_and_size() {
    for a in samples() {
        assert_eq!(s(a).neg().to_bits(), (-a).to_bits());
        assert_eq!(s(a).abs().to_bits(), a.abs().to_bits());
        assert_eq!(s(a).is_nan(), a.is_nan());
    }
}

#[test]
fn named_numbers() {
    assert_eq!(f(Scalar::zero()), 0.0);
    assert_eq!(f(Scalar::one()), 1.0);
    assert_eq!(f(Scalar::infinity()), f32::INFINITY);
    assert_eq!(f(Scalar::neg_infinity()), f32::NEG_INFINITY);
    assert_eq!(Scalar::from_bits(0x4000_0000).to_bits(), 2.0f32.to_bits());
}

#[test]
fn range_holds_its_ends() {
    let range = Range(s(1.0), s(2.0));
    assert!(range.contains(s(1.0)));
    assert!(range.contains(s(2.0)));
    assert!(range.contains(s(1.5)));
    assert!(!range.contains(s(0.999)));
    assert!(!range.contains(s(2.001)));
    assert!(!range.contains(s(f32::NAN)));
    assert!(range.not_contains(s(0.5)));
    assert!(range.not_contains(s(2.5)));
    assert!(!range.not_contains(s(1.5)));
    assert!(!range.not_contains(s(f32::NAN)));
}

#[test]
fn range_union_and_intersection() {
    let a = Range(s(0.0), s(2.0));
    let b = Range(s(1.0), s(5.0));
    assert_eq!(a.union(b), Range(s(0.0), s(5.0)));
    assert_eq!(a.intersect(b), Some(Range(s(1.0), s(2.0))));
    let c = Range(s(3.0), s(4.0));
    assert_eq!(a.intersect(c), None);
    assert_eq!(a.union(c), Range(s(0.0), s(4.0)));
    let touching = Range(s(2.0), s(3.0));
    assert_eq!(a.intersect(touching), Some(Range(s(2.0), s(2.0))));
}

#[test]
fn empty_range_is_the_unit_of_union() {
    let empty = Range::union_empty();
    assert_eq!(empty, Range(s(f32::INFINITY), s(f32::NEG_INFINITY)));
    let a = Range(s(-3.0), s(7.5));
    assert_eq!(empty.union(a), a);
    assert_eq!(a.union(empty), a);
    assert!(!empty.contains(s(0.0)));
    assert_eq!(empty.intersect(a), None);
}

#[test]
fn bytes_are_cut_off_as_the_numbers_are() {
    let mut x = -3.0f32;
    while x < 300.0 {
        assert_eq!(s(x).to_byte(), x.trunc() as u8, "{x}");
        x += 0.0625;
    }
    for x in samples() {
        assert_eq!(s(x).to_byte(), x.trunc() as u8, "{x}");
    }
    for whole in 0..=255u32 {
        let x = whole as f32;
        assert_eq!(s(x).to_byte(), whole as u8);
        assert_eq!(s(x + 0.5).to_byte(), whole as u8);
    }
}

#[test]
fn full_and_no_light_reach_the_ends_of_the_byte() {
    // full light, gamma encoded and scaled
    assert_eq!(s(255.999 * 1.0f32.powf(1.0 / 2.2)).to_byte(), 255);
    assert_eq!(s(255.999 * 0.0f32.powf(1.0 / 2.2)).to_byte(), 0);
    assert_eq!(s(255.999 * 0.5f32.powf(1.0 / 2.2)).to_byte(), 186);
    assert_eq!(s(1e9).to_byte(), 255);
    assert_eq!(s(f32::INFINITY).to_byte(), 255);
    assert_eq!(s(-1.0).to_byte(), 0);
    assert_eq!(s(f32::NAN).to_byte(), 0);
}

#[test]
fn more_light_never_gives_a_lesser_byte() {
    let mut before = 0u8;
    let mut linear = 0.0f32;
    while linear <= 1.0 {
        let byte = s(255.999 * linear.powf(1.0 / 2.2)).to_byte();
        assert!(byte >= before);
        before = byte;
        linear += 1.0 / 4096.0;
    }
    assert_eq!(before, 255);
}

#[test]
fn colour_is_cut_channel_by_channel() {
    let colour = engine::algebra::Color::new(s(12.7), s(255.999), s(0.3));
    assert_eq!(colour.to_bytes(), [12, 255, 0]);
}
