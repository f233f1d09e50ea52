use engine::bounding::BoundingBox;
use engine::scalar::Scalar;
use engine::types::Range;
use std::cmp::Ordering;

fn s(x: f32) -> Scalar {
    Scalar::from_bits(x.to_bits())
}

fn f(x: Scalar) -> f32 {
    f32::from_bits(x.to_bits())
}

const ZERO_TOL: f32 = 1e-8;

fn widened(range: Range) -> Range {
    Range(s(f(range.0) - ZERO_TOL / 2.0), s(f(range.1) + ZERO_TOL / 2.0))
}

fn length(range: Range) -> Scalar {
    s(f(range.1) - f(range.0))
}

fn cube(lo: [f32; 3], hi: [f32; 3]) -> BoundingBox {
    let x = Range(s(lo[0]), s(hi[0]));
    let y = Range(s(lo[1]), s(hi[1]));
    let z = Range(s(lo[2]), s(hi[2]));
    BoundingBox::new(
        x,
        y,
        z,
        (length(x), length(y), length(z)),
        (widened(x), widened(y), widened(z)),
    )
}

fn between(p: [f32; 3], q: [f32; 3]) -> BoundingBox {
    let axis = |i: usize| Range(s(p[i].min(q[i])), s(p[i].max(q[i])));
    BoundingBox::from_extrema(
        (s(p[0]), s(p[1]), s(p[2])),
        (s(q[0]), s(q[1]), s(q[2])),
        (length(axis(0)), length(axis(1)), length(axis(2))),
        (widened(axis(0)), widened(axis(1)), widened(axis(2))),
    )
}

fn holds(bounds: &BoundingBox, p: [f32; 3]) -> bool {
    let axes = bounds.axes();
    axes[0].contains(s(p[0])) && axes[1].contains(s(p[1])) && axes[2].contains(s(p[2]))
}

fn crossings(bounds: &BoundingBox, origin: [f32; 3], dir: [f32; 3]) -> [(Scalar, Scalar); 3] {
    let axes = bounds.axes();
    let mut out = [(s(0.0), s(0.0)); 3];
    for axis in 0..3 {
        let coefficient = 1.0 / dir[axis];
        out[axis] = (
            s((f(axes[axis].0) - origin[axis]) * coefficient),
            s((f(axes[axis].1) - origin[axis]) * coefficient),
        );
    }
    out
}

fn forward() -> Range {
    Range(s(0.0), s(f32::INFINITY))
}

#[test]
fn extrema_in_either_order() {
    let a = between([1.0, 5.0, -2.0], [3.0, 4.0, -1.0]);
    assert_eq!(a, cube([1.0, 4.0, -2.0], [3.0, 5.0, -1.0]));
    let b = between([3.0, 4.0, -1.0], [1.0, 5.0, -2.0]);
    assert_eq!(a, b);
    let axes = a.axes();
    assert_eq!(axes[0], Range(s(1.0), s(3.0)));
    assert_eq!(axes[1], Range(s(4.0), s(5.0)));
    assert_eq!(axes[2], Range(s(-2.0), s(-1.0)));
}

#[test]
fn flat_boxes_are_widened() {
    // a point: every axis is as thin as can be
    let point = between([0.0, 0.0, 0.0], [0.0, 0.0, 0.0]);
    for axis in point.axes().iter() {
        assert_eq!(*axis, Range(s(-5e-9), s(5e-9)));
        assert!(f(axis.1) - f(axis.0) >= ZERO_TOL);
    }
    // a square in the plane z = 0: only that axis is widened
    let square = between([-1.0, 2.0, 0.0], [1.0, 3.0, 0.0]);
    let axes = square.axes();
    assert_eq!(axes[0], Range(s(-1.0), s(1.0)));
    assert_eq!(axes[1], Range(s(2.0), s(3.0)));
    assert_eq!(axes[2], Range(s(-5e-9), s(5e-9)));
    // the same from ranges
    let flat = cube([-1.0, 2.0, 0.0], [1.0, 3.0, 0.0]);
    assert_eq!(flat, square);
    // a length at the tolerance is kept
    let thin = Range(s(0.0), s(1e-8));
    let kept = BoundingBox::new(
        thin,
        thin,
        thin,
        (s(1e-8), s(9e-9), s(1e-8)),
        (Range(s(-1.0), s(1.0)), Range(s(-2.0), s(2.0)), Range(s(-3.0), s(3.0))),
    );
    assert_eq!(kept.axes(), [thin, Range(s(-2.0), s(2.0)), thin]);
}

#[test]
fn flat_box_is_met_by_a_ray_through_it() {
    let square = between([-1.0, -1.0, 0.0], [1.0, 1.0, 0.0]);
    let met = BoundingBox::check_intersection(
        crossings(&square, [0.25, 0.25, 3.0], [0.0, 0.0, -1.0]),
        forward(),
    );
    let inside = met.unwrap();
    assert!(f(inside.0) <= 3.0 && 3.0 <= f(inside.1));
}

#[test]
fn union_has_the_least_and_greatest_ends() {
    let a = cube([0.0, 0.0, 0.0], [1.0, 2.0, 3.0]);
    let b = cube([-1.0, 1.0, 2.0], [0.5, 5.0, 2.5]);
    assert_eq!(a.union(&b), cube([-1.0, 0.0, 0.0], [1.0, 5.0, 3.0]));
    assert_eq!(b.union(&a), a.union(&b));
    assert_eq!(a.union(&a), a);
}

#[test]
fn union_holds_every_point_of_both() {
    let a = cube([0.0, 0.0, 0.0], [1.0, 2.0, 3.0]);
    let b = cube([4.0, -3.0, 1.0], [6.0, -1.0, 2.0]);
    let both = a.union(&b);
    let mut x = -4.0f32;
    while x <= 8.0 {
        let mut y = -4.0f32;
        while y <= 4.0 {
            let mut z = -1.0f32;
            while z <= 4.0 {
                let p = [x, y, z];
                if holds(&a, p) || holds(&b, p) {
                    assert!(holds(&both, p));
                }
                z += 0.5;
            }
            y += 0.5;
        }
        x += 0.5;
    }
    // and it is no larger than it must be
    assert!(!holds(&both, [-0.001, 0.0, 1.0]));
    assert!(!holds(&both, [6.001, 0.0, 1.0]));
    assert!(!holds(&both, [1.0, 2.001, 1.0]));
    assert!(!holds(&both, [1.0, -3.001, 1.0]));
}

#[test]
fn longest_axis_prefers_the_later_of_equals() {
    assert_eq!(BoundingBox::longest_axis(s(3.0), s(2.0), s(1.0)), 0);
    assert_eq!(BoundingBox::longest_axis(s(1.0), s(3.0), s(2.0)), 1);
    assert_eq!(BoundingBox::longest_axis(s(1.0), s(2.0), s(3.0)), 2);
    assert_eq!(BoundingBox::longest_axis(s(3.0), s(1.0), s(4.0)), 2);
    // of two equal lengths the later axis
    assert_eq!(BoundingBox::longest_axis(s(2.0), s(2.0), s(1.0)), 1);
    assert_eq!(BoundingBox::longest_axis(s(2.0), s(1.0), s(2.0)), 2);
    assert_eq!(BoundingBox::longest_axis(s(1.0), s(2.0), s(2.0)), 2);
    // and of three
    assert_eq!(BoundingBox::longest_axis(s(2.0), s(2.0), s(2.0)), 2);
    assert_eq!(BoundingBox::longest_axis(s(0.0), s(-0.0), s(0.0)), 2);
}

#[test]
fn longest_axis_of_a_box() {
    let bounds = between([0.0, 0.0, 0.0], [2.0, 1.0, 2.0]);
    let axes = bounds.axes();
    assert_eq!(BoundingBox::longest_axis(length(axes[0]), length(axes[1]), length(axes[2])), 2);
}

#[test]
fn axes_compare_by_their_lower_ends() {
    let a = cube([0.0, 5.0, -0.0], [9.0, 6.0, 1.0]);
    let b = cube([1.0, 5.0, 0.0], [2.0, 9.0, 1.0]);
    assert_eq!(a.compare_axis(&b, 0), Ordering::Less);
    assert_eq!(b.compare_axis(&a, 0), Ordering::Greater);
    assert_eq!(a.compare_axis(&b, 1), Ordering::Equal);
    // the total order tells the zeros apart
    assert_eq!(a.compare_axis(&b, 2), Ordering::Less);
    assert!(a.axis_key(0) < b.axis_key(0));
    assert_eq!(a.axis_key(1), b.axis_key(1));
}

#[test]
fn ray_aimed_at_the_center_meets_the_box() {
    let bounds = cube([-1.0, -2.0, -3.0], [1.0, 2.0, 3.0]);
    let origins = [[5.0f32, 4.0, 7.0], [-9.0, 0.5, 0.0], [0.0, 0.0, 30.0], [2.0, -8.0, 1.0]];
    for origin in origins.iter() {
        let dir = [-origin[0], -origin[1], -origin[2]];
        let met = BoundingBox::check_intersection(crossings(&bounds, *origin, dir), forward());
        let inside = met.unwrap();
        assert!(f(inside.0) <= f(inside.1));
        assert!(f(inside.0) > 0.0 && f(inside.1) < 2.0);
        // aimed away, nothing is met
        let away = [origin[0], origin[1], origin[2]];
        let missed = BoundingBox::check_intersection(crossings(&bounds, *origin, away), forward());
        assert_eq!(missed, None);
    }
}

#[test]
fn ray_along_an_axis_meets_the_slabs_it_lies_in() {
    let bounds = cube([-1.0, -1.0, -1.0], [1.0, 1.0, 1.0]);
    let met = BoundingBox::check_intersection(
        crossings(&bounds, [0.5, 0.5, 5.0], [0.0, 0.0, -1.0]),
        forward(),
    );
    assert_eq!(met, Some(Range(s(4.0), s(6.0))));
    let missed = BoundingBox::check_intersection(
        crossings(&bounds, [1.5, 0.5, 5.0], [0.0, 0.0, -1.0]),
        forward(),
    );
    assert_eq!(missed, None);
}

#[test]
fn slab_test_keeps_to_the_range() {
    let bounds = cube([-1.0, -1.0, -1.0], [1.0, 1.0, 1.0]);
    let through = crossings(&bounds, [0.0, 0.0, 5.0], [0.0, 0.0, -1.0]);
    assert_eq!(
        BoundingBox::check_intersection(through, Range(s(0.0), s(5.0))),
        Some(Range(s(4.0), s(5.0)))
    );
    assert_eq!(BoundingBox::check_intersection(through, Range(s(0.0), s(3.5))), None);
    assert_eq!(BoundingBox::check_intersection(through, Range(s(6.5), s(9.0))), None);
}

#[test]
fn thin_axes_are_told_apart() {
    assert!(BoundingBox::is_thin(s(0.0)));
    assert!(BoundingBox::is_thin(s(9e-9)));
    assert!(BoundingBox::is_thin(s(-1.0)));
    assert!(BoundingBox::is_thin(s(f32::NEG_INFINITY)));
    assert!(!BoundingBox::is_thin(s(1e-8)));
    assert!(!BoundingBox::is_thin(s(2.0)));
    assert!(!BoundingBox::is_thin(s(f32::NAN)));
}
