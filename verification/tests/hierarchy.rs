use engine::algebra::{Point, Vector};
use engine::bounding::BoundingBox;
use engine::construction::{evaluate_best_area_split, Construction, Reply, Request};
use engine::geometry::{choose_root, get_face, Collision};
use engine::hierarchy::{BoundingHierarchy, Heuristic, HierarchyNode};
use engine::scalar::Scalar;
use engine::traversal::{Answer, LinearScan, Pending};
use engine::types::Range;

fn s(x: f32) -> Scalar {
    Scalar::from_bits(x.to_bits())
}

fn f(x: Scalar) -> f32 {
    f32::from_bits(x.to_bits())
}

#[derive(Clone, Copy)]
struct Ball {
    center: [f32; 3],
    radius: f32,
}

fn bounds(ball: &Ball) -> BoundingBox {
    let c = ball.center;
    let r = ball.radius;
    let lo = [c[0] - r, c[1] - r, c[2] - r];
    let hi = [c[0] + r, c[1] + r, c[2] + r];
    let size = |i: usize| s(hi[i] - lo[i]);
    let wide = |i: usize| Range(s(lo[i] - 5e-9), s(hi[i] + 5e-9));
    BoundingBox::from_extrema(
        (s(lo[0]), s(lo[1]), s(lo[2])),
        (s(hi[0]), s(hi[1]), s(hi[2])),
        (size(0), size(1), size(2)),
        (wide(0), wide(1), wide(2)),
    )
}

fn length(range: Range) -> f32 {
    f(range.1) - f(range.0)
}

fn area(bounds: &BoundingBox) -> f32 {
    let axes = bounds.axes();
    let (w, h, d) = (length(axes[0]), length(axes[1]), length(axes[2]));
    2.0 * (w * h + w * d + h * d)
}

fn costs_for(building: &Construction, lo: usize, hi: usize) -> Vec<Vec<Scalar>> {
    let n = hi - lo;
    let mut all = Vec::new();
    for axis in 0..3 {
        let entries = building.arrangement(axis);
        assert_eq!(entries.len(), n);
        let mut row = Vec::new();
        for split in 1..n - 1 {
            let mut left = 0.0f32;
            for handle in entries[..split].iter() {
                left += area(&building.bounds_of(*handle));
            }
            let mut right = 0.0f32;
            for handle in entries[split..].iter() {
                right += area(&building.bounds_of(*handle));
            }
            row.push(s(split as f32 * left + (n - split) as f32 * right));
        }
        all.push(row);
    }
    all
}

fn build(boxes: Vec<BoundingBox>, heuristic: Heuristic) -> (BoundingHierarchy, Vec<usize>) {
    let mut building = BoundingHierarchy::from_vec_with_heuristic(boxes, heuristic);
    let mut turn = 0usize;
    loop {
        match building.request() {
            Request::Ready => break,
            Request::Costs { lo, hi } => {
                let costs = costs_for(&building, lo, hi);
                building.supply(Reply::Costs(costs));
            }
            Request::Lengths { .. } => {
                let axes = building.slice_bounds().axes();
                building.supply(Reply::Lengths(
                    s(length(axes[0])),
                    s(length(axes[1])),
                    s(length(axes[2])),
                ));
            }
            Request::Axis { .. } => {
                turn += 1;
                building.supply(Reply::Axis(turn % 3));
            }
        }
    }
    assert!(building.is_ready());
    building.finish()
}

fn hit(ball: &Ball, handle: usize, origin: [f32; 3], dir: [f32; 3], range: Range) -> Option<Collision> {
    let oc = [
        ball.center[0] - origin[0],
        ball.center[1] - origin[1],
        ball.center[2] - origin[2],
    ];
    let a = dir[0] * dir[0] + dir[1] * dir[1] + dir[2] * dir[2];
    let h = dir[0] * oc[0] + dir[1] * oc[1] + dir[2] * oc[2];
    let c = oc[0] * oc[0] + oc[1] * oc[1] + oc[2] * oc[2] - ball.radius * ball.radius;
    let delta = h * h - a * c;
    let root = delta.sqrt();
    let t = f(choose_root(s(delta), s((h - root) / a), s((h + root) / a), range)?);
    let p = [origin[0] + t * dir[0], origin[1] + t * dir[1], origin[2] + t * dir[2]];
    let n = [
        (p[0] - ball.center[0]) / ball.radius,
        (p[1] - ball.center[1]) / ball.radius,
        (p[2] - ball.center[2]) / ball.radius,
    ];
    let along = dir[0] * n[0] + dir[1] * n[1] + dir[2] * n[2];
    let (front, normal) = get_face(s(along), Vector::new(s(n[0]), s(n[1]), s(n[2])));
    Some(Collision {
        point: Point::new(s(p[0]), s(p[1]), s(p[2])),
        normal,
        t: s(t),
        is_front_facing: front,
        material: handle,
    })
}

fn crossings(bounds: &BoundingBox, origin: [f32; 3], dir: [f32; 3]) -> [(Scalar, Scalar); 3] {
    let axes = bounds.axes();
    let mut out = [(s(0.0), s(0.0)); 3];
    for axis in 0..3 {
        let coefficient = 1.0 / dir[axis];
        let t0 = (f(axes[axis].0) - origin[axis]) * coefficient;
        let t1 = (f(axes[axis].1) - origin[axis]) * coefficient;
        out[axis] = (s(t0), s(t1));
    }
    out
}

fn traverse(
    tree: &BoundingHierarchy,
    balls: &[Ball],
    origin: [f32; 3],
    dir: [f32; 3],
    range: Range,
) -> (Option<Collision>, usize) {
    let mut search = tree.collide(range);
    let mut tests = 0usize;
    loop {
        let answer = match search.pending() {
            Pending::Done(result) => return (result, tests),
            Pending::Bounds { node, range } => {
                let bounds = tree.node(node).bounds;
                Answer::Bounds(BoundingBox::check_intersection(
                    crossings(&bounds, origin, dir),
                    range,
                ))
            }
            Pending::Primitive { handle, range } => {
                tests += 1;
                Answer::Primitive(hit(&balls[handle], handle, origin, dir, range))
            }
        };
        search.step(tree, answer);
    }
}

fn brute(
    order: &[usize],
    balls: &[Ball],
    origin: [f32; 3],
    dir: [f32; 3],
    range: Range,
) -> Option<Collision> {
    let mut scan = LinearScan::new(order.to_vec(), range);
    while let Some((handle, left)) = scan.pending() {
        scan.step(hit(&balls[handle], handle, origin, dir, left));
    }
    scan.result()
}

struct Lcg(u64);

impl Lcg {
    fn next(&mut self) -> f32 {
        self.0 = self.0.wrapping_mul(6364136223846793005).wrapping_add(1442695040888963407);
        ((self.0 >> 40) as f32) / ((1u64 << 24) as f32)
    }

    fn between(&mut self, lo: f32, hi: f32) -> f32 {
        lo + (hi - lo) * self.next()
    }
}

fn scene(rng: &mut Lcg, n: usize) -> Vec<Ball> {
    let mut balls = Vec::new();
    for _ in 0..n {
        balls.push(Ball {
            center: [rng.between(-10.0, 10.0), rng.between(-10.0, 10.0), rng.between(-10.0, 10.0)],
            radius: rng.between(0.2, 1.5),
        });
    }
    balls
}

fn leaves_of(tree: &BoundingHierarchy, node: usize, out: &mut Vec<usize>) {
    match tree.node(node).data {
        HierarchyNode::Leaf(handle) => out.push(handle),
        HierarchyNode::Tree(left, right) => {
            leaves_of(tree, left, out);
            leaves_of(tree, right, out);
        }
    }
}

#[test]
fn one_primitive_gives_a_leaf_with_its_box() {
    let ball = Ball { center: [1.0, 2.0, 3.0], radius: 0.5 };
    let tree = BoundingHierarchy::new(7, bounds(&ball));
    assert_eq!(tree.len(), 1);
    assert_eq!(tree.node(0).data, HierarchyNode::Leaf(7));
    assert_eq!(tree.node(0).bounds, bounds(&ball));
    assert_eq!(tree.bounding_box(), bounds(&ball));

    let (built, order) = build(vec![bounds(&ball)], Heuristic::SurfaceArea);
    assert_eq!(built.len(), 1);
    assert_eq!(built.node(0).data, HierarchyNode::Leaf(0));
    assert_eq!(built.node(0).bounds, bounds(&ball));
    assert_eq!(order, vec![0]);
}

#[test]
fn two_primitives_give_a_tree_with_the_union() {
    let a = Ball { center: [0.0, 0.0, 0.0], radius: 1.0 };
    let b = Ball { center: [4.0, -1.0, 2.0], radius: 0.5 };
    let tree = BoundingHierarchy::pair(0, bounds(&a), 1, bounds(&b));
    assert_eq!(tree.len(), 3);
    assert_eq!(tree.node(2).data, HierarchyNode::Tree(0, 1));
    assert_eq!(tree.bounding_box(), bounds(&a).union(&bounds(&b)));
    let axes = tree.bounding_box().axes();
    assert_eq!(axes[0], Range(s(-1.0), s(4.5)));
    assert_eq!(axes[1], Range(s(-1.5), s(1.0)));
    assert_eq!(axes[2], Range(s(-1.0), s(2.5)));

    let (built, order) = build(vec![bounds(&a), bounds(&b)], Heuristic::SurfaceArea);
    assert_eq!(built.len(), 3);
    assert_eq!(built.node(0).data, HierarchyNode::Leaf(0));
    assert_eq!(built.node(1).data, HierarchyNode::Leaf(1));
    assert_eq!(built.node(2).data, HierarchyNode::Tree(0, 1));
    assert_eq!(built.bounding_box(), bounds(&a).union(&bounds(&b)));
    assert_eq!(order, vec![0, 1]);
}

#[test]
fn three_primitives_split_where_the_cost_is_least() {
    // two small balls close together and one far away along x
    let balls = vec![
        Ball { center: [10.0, 0.0, 0.0], radius: 1.0 },
        Ball { center: [0.0, 0.0, 0.0], radius: 1.0 },
        Ball { center: [0.5, 0.0, 0.0], radius: 1.0 },
    ];
    let boxes: Vec<BoundingBox> = balls.iter().map(bounds).collect();
    let mut building = BoundingHierarchy::from_vec(boxes);
    assert_eq!(building.request(), Request::Costs { lo: 0, hi: 3 });
    assert_eq!(building.arrangement(0), vec![1, 2, 0]);
    // all three are level along y and z, so their order stays
    assert_eq!(building.arrangement(1), vec![1, 2, 0]);
    assert_eq!(building.arrangement(2), vec![1, 2, 0]);
    let costs = costs_for(&building, 0, 3);
    // every ball has area 24: one on the left and two on the right cost 24 + 2 * 48
    assert_eq!(costs, vec![vec![s(120.0)], vec![s(120.0)], vec![s(120.0)]]);
    let cut = building.supply(Reply::Costs(costs));
    assert_eq!(cut, (0, 1));
    assert_eq!(building.request(), Request::Ready);
    let (tree, order) = building.finish();
    assert_eq!(order, vec![1, 2, 0]);
    assert_eq!(tree.len(), 5);
    assert_eq!(tree.node(0).data, HierarchyNode::Leaf(1));
    assert_eq!(tree.node(1).data, HierarchyNode::Leaf(2));
    assert_eq!(tree.node(2).data, HierarchyNode::Leaf(0));
    assert_eq!(tree.node(3).data, HierarchyNode::Tree(1, 2));
    assert_eq!(tree.node(4).data, HierarchyNode::Tree(0, 3));
    assert_eq!(tree.root(), 4);
    let axes = tree.bounding_box().axes();
    assert_eq!(axes[0], Range(s(-1.0), s(11.0)));
}

#[test]
fn best_split_takes_the_first_of_equal_costs() {
    let costs = vec![
        vec![s(5.0), s(3.0), s(4.0)],
        vec![s(3.0), s(2.0), s(2.0)],
        vec![s(2.0), s(9.0), s(1.5)],
    ];
    assert_eq!(evaluate_best_area_split(&costs), (2, 3));
    let level = vec![vec![s(2.0), s(2.0)], vec![s(2.0), s(2.0)], vec![s(2.0), s(2.0)]];
    assert_eq!(evaluate_best_area_split(&level), (0, 1));
    let later = vec![vec![s(7.0), s(6.0)], vec![s(6.0), s(5.0)], vec![s(5.0), s(5.0)]];
    assert_eq!(evaluate_best_area_split(&later), (1, 2));
}

#[test]
fn best_split_passes_over_what_is_no_number() {
    let costs = vec![
        vec![s(f32::NAN), s(f32::INFINITY)],
        vec![s(f32::INFINITY), s(8.0)],
        vec![s(f32::NAN), s(8.0)],
    ];
    assert_eq!(evaluate_best_area_split(&costs), (1, 2));
    let nothing = vec![vec![s(f32::INFINITY)], vec![s(f32::NAN)], vec![s(f32::INFINITY)]];
    assert_eq!(evaluate_best_area_split(&nothing), (0, 0));
}

#[test]
fn every_heuristic_holds_each_primitive_once() {
    let mut rng = Lcg(11);
    for heuristic in [Heuristic::SurfaceArea, Heuristic::LongestAxis, Heuristic::RandomAxis] {
        for n in 1..20usize {
            let balls = scene(&mut rng, n);
            let boxes: Vec<BoundingBox> = balls.iter().map(bounds).collect();
            let (tree, order) = build(boxes.clone(), heuristic);
            assert_eq!(tree.len(), 2 * n - 1);
            let mut seen = order.clone();
            seen.sort();
            assert_eq!(seen, (0..n).collect::<Vec<usize>>());
            let mut held = Vec::new();
            leaves_of(&tree, tree.root(), &mut held);
            assert_eq!(held, order);
            for i in 0..tree.len() {
                let node = tree.node(i);
                match node.data {
                    HierarchyNode::Leaf(handle) => assert_eq!(node.bounds, boxes[handle]),
                    HierarchyNode::Tree(left, right) => {
                        assert!(left < i && right < i);
                        assert_eq!(
                            node.bounds,
                            tree.node(left).bounds.union(&tree.node(right).bounds)
                        );
                    }
                }
            }
        }
    }
}

#[test]
fn longest_axis_sorts_along_it_and_cuts_in_the_middle() {
    let balls = vec![
        Ball { center: [0.0, 9.0, 0.0], radius: 0.5 },
        Ball { center: [1.0, 3.0, 0.0], radius: 0.5 },
        Ball { center: [2.0, 6.0, 0.0], radius: 0.5 },
        Ball { center: [3.0, 0.0, 0.0], radius: 0.5 },
    ];
    let boxes: Vec<BoundingBox> = balls.iter().map(bounds).collect();
    let mut building = BoundingHierarchy::from_vec_with_heuristic(boxes, Heuristic::LongestAxis);
    assert_eq!(building.request(), Request::Lengths { lo: 0, hi: 4 });
    let axes = building.slice_bounds().axes();
    assert_eq!(axes[1], Range(s(-0.5), s(9.5)));
    let cut = building.supply(Reply::Lengths(s(4.0), s(10.0), s(1.0)));
    assert_eq!(cut, (1, 2));
    let (_, order) = building.finish();
    assert_eq!(order, vec![3, 1, 2, 0]);
}

#[test]
fn traversal_finds_what_a_linear_scan_finds() {
    let mut rng = Lcg(2024);
    let range = Range(s(0.001), s(f32::INFINITY));
    for n in 1..=50usize {
        let balls = scene(&mut rng, n);
        let boxes: Vec<BoundingBox> = balls.iter().map(bounds).collect();
        let (tree, order) = build(boxes, Heuristic::SurfaceArea);
        for _ in 0..40 {
            let origin = [rng.between(-20.0, 20.0), rng.between(-20.0, 20.0), 25.0];
            let target = [rng.between(-10.0, 10.0), rng.between(-10.0, 10.0), rng.between(-10.0, 10.0)];
            let dir = [target[0] - origin[0], target[1] - origin[1], target[2] - origin[2]];
            let (found, _) = traverse(&tree, &balls, origin, dir, range);
            let wanted = brute(&order, &balls, origin, dir, range);
            assert_eq!(found, wanted);
        }
    }
}

#[test]
fn traversal_prunes_what_the_ray_passes_by() {
    let mut balls = Vec::new();
    for i in 0..32 {
        balls.push(Ball { center: [3.0 * i as f32, 0.0, 0.0], radius: 1.0 });
    }
    let boxes: Vec<BoundingBox> = balls.iter().map(bounds).collect();
    let (tree, _) = build(boxes, Heuristic::SurfaceArea);
    let range = Range(s(0.001), s(f32::INFINITY));
    let (found, tests) = traverse(&tree, &balls, [30.0, 0.0, 10.0], [0.0, 0.0, -1.0], range);
    let found = found.unwrap();
    assert_eq!(found.material, 10);
    assert_eq!(f(found.t), 9.0);
    assert!(found.is_front_facing);
    assert!(tests < 8);
    let (missed, tests) = traverse(&tree, &balls, [30.0, 5.0, 10.0], [0.0, 0.0, -1.0], range);
    assert_eq!(missed, None);
    assert_eq!(tests, 0);
}

#[test]
fn nearer_hit_on_the_right_goes_first() {
    // the left leaf holds the farther ball
    let far = Ball { center: [0.0, 0.0, -10.0], radius: 1.0 };
    let near = Ball { center: [0.0, 0.0, -4.0], radius: 1.0 };
    let balls = vec![far, near];
    let tree = BoundingHierarchy::pair(0, bounds(&far), 1, bounds(&near));
    let range = Range(s(0.001), s(f32::INFINITY));
    let (found, _) = traverse(&tree, &balls, [0.0, 0.0, 0.0], [0.0, 0.0, -1.0], range);
    let found = found.unwrap();
    assert_eq!(found.material, 1);
    assert_eq!(f(found.t), 3.0);
    // and the other way round the left hit stays
    let swapped = vec![near, far];
    let tree = BoundingHierarchy::pair(0, bounds(&near), 1, bounds(&far));
    let (found, _) = traverse(&tree, &swapped, [0.0, 0.0, 0.0], [0.0, 0.0, -1.0], range);
    let found = found.unwrap();
    assert_eq!(found.material, 0);
    assert_eq!(f(found.t), 3.0);
}

#[test]
fn random_axis_is_one_of_three() {
    let mut rng = Lcg(5);
    for n in 3..12usize {
        let balls = scene(&mut rng, n);
        let boxes: Vec<BoundingBox> = balls.iter().map(bounds).collect();
        let mut building = BoundingHierarchy::from_vec_with_heuristic(boxes, Heuristic::RandomAxis);
        let mut splits = 0;
        while let Request::Axis { lo, hi } = building.request() {
            let (axis, mid) = building.supply_random_axis();
            assert!(axis <= 2);
            assert_eq!(mid, (hi - lo) / 2);
            splits += 1;
        }
        assert!(splits >= 1);
        let (tree, order) = building.finish();
        assert_eq!(tree.len(), 2 * n - 1);
        let mut held = Vec::new();
        leaves_of(&tree, tree.root(), &mut held);
        assert_eq!(held, order);
    }
}

#[test]
fn linear_scan_keeps_the_nearest_and_of_equals_the_last() {
    let balls = vec![
        Ball { center: [0.0, 0.0, -10.0], radius: 1.0 },
        Ball { center: [0.0, 0.0, -4.0], radius: 1.0 },
        Ball { center: [0.0, 0.0, -4.0], radius: 1.0 },
        Ball { center: [0.0, 0.0, -7.0], radius: 1.0 },
    ];
    let range = Range(s(0.001), s(f32::INFINITY));
    let mut scan = LinearScan::new(vec![0, 1, 2, 3], range);
    assert_eq!(scan.pending(), Some((0, range)));
    scan.step(hit(&balls[0], 0, [0.0; 3], [0.0, 0.0, -1.0], range));
    assert_eq!(scan.pending(), Some((1, Range(s(0.001), s(9.0)))));
    let found = brute(&[0, 1, 2, 3], &balls, [0.0; 3], [0.0, 0.0, -1.0], range).unwrap();
    assert_eq!(f(found.t), 3.0);
    assert_eq!(found.material, 2);
    let none = brute(&[0, 1, 2, 3], &balls, [5.0, 0.0, 0.0], [0.0, 0.0, -1.0], range);
    assert_eq!(none, None);
    assert_eq!(LinearScan::new(Vec::new(), range).pending(), None);
    assert_eq!(LinearScan::new(Vec::new(), range).result(), None);
}

#[test]
fn search_reports_its_result_only_at_the_end() {
    let ball = Ball { center: [0.0, 0.0, -5.0], radius: 1.0 };
    let tree = BoundingHierarchy::new(0, bounds(&ball));
    let range = Range(s(0.001), s(f32::INFINITY));
    let origin = [0.0f32; 3];
    let dir = [0.0f32, 0.0, -1.0];
    let mut search = tree.collide(range);
    assert_eq!(search.result(), None);
    assert!(matches!(search.pending(), Pending::Bounds { node: 0, .. }));
    let inside = BoundingBox::check_intersection(crossings(&bounds(&ball), origin, dir), range);
    assert_eq!(inside, Some(Range(s(4.0), s(6.0))));
    search.step(&tree, Answer::Bounds(inside));
    assert_eq!(search.result(), None);
    // the primitive is asked over the whole range, not over the part inside the box
    match search.pending() {
        Pending::Primitive { handle, range: asked } => {
            assert_eq!(handle, 0);
            assert_eq!(asked, range);
        }
        _ => panic!("the leaf's primitive should be asked next"),
    }
    let found = hit(&ball, 0, origin, dir, range);
    search.step(&tree, Answer::Primitive(found));
    assert_eq!(search.result(), Some(found));
    assert_eq!(f(found.unwrap().t), 4.0);
}
