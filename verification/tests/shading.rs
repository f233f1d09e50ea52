use engine::algebra::{Color, Point, Vector};
use engine::camera::{
    hit_range, ray_color, uses_lens, BuilderError, CameraBuilder, PathEvent, PathStep, Ray,
};
use engine::geometry::{choose_root, get_face, or, parallelogram_accepts, plane_face, Collision};
use engine::material::{
    settle_direction, Dielectric, Glossy, Lambertian, LambertianProb, Metal, SpecularMetal,
};
use engine::scalar::Scalar;
use engine::types::{Dimensions, Range};

fn s(x: f32) -> Scalar {
    Scalar::from_bits(x.to_bits())
}

fn f(x: Scalar) -> f32 {
    f32::from_bits(x.to_bits())
}

fn v(x: f32, y: f32, z: f32) -> Vector {
    Vector::new(s(x), s(y), s(z))
}

fn p(x: f32, y: f32, z: f32) -> Point {
    Point::new(s(x), s(y), s(z))
}

fn forward() -> Range {
    Range(s(0.001), s(f32::INFINITY))
}

#[test]
fn ray_at_a_unit_sphere_hits_at_distance_less_radius() {
    let origins = [[0.0f32, 0.0, 5.0], [3.0, 0.0, 4.0], [0.0, -8.0, 6.0]];
    for origin in origins.iter() {
        let distance =
            (origin[0] * origin[0] + origin[1] * origin[1] + origin[2] * origin[2]).sqrt();
        let dir = [-origin[0] / distance, -origin[1] / distance, -origin[2] / distance];
        let oc = [-origin[0], -origin[1], -origin[2]];
        let a = dir[0] * dir[0] + dir[1] * dir[1] + dir[2] * dir[2];
        let h = dir[0] * oc[0] + dir[1] * oc[1] + dir[2] * oc[2];
        let c = oc[0] * oc[0] + oc[1] * oc[1] + oc[2] * oc[2] - 1.0;
        let delta = h * h - a * c;
        let root = delta.sqrt();
        let t = f(choose_root(s(delta), s((h - root) / a), s((h + root) / a), forward()).unwrap());
        assert!((t - (distance - 1.0)).abs() < 1e-4);
        let point = [origin[0] + t * dir[0], origin[1] + t * dir[1], origin[2] + t * dir[2]];
        let along = dir[0] * point[0] + dir[1] * point[1] + dir[2] * point[2];
        let (front, normal) = get_face(s(along), v(point[0], point[1], point[2]));
        assert!(front);
        assert_eq!(normal, v(point[0], point[1], point[2]));
    }
}

#[test]
fn roots_are_tried_near_first() {
    let range = Range(s(1.0), s(10.0));
    assert_eq!(choose_root(s(4.0), s(2.0), s(6.0), range), Some(s(2.0)));
    assert_eq!(choose_root(s(4.0), s(0.5), s(6.0), range), Some(s(6.0)));
    assert_eq!(choose_root(s(4.0), s(0.5), s(11.0), range), None);
    assert_eq!(choose_root(s(4.0), s(-3.0), s(-1.0), range), None);
    assert_eq!(choose_root(s(-0.1), s(2.0), s(6.0), range), None);
    assert_eq!(choose_root(s(0.0), s(3.0), s(3.0), range), Some(s(3.0)));
    assert_eq!(choose_root(s(4.0), s(1.0), s(6.0), range), Some(s(1.0)));
    assert_eq!(choose_root(s(4.0), s(0.0), s(10.0), range), Some(s(10.0)));
}

#[test]
fn back_face_turns_the_normal() {
    let normal = v(0.0, 1.0, 0.0);
    assert_eq!(get_face(s(0.5), normal), (false, v(-0.0, -1.0, -0.0)));
    assert_eq!(get_face(s(-0.5), normal), (true, normal));
    assert_eq!(get_face(s(0.0), normal), (true, normal));
}

#[test]
fn plane_is_missed_by_a_ray_along_it() {
    let normal = v(0.0, 0.0, 1.0);
    assert_eq!(plane_face(s(0.0), s(f32::INFINITY), forward(), normal), None);
    assert_eq!(plane_face(s(-0.0), s(f32::NAN), forward(), normal), None);
    assert_eq!(plane_face(s(1.0), s(-2.0), forward(), normal), None);
    // against the normal the ray meets the front, and the normal stays
    assert_eq!(plane_face(s(-1.0), s(2.0), forward(), normal), Some((true, normal)));
    // along the normal it comes from behind, and the normal is turned
    assert_eq!(plane_face(s(1.0), s(2.0), forward(), normal), Some((false, v(-0.0, -0.0, -1.0))));
    for along in [-3.0f32, -0.25, 0.5, 7.0] {
        assert_eq!(plane_face(s(along), s(2.0), forward(), normal), Some(get_face(s(along), normal)));
    }
}

#[test]
fn ray_down_onto_a_floor_meets_its_front() {
    // the plane z = 0 with its normal up, a ray from five above straight down
    let normal = [0.0f32, 0.0, 1.0];
    let origin = [0.0f32, 0.0, 5.0];
    let dir = [0.0f32, 0.0, -1.0];
    let along = dir[0] * normal[0] + dir[1] * normal[1] + dir[2] * normal[2];
    let root = -(origin[2] * normal[2]) / along;
    assert_eq!(root, 5.0);
    let face = plane_face(s(along), s(root), forward(), v(0.0, 0.0, 1.0));
    assert_eq!(face, Some((true, v(0.0, 0.0, 1.0))));
}

#[test]
fn parallelogram_takes_its_own_unit_square() {
    let range = forward();
    assert!(parallelogram_accepts(s(-1.0), s(2.0), s(0.5), s(0.5), range));
    assert!(parallelogram_accepts(s(1.0), s(2.0), s(0.0), s(1.0), range));
    assert!(!parallelogram_accepts(s(1.0), s(2.0), s(1.001), s(0.5), range));
    assert!(!parallelogram_accepts(s(1.0), s(2.0), s(0.5), s(-0.001), range));
    assert!(!parallelogram_accepts(s(1.0), s(0.0005), s(0.5), s(0.5), range));
    assert!(!parallelogram_accepts(s(0.0), s(2.0), s(0.5), s(0.5), range));
    assert!(!parallelogram_accepts(s(1e-8), s(2.0), s(0.5), s(0.5), range));
    assert!(parallelogram_accepts(s(2e-8), s(2.0), s(0.5), s(0.5), range));
}

#[test]
fn first_result_goes_before_the_second() {
    let hit = |t: f32| Collision {
        point: p(0.0, 0.0, t),
        normal: v(0.0, 0.0, 1.0),
        t: s(t),
        is_front_facing: true,
        material: 0,
    };
    assert_eq!(or(Some(hit(1.0)), Some(hit(2.0))), Some(hit(1.0)));
    assert_eq!(or(None, Some(hit(2.0))), Some(hit(2.0)));
    assert_eq!(or(Some(hit(1.0)), None), Some(hit(1.0)));
    assert_eq!(or(None, None), None);
}

#[test]
fn no_bounce_left_is_black() {
    for event in [PathEvent::Missed, PathEvent::Absorbed, PathEvent::Scattered] {
        assert_eq!(ray_color(0, event), PathStep::Black);
    }
}

#[test]
fn a_miss_is_the_sky_and_a_bounce_goes_on() {
    for depth in 1..6usize {
        assert_eq!(ray_color(depth, PathEvent::Missed), PathStep::Sky);
        assert_eq!(ray_color(depth, PathEvent::Absorbed), PathStep::Black);
        assert_eq!(ray_color(depth, PathEvent::Scattered), PathStep::Follow { depth: depth - 1 });
    }
}

#[test]
fn rays_are_tested_from_just_off_their_origin() {
    assert_eq!(hit_range(), Range(s(0.001), s(f32::INFINITY)));
}

#[test]
fn builder_starts_from_the_defaults() {
    let builder = CameraBuilder::new();
    assert_eq!(f(builder.vertical_field_of_view), 90.0);
    assert_eq!(builder.look_from, p(0.0, 0.0, 0.0));
    assert_eq!(builder.look_at, p(-0.0, -0.0, -1.0));
    assert_eq!(builder.v_up, v(0.0, 1.0, 0.0));
    assert_eq!(f(builder.defocus_angle), 0.0);
    assert_eq!(f(builder.focus_distance), 1.0);
    assert_eq!(builder.max_depth, 10);
    assert_eq!(builder, CameraBuilder::default());
    assert!(!builder.uses_lens());
}

#[test]
fn field_of_view_lies_strictly_inside_the_half_turn() {
    let mut builder = CameraBuilder::new();
    for bad in [0.0f32, -0.0, -1.0, 180.0, 181.0, f32::NAN, f32::INFINITY] {
        assert_eq!(builder.set_vertical_field_of_view(s(bad)), Err(BuilderError::FovOutOfRange));
        assert_eq!(builder, CameraBuilder::new());
    }
    assert_eq!(builder.set_vertical_field_of_view(s(20.0)), Ok(()));
    assert_eq!(f(builder.vertical_field_of_view), 20.0);
    assert_eq!(builder.set_vertical_field_of_view(s(179.9)), Ok(()));
}

#[test]
fn camera_cannot_look_at_where_it_stands() {
    let mut builder = CameraBuilder::new();
    assert_eq!(builder.set_look_from(p(0.0, 0.0, -1.0)), Err(BuilderError::LookingAtCenter));
    assert_eq!(builder.set_look_at(p(0.0, 0.0, 0.0)), Err(BuilderError::LookingAtCenter));
    assert_eq!(builder.set_look_at(p(-0.0, 0.0, -0.0)), Err(BuilderError::LookingAtCenter));
    assert_eq!(builder, CameraBuilder::new());
    assert_eq!(builder.set_look_from(p(1.0, 2.0, 3.0)), Ok(()));
    assert_eq!(builder.set_look_at(p(0.0, 0.0, 0.0)), Ok(()));
    assert_eq!(builder.look_from, p(1.0, 2.0, 3.0));
    assert_eq!(builder.look_at, p(0.0, 0.0, 0.0));
}

#[test]
fn up_vector_must_have_a_length() {
    let mut builder = CameraBuilder::new();
    assert_eq!(builder.set_vup(v(0.0, 0.0, 0.0), s(0.0)), Err(BuilderError::ZeroVup));
    assert_eq!(builder.set_vup(v(1.0, 0.0, 0.0), s(9e-7)), Err(BuilderError::ZeroVup));
    assert_eq!(builder.v_up, v(0.0, 1.0, 0.0));
    assert_eq!(builder.set_vup(v(1.0, 0.0, 0.0), s(1e-6)), Ok(()));
    assert_eq!(builder.v_up, v(1.0, 0.0, 0.0));
}

#[test]
fn depth_angle_and_distance_are_checked() {
    let mut builder = CameraBuilder::new();
    assert_eq!(builder.set_max_depth(0), Err(BuilderError::ZeroDepth));
    assert_eq!(builder.set_max_depth(50), Ok(()));
    assert_eq!(builder.max_depth, 50);
    assert_eq!(builder.set_defocus_angle(s(-0.5)), Err(BuilderError::DefocusAngleOutOfRange));
    assert_eq!(builder.set_defocus_angle(s(180.0)), Err(BuilderError::DefocusAngleOutOfRange));
    assert_eq!(builder.set_defocus_angle(s(f32::NAN)), Err(BuilderError::DefocusAngleOutOfRange));
    assert_eq!(builder.set_defocus_angle(s(0.0)), Ok(()));
    assert!(!builder.uses_lens());
    assert_eq!(builder.set_defocus_angle(s(10.0)), Ok(()));
    assert!(builder.uses_lens());
    assert_eq!(
        builder.set_focus_distance(s(-1.0)),
        Err(BuilderError::NonPositiveFocusDistance)
    );
    assert_eq!(
        builder.set_focus_distance(s(f32::NAN)),
        Err(BuilderError::NonPositiveFocusDistance)
    );
    assert_eq!(f(builder.focus_distance), 1.0);
    assert_eq!(builder.set_focus_distance(s(0.0)), Ok(()));
    assert_eq!(builder.set_focus_distance(s(-0.0)), Ok(()));
    assert_eq!(builder.set_focus_distance(s(3.4)), Ok(()));
    assert_eq!(f(builder.focus_distance), 3.4);
}

#[test]
fn camera_needs_a_sample_for_each_pixel() {
    let mut builder = CameraBuilder::new();
    assert_eq!(builder.set_max_depth(7), Ok(()));
    assert_eq!(builder.build(Dimensions(40, 30), 0), Err(BuilderError::ZeroSamples));
    let camera = builder.build(Dimensions(40, 30), 16).unwrap();
    assert_eq!(camera.settings, builder);
    assert_eq!(camera.dimensions, Dimensions(40, 30));
    assert_eq!(camera.samples_per_pixel, 16);
    assert_eq!(builder.build(Dimensions(40, 30), 1).unwrap().samples_per_pixel, 1);
}

#[test]
fn lens_is_used_above_no_angle() {
    assert!(!uses_lens(s(0.0)));
    assert!(!uses_lens(s(-0.0)));
    assert!(!uses_lens(s(-2.0)));
    assert!(!uses_lens(s(f32::NAN)));
    assert!(uses_lens(s(0.5)));
}

#[test]
fn ray_keeps_what_it_is_given() {
    let ray = Ray::new(p(1.0, 2.0, 3.0), v(0.0, 0.0, -1.0));
    assert_eq!(ray.origin, p(1.0, 2.0, 3.0));
    assert_eq!(ray.direction, v(0.0, 0.0, -1.0));
    assert_eq!(p(1.0, 2.0, 3.0).to_vector(), v(1.0, 2.0, 3.0));
    assert_eq!(v(1.0, 2.0, 3.0).to_point(), p(1.0, 2.0, 3.0));
    assert_eq!(v(1.0, -2.0, 0.0).neg(), v(-1.0, 2.0, -0.0));
    assert_eq!(Vector::x(), v(1.0, 0.0, 0.0));
    assert_eq!(Vector::y(), v(0.0, 1.0, 0.0));
    assert_eq!(Vector::z(), v(0.0, 0.0, 1.0));
    assert_eq!(Vector::zeros(), v(0.0, 0.0, 0.0));
    assert_eq!(Point::x(), p(1.0, 0.0, 0.0));
    assert_eq!(Point::y(), p(0.0, 1.0, 0.0));
    assert_eq!(Point::z(), p(0.0, 0.0, 1.0));
    assert_eq!(Point::zeros(), p(0.0, 0.0, 0.0));
}

#[test]
fn clear_surface_at_normal_incidence_keeps_the_direction() {
    let glass = Dielectric::new(s(1.5));
    assert_eq!(f(glass.refraction_index_ratio), 1.5);
    // straight down onto a surface whose normal points up
    let cosine = f(Dielectric::clamp_cosine(s(1.0)));
    assert_eq!(cosine, 1.0);
    let sine = (1.0 - cosine * cosine).sqrt();
    for ratio in [1.5f32, 1.0 / 1.5, 1.0, 2.4] {
        assert!(!Dielectric::reflects(s(ratio * sine)));
        // what is left of the direction beside the normal has no length
        let incoming = [0.0f32, -1.0, 0.0];
        let normal = [0.0f32, -1.0, 0.0];
        let beside = [
            ratio * (incoming[0] - cosine * normal[0]),
            ratio * (incoming[1] - cosine * normal[1]),
            ratio * (incoming[2] - cosine * normal[2]),
        ];
        assert_eq!(beside, [0.0, 0.0, 0.0]);
    }
    assert_eq!(glass.attenuation(), Color::white());
    assert_eq!(glass.attenuation(), Color::new(s(1.0), s(1.0), s(1.0)));
}

#[test]
fn cosine_is_held_to_one() {
    assert_eq!(f(Dielectric::clamp_cosine(s(1.0000001))), 1.0);
    assert_eq!(f(Dielectric::clamp_cosine(s(0.25))), 0.25);
    assert_eq!(f(Dielectric::clamp_cosine(s(-0.5))), -0.5);
    assert_eq!(f(Dielectric::clamp_cosine(s(f32::NAN))), 1.0);
}

#[test]
fn steep_rays_in_dense_matter_are_mirrored() {
    assert!(Dielectric::reflects(s(1.2)));
    assert!(!Dielectric::reflects(s(1.0)));
    assert!(!Dielectric::reflects(s(0.7)));
}

#[test]
fn matte_direction_falls_back_on_the_normal() {
    let normal = v(0.0, 1.0, 0.0);
    let candidate = v(0.3, 1.2, -0.1);
    assert_eq!(settle_direction(candidate, s(1.54), normal), candidate);
    assert_eq!(settle_direction(v(1e-5, 0.0, 0.0), s(1e-10), normal), normal);
    assert_eq!(settle_direction(candidate, s(1e-8), normal), candidate);
}

#[test]
fn materials_keep_their_settings() {
    let red = Color::new(s(1.0), s(0.2), s(0.2));
    let gold = Color::new(s(0.8), s(0.6), s(0.2));
    assert_eq!(Lambertian::new(red).albedo, red);
    assert_eq!(Glossy::new(red).albedo, red);
    assert_eq!(Metal::new(gold, s(0.3)), Metal { albedo: gold, fuzziness: s(0.3) });
    assert_eq!(Metal::polished(gold), Metal { albedo: gold, fuzziness: s(0.0) });
    let specular = SpecularMetal::new(red, gold, s(0.4), s(0.1));
    assert_eq!(specular.normal_reflectance, s(0.4));
    assert_eq!(specular.fuzziness, s(0.1));
    assert_eq!(SpecularMetal::polished(red, gold, s(0.4)).fuzziness, s(0.0));
    assert_eq!(Color::black(), Color::new(s(0.0), s(0.0), s(0.0)));
}

#[test]
fn chance_decides_by_the_sample() {
    let red = Color::new(s(1.0), s(0.2), s(0.2));
    let gold = Color::new(s(0.8), s(0.6), s(0.2));
    let sometimes = LambertianProb::new(red, s(0.25));
    assert!(sometimes.absorbs(s(0.1)));
    assert!(!sometimes.absorbs(s(0.25)));
    assert!(!sometimes.absorbs(s(0.9)));
    assert!(Glossy::mirrors(s(0.2), s(0.7)));
    assert!(!Glossy::mirrors(s(0.7), s(0.7)));
    let specular = SpecularMetal::new(red, gold, s(0.4), s(0.0));
    assert_eq!(specular.attenuation(s(0.1), s(0.2)), red);
    assert_eq!(specular.attenuation(s(0.2), s(0.2)), gold);
    assert_eq!(specular.attenuation(s(0.9), s(0.2)), gold);
}
