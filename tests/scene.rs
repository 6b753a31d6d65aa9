use ascii_marcher::fixed::SCALE;
use ascii_marcher::marching::{get_light, get_normal, march, World};
use ascii_marcher::trig::PI;
use ascii_marcher::vectors::Vector3;
use ascii_marcher::world_objects::{Ground, SceneObject, Sphere};

const S: i64 = SCALE;

fn v(x: i64, y: i64, z: i64) -> Vector3 {
    Vector3 { x, y, z }
}

fn sphere(x: i64, y: i64, z: i64, r: i64) -> SceneObject {
    SceneObject::Sphere(Sphere { position: v(x, y, z), radius: r })
}

fn ground() -> SceneObject {
    SceneObject::Ground(Ground {})
}

#[test]
fn nearest_object_wins() {
    let w = World::new(vec![ground(), sphere(0, 2 * S, 0, S)], 0);
    let info = w.get_signed_distance(v(0, S, 0));
    assert_eq!(info.distance, 0);
    assert_eq!(info.object, 1);
    let below = w.get_signed_distance(v(0, -S, 0));
    assert_eq!(below.distance, -S);
    assert_eq!(below.object, 0);
}

#[test]
fn equal_distances_keep_the_first_object() {
    let w = World::new(vec![ground(), sphere(0, 3 * S, 0, S)], 0);
    let info = w.get_signed_distance(v(0, S, 0));
    assert_eq!(info.distance, S);
    assert_eq!(info.object, 0);
    let swapped = World::new(vec![sphere(0, 3 * S, 0, S), ground()], 0);
    assert_eq!(swapped.get_signed_distance(v(0, S, 0)).object, 0);
}

#[test]
fn light_direction_follows_the_angle() {
    let mut w = World::new(vec![ground()], 0);
    assert_eq!(w.get_light_direction(), v(707_107, 707_107, 0));
    w.turn_light(PI / 2);
    assert_eq!(w.light_angle, PI / 2);
    assert_eq!(w.get_light_direction(), v(0, 707_107, 707_107));
}

#[test]
fn march_hits_sphere_ahead() {
    let w = World::new(vec![sphere(0, 0, 10 * S, 2 * S)], 0);
    let info = march(&w, v(0, 0, 0), v(0, 0, S));
    assert_eq!(info.object, Some(0));
    assert!((info.total_distance - 8 * S).abs() < 1_000);
    assert_eq!(info.total_distance, 8 * S);
}

#[test]
fn march_misses_sphere_aside() {
    let w = World::new(vec![sphere(0, 0, 10 * S, 2 * S)], 0);
    let info = march(&w, v(0, 0, 0), v(S, 0, 0));
    assert_eq!(info.object, None);
    assert!(info.total_distance > 1_000 * S);
}

#[test]
fn march_from_inside_hits_at_once() {
    let w = World::new(vec![sphere(0, 0, 10 * S, 2 * S)], 0);
    let info = march(&w, v(0, 0, 10 * S), v(0, 0, S));
    assert_eq!(info.object, Some(0));
    assert_eq!(info.total_distance, -2 * S);
}

#[test]
fn march_down_to_ground() {
    let w = World::new(vec![sphere(0, 0, 10 * S, 2 * S), ground()], 0);
    let info = march(&w, v(0, S, 0), v(0, -S, 0));
    assert_eq!(info.object, Some(1));
    assert_eq!(info.total_distance, S);
}

#[test]
fn ground_normal_points_up() {
    let w = World::new(vec![ground()], 0);
    assert_eq!(get_normal(&w, v(0, 0, 0)), v(0, S, 0));
    assert_eq!(get_normal(&w, v(5 * S, 0, -2 * S)), v(0, S, 0));
}

#[test]
fn sphere_normal_uses_backward_differences() {
    let w = World::new(vec![sphere(0, 0, 0, S)], 0);
    assert_eq!(get_normal(&w, v(S, 0, 0)), v(999_975, -4_899, -4_899));
    assert_eq!(get_normal(&w, v(0, 2 * S, 0)), v(-2_399, 999_994, -2_399));
    for p in [v(S, 0, 0), v(0, 2 * S, 0), v(0, 0, -S)] {
        let l = get_normal(&w, p).length();
        assert!(S - 3 <= l && l <= S + 1);
    }
}

#[test]
fn lit_ground_is_unoccluded() {
    let w = World::new(vec![ground()], 0);
    let light = w.get_light_direction();
    let normal = get_normal(&w, v(0, 0, 0));
    assert_eq!(normal, v(0, S, 0));
    assert_eq!(get_light(&w, v(0, 0, 0)), normal.dot(light));
    assert_eq!(get_light(&w, v(0, 0, 0)), 707_107);
    assert_eq!(get_light(&w, v(5 * S, 0, -2 * S)), 707_107);
}

#[test]
fn sphere_shadows_the_ground() {
    let open = World::new(vec![ground()], 0);
    let shaded = World::new(vec![ground(), sphere(0, 3 * S, 0, S)], 0);
    let p = v(-3 * S, 0, 0);
    let unoccluded = get_light(&open, p);
    assert_eq!(unoccluded, 707_107);
    assert_eq!(get_light(&shaded, p), unoccluded / 10);
    assert_eq!(get_light(&shaded, v(0, 0, 0)), 707_107);
}

#[test]
fn light_on_a_sphere() {
    let w = World::new(vec![sphere(0, 0, 0, S)], 0);
    assert_eq!(get_light(&w, v(0, S, 0)), 703_625);
    assert_eq!(get_light(&w, v(0, -S, 0)), 0);
}
