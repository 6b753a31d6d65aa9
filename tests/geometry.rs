use ascii_marcher::fixed::{floor_sqrt, SCALE};
use ascii_marcher::trig::{cos_fixed, sin_fixed, PI, TWO_PI};
use ascii_marcher::vectors::Vector3;
use ascii_marcher::world_objects::{Cube, Ground, SceneObject, Sphere, WorldObject};

const S: i64 = SCALE;

fn v(x: i64, y: i64, z: i64) -> Vector3 {
    Vector3 { x, y, z }
}

#[test]
fn floor_sqrt_rounds_down() {
    assert_eq!(floor_sqrt(0), 0);
    assert_eq!(floor_sqrt(15), 3);
    assert_eq!(floor_sqrt(16), 4);
    assert_eq!(floor_sqrt(2_000_000_000_000), 1_414_213);
    assert_eq!(floor_sqrt(u128::MAX), u64::MAX);
}

#[test]
fn add_and_subtract_are_componentwise() {
    let a = v(1, -2, 3);
    let b = v(10, 20, -30);
    assert_eq!(a.add(b), v(11, 18, -27));
    assert_eq!(a.subtract(b), v(-9, -22, 33));
}

#[test]
fn multiply_and_divide_are_fixed_point() {
    assert_eq!(v(2 * S, -3 * S, S / 2).multiply(S / 2), v(S, -3 * S / 2, S / 4));
    assert_eq!(v(7, -7, 0).multiply(S / 2), v(3, -3, 0));
    assert_eq!(v(3 * S, -S, 0).divide(2 * S), v(3 * S / 2, -S / 2, 0));
    assert_eq!(v(1, -1, 0).divide(3 * S), v(0, 0, 0));
}

#[test]
fn abs_and_max_are_componentwise() {
    assert_eq!(v(-4, 5, -6).abs(), v(4, 5, 6));
    assert_eq!(v(-4, 5, 0).max(1), v(1, 5, 1));
}

#[test]
fn dot_and_cross_products() {
    assert_eq!(v(S, 2 * S, 3 * S).dot(v(4 * S, -5 * S, 6 * S)), 12 * S);
    assert_eq!(v(S, 0, 0).cross(v(0, S, 0)), v(0, 0, S));
    assert_eq!(v(0, S, 0).cross(v(0, 0, S)), v(S, 0, 0));
    assert_eq!(v(0, 0, S).cross(v(S, 0, 0)), v(0, S, 0));
    assert_eq!(v(2 * S, 3 * S, 0).cross(v(0, 0, S)), v(3 * S, -2 * S, 0));
}

#[test]
fn length_and_distance() {
    assert_eq!(v(3 * S, 4 * S, 0).length(), 5 * S);
    assert_eq!(v(S, S, S).length(), 1_732_050);
    assert_eq!(v(S, 2 * S, 3 * S).distance(v(4 * S, 6 * S, 3 * S)), 5 * S);
}

#[test]
fn normalize_scales_to_unit_length() {
    assert_eq!(v(3 * S, 4 * S, 0).normalize(), v(600_000, 800_000, 0));
    assert_eq!(v(5, 0, 0).normalize(), v(S, 0, 0));
    assert_eq!(v(S, S, 0).normalize(), v(707_107, 707_107, 0));
}

#[test]
fn normalize_short_vectors() {
    assert_eq!(v(1, 1, 0).normalize(), v(707_107, 707_107, 0));
    assert_eq!(v(1, 1, 0).normalize().length(), S);
    assert_eq!(v(1, 2, 3).normalize(), v(267_261, 534_522, 801_783));
    assert_eq!(v(7, 0, -1).normalize(), v(989_949, 0, -141_421));
    assert_eq!(v(0, 10_000, 0).normalize(), v(0, S, 0));
}

#[test]
fn normalize_leaves_zero_vector() {
    assert_eq!(v(0, 0, 0).normalize(), v(0, 0, 0));
}

#[test]
fn normalize_twice_stays_put() {
    for w in [
        v(3 * S, 4 * S, 0),
        v(S, S, S),
        v(-2 * S, 7 * S, 5 * S),
        v(123_456_789, -9, 4 * S),
        v(1, 1, 0),
        v(1, 2, 3),
        v(-3, 0, 499_999),
        v(400_000, 300_000, 1),
    ] {
        let once = w.normalize();
        let twice = once.normalize();
        assert!((twice.x - once.x).abs() <= 3);
        assert!((twice.y - once.y).abs() <= 3);
        assert!((twice.z - once.z).abs() <= 3);
        let l = once.length();
        assert!(S - 3 <= l && l <= S + 1);
    }
    assert_eq!(v(S, S, S).normalize().normalize(), v(577_350, 577_350, 577_350));
    assert_eq!(v(S, S, S).normalize().length(), 999_999);
}

#[test]
fn cosine_and_sine() {
    assert_eq!(cos_fixed(0), S);
    assert_eq!(sin_fixed(0), 0);
    assert_eq!(cos_fixed(PI), -S);
    assert_eq!(cos_fixed(PI / 2), 0);
    assert_eq!(sin_fixed(PI / 2), S);
    assert_eq!(sin_fixed(-PI / 2), -S);
    assert_eq!(cos_fixed(785_398), 707_107);
    assert_eq!(cos_fixed(TWO_PI), S);
    assert_eq!(cos_fixed(10 * S), -839_069);
    assert_eq!(sin_fixed(10 * S), -544_024);
}

#[test]
fn sphere_distance_is_length_minus_radius() {
    let s = Sphere { position: v(0, 0, 0), radius: 2 * S };
    assert_eq!(s.get_signed_distance(v(3 * S, 4 * S, 0)), 3 * S);
    assert_eq!(s.get_signed_distance(v(2 * S, 0, 0)), 0);
    assert_eq!(s.get_signed_distance(v(0, -2 * S, 0)), 0);
    assert_eq!(s.get_signed_distance(v(0, 0, 0)), -2 * S);
    assert_eq!(s.get_signed_distance(v(S, S, S)), 1_732_050 - 2 * S);
}

#[test]
fn sphere_away_from_origin() {
    let s = Sphere { position: v(0, 5 * S, 15 * S), radius: 3 * S };
    assert_eq!(s.get_signed_distance(v(0, 5 * S, 0)), 12 * S);
    assert_eq!(s.get_position(), v(0, 5 * S, 15 * S));
}

#[test]
fn ground_distance_is_height() {
    let g = Ground {};
    assert_eq!(g.get_signed_distance(v(5 * S, -3 * S, 7 * S)), -3 * S);
    assert_eq!(g.get_signed_distance(v(-100 * S, 2 * S, 0)), 2 * S);
    assert_eq!(g.get_signed_distance(v(100 * S, 2 * S, 9 * S)), 2 * S);
    assert_eq!(g.get_position(), v(0, 0, 0));
}

#[test]
fn cube_distance_sign() {
    let c = Cube { position: v(0, 0, 0), size: v(S, S, S) };
    assert!(c.get_signed_distance(v(0, 0, 0)) < 0);
    assert_eq!(c.get_signed_distance(v(0, 0, 0)), -S);
    assert!(c.get_signed_distance(v(2 * S, 0, 0)) > 0);
    assert_eq!(c.get_signed_distance(v(2 * S, 0, 0)), S);
    assert!(c.get_signed_distance(v(S, 0, 0)).abs() < 1_000);
}

#[test]
fn cube_distance_at_edges_and_corners() {
    let c = Cube { position: v(0, 0, 0), size: v(S, S, S) };
    assert_eq!(c.get_signed_distance(v(2 * S, 2 * S, 0)), 1_414_213);
    assert_eq!(c.get_signed_distance(v(3 * S, 3 * S, 3 * S)), 3_464_101);
    assert_eq!(c.get_signed_distance(v(S / 2, 0, 0)), -S / 2);
    let moved = Cube { position: v(0, 15 * S, 15 * S), size: v(5 * S, 5 * S, 5 * S) };
    assert_eq!(moved.get_signed_distance(v(0, 15 * S, 0)), 10 * S);
    assert_eq!(moved.get_position(), v(0, 15 * S, 15 * S));
}

#[test]
fn scene_object_dispatches() {
    let s = SceneObject::Sphere(Sphere { position: v(0, 0, 0), radius: S });
    let c = SceneObject::Cube(Cube { position: v(0, 0, 0), size: v(S, S, S) });
    let g = SceneObject::Ground(Ground {});
    let p = v(0, 3 * S, 0);
    assert_eq!(s.get_signed_distance(p), 2 * S);
    assert_eq!(c.get_signed_distance(p), 2 * S);
    assert_eq!(g.get_signed_distance(p), 3 * S);
    assert_eq!(g.get_position(), v(0, 0, 0));
}
