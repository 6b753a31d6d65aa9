use vstd::prelude::*;
use crate::fixed::{abs, SCALE};
use crate::trig::{cos_fixed, cos_fx, sin_fixed, sin_fx};
use crate::vectors::{fx_mul, lemma_mul_bound, vec3, Vector3};
use crate::world_objects::{SceneObject, WorldObject, SPAN};

verus! {

/// The most steps a march takes.
pub const MAX_STEPS: i64 = 100;

/// A march that has travelled further than this has missed (1000 units).
pub const MAX_DISTANCE: i64 = 1_000_000_000;

/// A surface closer than this counts as hit (0.001 units).
pub const THRESHOLD_DISTANCE: i64 = 1_000;

/// The step of the finite difference that estimates a normal (0.01 units).
pub const NORMAL_STEP: i64 = 10_000;

/// The factor left of the light at a point in shadow (0.1).
pub const SHADOW_FACTOR: i64 = 100_000;

/// The magnitude that no component of a march's origin may exceed.
pub const MARCH_SPAN: i64 = 0x3_8000_0000_0000;

/// The magnitude that no component of a point to be lit may exceed.
pub const VIEW_SPAN: i64 = 0x3_0000_0000_0000;

/// The nearest surface to a point: its signed distance and the index of
/// the object it belongs to.
#[derive(Clone, Copy, Debug, PartialEq, Eq, Structural)]
pub struct DistanceInfo {
    pub distance: i64,
    pub object: usize,
}

/// The outcome of a march: the distance travelled and, on a hit, the index
/// of the object hit.
#[derive(Clone, Copy, Debug, PartialEq, Eq, Structural)]
pub struct MarchInfo {
    pub total_distance: i64,
    pub object: Option<usize>,
}

/// A scene: its objects, in order, and the azimuth of its light in
/// millionths of a radian.
pub struct World {
    pub objects: Vec<SceneObject>,
    pub light_angle: i64,
}

pub open spec fn scene_wf(objs: Seq<SceneObject>) -> bool {
    objs.len() > 0 && forall|i: int| 0 <= i < objs.len() ==> (#[trigger] objs[i]).wf()
}

/// The smallest signed distance from `p` among `objs`, and the index of the
/// first object that has it.
pub open spec fn nearest(objs: Seq<SceneObject>, p: Vector3) -> (int, int)
    decreases objs.len(),
{
    if objs.len() <= 1 {
        (objs[0].sdf(p), 0)
    } else {
        let (d, i) = nearest(objs.drop_last(), p);
        let last = objs.last().sdf(p);
        if last < d {
            (last, objs.len() - 1)
        } else {
            (d, i)
        }
    }
}

pub open spec fn nearest_distance(objs: Seq<SceneObject>, p: Vector3) -> int {
    nearest(objs, p).0
}

/// The point at distance `t` along the ray from `o` in direction `d`.
pub open spec fn ray_point(o: Vector3, d: Vector3, t: int) -> Vector3 {
    o.plus(d.times(t))
}

/// Sphere tracing from step `step`, having travelled `t`: the distance
/// travelled in the end and the index of the object hit, if any.
pub open spec fn march_from(
    objs: Seq<SceneObject>,
    o: Vector3,
    d: Vector3,
    step: int,
    t: int,
) -> (int, Option<int>)
    decreases MAX_STEPS - step,
{
    if step >= MAX_STEPS {
        (t, None)
    } else {
        let (dist, idx) = nearest(objs, ray_point(o, d, t));
        let total = t + dist;
        if total > MAX_DISTANCE {
            (total, None)
        } else if dist < THRESHOLD_DISTANCE {
            (total, Some(idx))
        } else {
            march_from(objs, o, d, step + 1, total)
        }
    }
}

pub open spec fn march_result(objs: Seq<SceneObject>, o: Vector3, d: Vector3) -> (int, Option<int>) {
    march_from(objs, o, d, 0, 0)
}

pub open spec fn index_of(o: Option<usize>) -> Option<int> {
    match o {
        Some(i) => Some(i as int),
        None => None,
    }
}

/// The unit vector towards the light at azimuth `angle`: the direction
/// `(cos(angle), 1, sin(angle))`, normalized.
pub open spec fn light_direction(angle: int) -> Vector3 {
    vec3(cos_fx(angle), SCALE as int, sin_fx(angle)).unit()
}

/// The unnormalized gradient of the scene's distance at `p`, by backward
/// differences along each axis.
pub open spec fn gradient(objs: Seq<SceneObject>, p: Vector3) -> Vector3 {
    let d = nearest_distance(objs, p);
    vec3(
        d - nearest_distance(objs, p.minus(vec3(NORMAL_STEP as int, 0, 0))),
        d - nearest_distance(objs, p.minus(vec3(0, NORMAL_STEP as int, 0))),
        d - nearest_distance(objs, p.minus(vec3(0, 0, NORMAL_STEP as int))),
    )
}

pub open spec fn normal_at(objs: Seq<SceneObject>, p: Vector3) -> Vector3 {
    gradient(objs, p).unit()
}

/// The Lambertian term, kept within `[0, 1]`.
pub open spec fn lambert(n: Vector3, l: Vector3) -> int {
    let c = n.dot_product(l);
    if c < 0 {
        0
    } else if c > SCALE {
        SCALE as int
    } else {
        c
    }
}

/// The start of the shadow ray from `p`: off the surface along its normal.
pub open spec fn shadow_origin(objs: Seq<SceneObject>, p: Vector3) -> Vector3 {
    p.plus(normal_at(objs, p).times(2 * THRESHOLD_DISTANCE))
}

/// Whether the ray from `p` towards the light meets an object.
pub open spec fn in_shadow(objs: Seq<SceneObject>, angle: int, p: Vector3) -> bool {
    march_result(objs, shadow_origin(objs, p), light_direction(angle)).1 is Some
}

/// The light at `p`: the Lambertian term, cut to a tenth in shadow.
pub open spec fn light_at(objs: Seq<SceneObject>, angle: int, p: Vector3) -> int {
    let base = lambert(normal_at(objs, p), light_direction(angle));
    if in_shadow(objs, angle, p) {
        fx_mul(base, SHADOW_FACTOR as int)
    } else {
        base
    }
}

/// `nearest` picks the first object with the smallest distance.
pub proof fn lemma_nearest(objs: Seq<SceneObject>, p: Vector3)
    requires
        objs.len() > 0,
    ensures
        0 <= nearest(objs, p).1 < objs.len(),
        nearest(objs, p).0 == objs[nearest(objs, p).1].sdf(p),
        forall|j: int| 0 <= j < objs.len() ==> nearest(objs, p).0 <= (#[trigger] objs[j]).sdf(p),
        forall|j: int| 0 <= j < nearest(objs, p).1 ==> nearest(objs, p).0 < (#[trigger] objs[j]).sdf(p),
    decreases objs.len(),
{
    if objs.len() > 1 {
        let rest = objs.drop_last();
        lemma_nearest(rest, p);
        assert forall|j: int| 0 <= j < rest.len() implies rest[j] == objs[j] by {}
    }
}

/// At every angle the light direction is within three millionths of unit
/// length.
pub proof fn lemma_light_direction_unit(angle: int)
    ensures
        SCALE - 3 <= light_direction(angle).len() <= SCALE + 1,
        light_direction(angle).within(SCALE as int),
{
    let l = vec3(cos_fx(angle), SCALE as int, sin_fx(angle));
    assert(!l.is_zero());
    crate::vectors::lemma_normalize_idempotent(l);
    crate::vectors::lemma_unit_within(l);
}

/// Over a scene of ground alone the estimated normal points straight up
/// everywhere, so the Lambertian term is the height of the light direction.
pub proof fn lemma_ground_normal(objs: Seq<SceneObject>, p: Vector3, angle: int)
    requires
        objs.len() == 1,
        objs[0] is Ground,
        p.within(VIEW_SPAN as int),
    ensures
        normal_at(objs, p) == vec3(0, SCALE as int, 0),
        lambert(normal_at(objs, p), light_direction(angle)) == light_direction(angle).y,
{
    let e = NORMAL_STEP as int;
    let g = gradient(objs, p);
    assert(g == vec3(0, e, 0));
    assert(g.norm_sq() == e * e);
    crate::fixed::lemma_sqrt_floor(e * e, e);
    let l = vec3(cos_fx(angle), SCALE as int, sin_fx(angle));
    let lu = light_direction(angle);
    crate::vectors::lemma_unit_within(l);
    let n = normal_at(objs, p);
    assert(g.len() == e);
    let m = g.magnified();
    let big = e * SCALE;
    assert(m == vec3(0, big, 0));
    assert(m.norm_sq() == big * big);
    crate::fixed::lemma_sqrt_floor(big * big, big);
    assert(m.len() == big);
    assert(crate::vectors::fx_div(0, big) == 0);
    assert(big * SCALE == 10_000_000_000_000_000);
    assert(10_000_000_000_000_000int / 10_000_000_000int == 1_000_000);
    assert(crate::vectors::fx_div(big, big) == SCALE);
    assert(m.over(big) == vec3(0, SCALE as int, 0));
    assert(n.x == 0 && n.y == SCALE && n.z == 0);
    assert(n.x * lu.x + n.y * lu.y + n.z * lu.z == SCALE * lu.y);
    assert((SCALE * lu.y) / (SCALE as int) == lu.y) by (nonlinear_arith);
}

/// A ray that starts above the ground and does not point down never comes
/// within the threshold of it.
pub proof fn lemma_rising_ray_misses_ground(
    objs: Seq<SceneObject>,
    o: Vector3,
    d: Vector3,
    step: int,
    t: int,
)
    requires
        objs.len() == 1,
        objs[0] is Ground,
        o.within(MARCH_SPAN as int),
        o.y >= THRESHOLD_DISTANCE,
        d.within(SCALE as int),
        d.y >= 0,
        0 <= t <= MAX_DISTANCE,
    ensures
        march_from(objs, o, d, step, t).1 is None,
    decreases MAX_STEPS - step,
{
    if step < MAX_STEPS {
        lemma_ray_bounds(o, d, t);
        lemma_fx_mul_nonneg(d.y as int, t);
        let dist = nearest(objs, ray_point(o, d, t)).0;
        assert(dist >= THRESHOLD_DISTANCE);
        if t + dist <= MAX_DISTANCE {
            lemma_rising_ray_misses_ground(objs, o, d, step + 1, t + dist);
        }
    }
}

proof fn lemma_fx_mul_nonneg(c: int, t: int)
    requires
        c >= 0,
        t >= 0,
    ensures
        fx_mul(c, t) >= 0,
{
    assert(c * t >= 0) by (nonlinear_arith)
        requires
            c >= 0,
            t >= 0,
    ;
}

/// A point on flat ground, in a scene of ground alone, is never in shadow:
/// its light is the height of the light direction.
pub proof fn lemma_lit_ground(objs: Seq<SceneObject>, p: Vector3, angle: int)
    requires
        objs.len() == 1,
        objs[0] is Ground,
        p.within(VIEW_SPAN as int),
        p.y == 0,
    ensures
        !in_shadow(objs, angle, p),
        light_at(objs, angle, p) == light_direction(angle).y,
{
    lemma_ground_normal(objs, p, angle);
    let n = normal_at(objs, p);
    let k = 2 * THRESHOLD_DISTANCE;
    assert((SCALE as int) * k == 2_000_000_000);
    assert(2_000_000_000int / 1_000_000int == 2000);
    assert(crate::fixed::div_trunc(2_000_000_000, SCALE as int) == 2000);
    assert(fx_mul(SCALE as int, k) == k);
    assert(fx_mul(0, 2 * THRESHOLD_DISTANCE) == 0);
    let o = shadow_origin(objs, p);
    assert(o.y == 2 * THRESHOLD_DISTANCE);
    let l = vec3(cos_fx(angle), SCALE as int, sin_fx(angle));
    crate::vectors::lemma_unit_within(l);
    lemma_rising_ray_misses_ground(objs, o, light_direction(angle), 0, 0);
}

impl World {
    pub open spec fn wf(&self) -> bool {
        scene_wf(self.objects@)
    }

    pub fn new(objects: Vec<SceneObject>, light_angle: i64) -> (r: World)
        ensures
            r.objects@ == objects@,
            r.light_angle == light_angle,
    {
        World { objects, light_angle }
    }

    /// Turns the light by `delta` about the vertical.
    pub fn turn_light(&mut self, delta: i64)
        requires
            i64::MIN <= old(self).light_angle + delta <= i64::MAX,
        ensures
            final(self).light_angle == old(self).light_angle + delta,
            final(self).objects@ == old(self).objects@,
    {
        self.light_angle = self.light_angle + delta;
    }

    /// The nearest surface to `point`, and the first object that has it.
    pub fn get_signed_distance(&self, point: Vector3) -> (r: DistanceInfo)
        requires
            self.wf(),
            point.within(SPAN as int),
        ensures
            (r.distance as int, r.object as int) == nearest(self.objects@, point),
            r.object < self.objects@.len(),
            r.distance == self.objects@[r.object as int].sdf(point),
            forall|j: int|
                0 <= j < self.objects@.len() ==> r.distance <= (#[trigger] self.objects@[j]).sdf(
                    point,
                ),
            forall|j: int|
                0 <= j < r.object ==> r.distance < (#[trigger] self.objects@[j]).sdf(point),
            abs(r.distance as int) <= 4 * SPAN,
    {
        let objs = &self.objects;
        assert(objs@[0].wf());
        let mut minimum_distance = objs[0].get_signed_distance(point);
        let mut closest_object: usize = 0;
        let mut i: usize = 1;
        while i < objs.len()
            invariant
                1 <= i <= objs@.len(),
                scene_wf(objs@),
                point.within(SPAN as int),
                (minimum_distance as int, closest_object as int) == nearest(
                    objs@.subrange(0, i as int),
                    point,
                ),
                abs(minimum_distance as int) <= 4 * SPAN,
            decreases objs@.len() - i,
        {
            assert(objs@[i as int].wf());
            let distance = objs[i].get_signed_distance(point);
            assert(objs@.subrange(0, i + 1).drop_last() =~= objs@.subrange(0, i as int));
            if distance < minimum_distance {
                minimum_distance = distance;
                closest_object = i;
            }
            i = i + 1;
        }
        assert(objs@.subrange(0, objs@.len() as int) =~= objs@);
        proof {
            lemma_nearest(objs@, point);
        }
        DistanceInfo { distance: minimum_distance, object: closest_object }
    }

    /// The unit vector towards the light.
    pub fn get_light_direction(&self) -> (r: Vector3)
        ensures
            r == light_direction(self.light_angle as int),
            r.within(SCALE as int),
    {
        let v = Vector3 {
            x: cos_fixed(self.light_angle),
            y: SCALE,
            z: sin_fixed(self.light_angle),
        };
        v.normalize()
    }
}

/// Sphere-traces the ray from `origin` along `direction`, which is meant to
/// be of unit length.
pub fn march(world: &World, origin: Vector3, direction: Vector3) -> (r: MarchInfo)
    requires
        world.wf(),
        origin.within(MARCH_SPAN as int),
        direction.within(SCALE as int),
    ensures
        (r.total_distance as int, index_of(r.object)) == march_result(
            world.objects@,
            origin,
            direction,
        ),
        r.object matches Some(i) ==> i < world.objects@.len(),
{
    let ghost objs = world.objects@;
    let mut total_distance: i64 = 0;
    let mut step: i64 = 0;
    while step < MAX_STEPS
        invariant
            world.wf(),
            objs == world.objects@,
            origin.within(MARCH_SPAN as int),
            direction.within(SCALE as int),
            0 <= step <= MAX_STEPS,
            0 <= total_distance <= MAX_DISTANCE,
            march_result(objs, origin, direction) == march_from(
                objs,
                origin,
                direction,
                step as int,
                total_distance as int,
            ),
        decreases MAX_STEPS - step,
    {
        proof {
            lemma_ray_bounds(origin, direction, total_distance as int);
        }
        let point = origin.add(direction.multiply(total_distance));
        let info = world.get_signed_distance(point);
        total_distance = total_distance + info.distance;
        if total_distance > MAX_DISTANCE {
            return MarchInfo { total_distance, object: None };
        }
        if info.distance < THRESHOLD_DISTANCE {
            return MarchInfo { total_distance, object: Some(info.object) };
        }
        step = step + 1;
    }
    MarchInfo { total_distance, object: None }
}

/// The surface normal at `point`, estimated from the distance field.
#[verifier::rlimit(30)]
pub fn get_normal(world: &World, point: Vector3) -> (r: Vector3)
    requires
        world.wf(),
        point.within(VIEW_SPAN as int),
    ensures
        r == normal_at(world.objects@, point),
        r.within(SCALE as int),
{
    let distance = world.get_signed_distance(point).distance;
    let e = NORMAL_STEP;
    let dx = world.get_signed_distance(point.subtract(Vector3 { x: e, y: 0, z: 0 })).distance;
    let dy = world.get_signed_distance(point.subtract(Vector3 { x: 0, y: e, z: 0 })).distance;
    let dz = world.get_signed_distance(point.subtract(Vector3 { x: 0, y: 0, z: e })).distance;
    let normal = Vector3 { x: distance - dx, y: distance - dy, z: distance - dz };
    normal.normalize()
}

/// The light at `point` of a surface: the Lambertian term of its normal and
/// the light direction, cut to a tenth where something stands between the
/// point and the light.
pub fn get_light(world: &World, point: Vector3) -> (r: i64)
    requires
        world.wf(),
        point.within(VIEW_SPAN as int),
    ensures
        r == light_at(world.objects@, world.light_angle as int, point),
        0 <= r <= SCALE,
        in_shadow(world.objects@, world.light_angle as int, point) ==> r == lambert(
            normal_at(world.objects@, point),
            light_direction(world.light_angle as int),
        ) / 10,
{
    let light = world.get_light_direction();
    let normal = get_normal(world, point);
    proof {
        lemma_fx_mul_unit(normal.x as int, 2 * THRESHOLD_DISTANCE);
        lemma_fx_mul_unit(normal.y as int, 2 * THRESHOLD_DISTANCE);
        lemma_fx_mul_unit(normal.z as int, 2 * THRESHOLD_DISTANCE);
    }
    let start = point.add(normal.multiply(THRESHOLD_DISTANCE * 2));
    let march_info = march(world, start, light);
    proof {
        lemma_unit_dot(normal, light);
    }
    let cosine = normal.dot(light);
    let mut dif: i64 = if cosine < 0 {
        0
    } else if cosine > SCALE {
        SCALE
    } else {
        cosine
    };
    if march_info.object.is_some() {
        dif = dif * SHADOW_FACTOR / SCALE;
    }
    dif
}

/// The dot product of two vectors within the unit cube stays within three.
proof fn lemma_unit_dot(a: Vector3, b: Vector3)
    requires
        a.within(SCALE as int),
        b.within(SCALE as int),
    ensures
        abs(a.dot_product(b)) <= 3 * SCALE,
{
    let s = SCALE as int;
    lemma_mul_bound(a.x as int, b.x as int, s);
    lemma_mul_bound(a.y as int, b.y as int, s);
    lemma_mul_bound(a.z as int, b.z as int, s);
    let sum = a.x * b.x + a.y * b.y + a.z * b.z;
    assert(abs(sum) / s <= 3 * s) by (nonlinear_arith)
        requires
            abs(sum) <= 3 * (s * s),
            s > 0,
    ;
}

/// A point of a ray that has not gone past `MAX_DISTANCE` stays in range.
proof fn lemma_ray_bounds(o: Vector3, d: Vector3, t: int)
    requires
        o.within(MARCH_SPAN as int),
        d.within(SCALE as int),
        0 <= t <= MAX_DISTANCE,
    ensures
        abs(fx_mul(d.x as int, t)) <= MAX_DISTANCE,
        abs(fx_mul(d.y as int, t)) <= MAX_DISTANCE,
        abs(fx_mul(d.z as int, t)) <= MAX_DISTANCE,
        d.times(t).within(MAX_DISTANCE as int),
        ray_point(o, d, t).within(SPAN as int),
{
    lemma_fx_mul_unit(d.x as int, t);
    lemma_fx_mul_unit(d.y as int, t);
    lemma_fx_mul_unit(d.z as int, t);
}

/// Scaling by a fixed-point factor of magnitude at most one does not grow.
proof fn lemma_fx_mul_unit(c: int, t: int)
    requires
        abs(c) <= SCALE,
        0 <= t,
    ensures
        abs(fx_mul(c, t)) <= t,
{
    assert(abs(c * t) <= SCALE * t) by (nonlinear_arith)
        requires
            abs(c) <= SCALE,
            0 <= t,
    ;
    assert(abs(c * t) / (SCALE as int) <= t) by (nonlinear_arith)
        requires
            abs(c * t) <= SCALE * t,
            0 <= t,
    ;
}

} // verus!
