use vstd::prelude::*;
use crate::fixed::{abs, is_floor_sqrt};
use crate::vectors::{max_int, min_int, Vector3};

verus! {

/// The magnitude that no coordinate of a scene object, and no component of a
/// point at which a distance is asked, may exceed.
pub const SPAN: i64 = 0x4_0000_0000_0000;

/// A body whose signed distance can be asked at any point in space.
pub trait WorldObject {
    /// The body's parameters lie within the bounds the distance functions
    /// accept.
    spec fn wf(&self) -> bool;

    /// The signed distance from `p` to the surface: negative inside,
    /// zero on it, positive outside.
    spec fn sdf(&self, p: Vector3) -> int;

    /// The point the body is anchored at.
    spec fn anchor(&self) -> Vector3;

    fn get_signed_distance(&self, point: Vector3) -> (r: i64)
        requires
            self.wf(),
            point.within(SPAN as int),
        ensures
            r == self.sdf(point),
            abs(r as int) <= 4 * SPAN,
    ;

    fn get_position(&self) -> (r: Vector3)
        ensures
            r == self.anchor(),
    ;
}

/// A ball around `position`.
#[derive(Clone, Copy, Debug, PartialEq, Eq, Structural)]
pub struct Sphere {
    pub position: Vector3,
    pub radius: i64,
}

/// An axis-aligned box around `position`, reaching `size` along each axis
/// on either side.
#[derive(Clone, Copy, Debug, PartialEq, Eq, Structural)]
pub struct Cube {
    pub position: Vector3,
    pub size: Vector3,
}

/// The infinite horizontal plane `y = 0`.
#[derive(Clone, Copy, Debug, PartialEq, Eq, Structural)]
pub struct Ground {}

pub open spec fn zero() -> Vector3 {
    Vector3 { x: 0, y: 0, z: 0 }
}

/// The exact box distance: the length of the part of `o` outside the box,
/// plus the (non-positive) depth below the nearest face.
pub open spec fn box_distance(o: Vector3) -> int {
    o.at_least(0).len() + max_int(
        max_int(min_int(o.x as int, 0), min_int(o.y as int, 0)),
        min_int(o.z as int, 0),
    )
}

/// A vector whose components are bounded by `b` is no longer than `2 * b`.
proof fn lemma_len_bound(v: Vector3, b: int, l: int)
    requires
        v.within(b),
        b >= 0,
        is_floor_sqrt(v.norm_sq(), l),
    ensures
        l <= 2 * b,
{
    let (x, y, z) = (v.x as int, v.y as int, v.z as int);
    assert(x * x <= b * b && y * y <= b * b && z * z <= b * b) by (nonlinear_arith)
        requires
            abs(x) <= b,
            abs(y) <= b,
            abs(z) <= b,
    ;
    assert(l <= 2 * b) by (nonlinear_arith)
        requires
            l * l <= x * x + y * y + z * z,
            x * x + y * y + z * z <= 3 * (b * b),
            l >= 0,
            b >= 0,
    {
        if l > 2 * b {
            assert(l * l > (2 * b) * (2 * b));
        }
    }
}

impl WorldObject for Sphere {
    open spec fn wf(&self) -> bool {
        self.position.within(SPAN as int) && 0 <= self.radius <= SPAN
    }

    open spec fn sdf(&self, p: Vector3) -> int {
        self.position.dist(p) - self.radius
    }

    open spec fn anchor(&self) -> Vector3 {
        self.position
    }

    fn get_signed_distance(&self, point: Vector3) -> (r: i64) {
        let distance = self.position.distance(point);
        proof {
            let d = self.position.minus(point);
            assert(d.within(2 * SPAN));
            lemma_len_bound(d, 2 * SPAN, distance as int);
        }
        distance - self.radius
    }

    fn get_position(&self) -> (r: Vector3) {
        self.position
    }
}

impl WorldObject for Cube {
    open spec fn wf(&self) -> bool {
        &&& self.position.within(SPAN as int)
        &&& 0 <= self.size.x <= SPAN
        &&& 0 <= self.size.y <= SPAN
        &&& 0 <= self.size.z <= SPAN
    }

    open spec fn sdf(&self, p: Vector3) -> int {
        box_distance(p.minus(self.position).magnitudes().minus(self.size))
    }

    open spec fn anchor(&self) -> Vector3 {
        self.position
    }

    fn get_signed_distance(&self, point: Vector3) -> (r: i64) {
        let o = point.subtract(self.position).abs().subtract(self.size);
        let outside = o.max(0);
        assert(outside.within(2 * SPAN));
        let ud = outside.length();
        proof {
            lemma_len_bound(outside, 2 * SPAN, ud as int);
        }
        let nx: i64 = if o.x < 0 { o.x } else { 0 };
        let ny: i64 = if o.y < 0 { o.y } else { 0 };
        let nz: i64 = if o.z < 0 { o.z } else { 0 };
        let nxy: i64 = if nx >= ny { nx } else { ny };
        let n: i64 = if nxy >= nz { nxy } else { nz };
        ud + n
    }

    fn get_position(&self) -> (r: Vector3) {
        self.position
    }
}

impl WorldObject for Ground {
    open spec fn wf(&self) -> bool {
        true
    }

    open spec fn sdf(&self, p: Vector3) -> int {
        p.y as int
    }

    open spec fn anchor(&self) -> Vector3 {
        zero()
    }

    fn get_signed_distance(&self, point: Vector3) -> (r: i64) {
        point.y
    }

    fn get_position(&self) -> (r: Vector3) {
        Vector3 { x: 0, y: 0, z: 0 }
    }
}

/// A sphere about the origin is at signed distance `|p| - r` from `p`,
/// and at distance zero exactly from the points at length `r`.
pub proof fn lemma_sphere_at_origin(s: Sphere, p: Vector3)
    requires
        s.wf(),
        s.position == zero(),
        p.within(SPAN as int),
    ensures
        s.sdf(p) == p.len() - s.radius,
        s.sdf(p) == 0 <==> p.len() == s.radius,
{
    let d = s.position.minus(p);
    assert(d.x == -p.x && d.y == -p.y && d.z == -p.z);
    assert(d.x * d.x == p.x * p.x && d.y * d.y == p.y * p.y && d.z * d.z == p.z * p.z)
        by (nonlinear_arith)
        requires
            d.x == -p.x,
            d.y == -p.y,
            d.z == -p.z,
    ;
    assert(d.norm_sq() == p.norm_sq());
}

/// The ground's signed distance is the height of the point, whatever its
/// other coordinates.
pub proof fn lemma_ground_height(g: Ground, p: Vector3, q: Vector3)
    requires
        p.y == q.y,
    ensures
        g.sdf(p) == p.y,
        g.sdf(p) == g.sdf(q),
{
}

/// One of the bodies a scene can hold.
#[derive(Clone, Copy, Debug, PartialEq, Eq, Structural)]
pub enum SceneObject {
    Sphere(Sphere),
    Cube(Cube),
    Ground(Ground),
}

impl WorldObject for SceneObject {
    open spec fn wf(&self) -> bool {
        match self {
            SceneObject::Sphere(s) => s.wf(),
            SceneObject::Cube(c) => c.wf(),
            SceneObject::Ground(g) => g.wf(),
        }
    }

    open spec fn sdf(&self, p: Vector3) -> int {
        match self {
            SceneObject::Sphere(s) => s.sdf(p),
            SceneObject::Cube(c) => c.sdf(p),
            SceneObject::Ground(g) => g.sdf(p),
        }
    }

    open spec fn anchor(&self) -> Vector3 {
        match self {
            SceneObject::Sphere(s) => s.anchor(),
            SceneObject::Cube(c) => c.anchor(),
            SceneObject::Ground(g) => g.anchor(),
        }
    }

    fn get_signed_distance(&self, point: Vector3) -> (r: i64) {
        match self {
            SceneObject::Sphere(s) => s.get_signed_distance(point),
            SceneObject::Cube(c) => c.get_signed_distance(point),
            SceneObject::Ground(g) => g.get_signed_distance(point),
        }
    }

    fn get_position(&self) -> (r: Vector3) {
        match self {
            SceneObject::Sphere(s) => s.get_position(),
            SceneObject::Cube(c) => c.get_position(),
            SceneObject::Ground(g) => g.get_position(),
        }
    }
}

} // verus!
