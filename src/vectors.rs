use vstd::prelude::*;
use crate::fixed::{abs, div_toward_zero, div_trunc, floor_sqrt, is_floor_sqrt, sqrt_floor, SCALE};

verus! {

/// The magnitude that no component of a vector handed to the vector
/// operations may exceed.
pub const LIMIT: i64 = 0x1000_0000_0000_0000;

/// Below this length (half a unit) a vector is magnified before it is
/// normalized.
pub const SHORT: i64 = 500_000;

/// A point or direction in space, each component in millionths of a unit.
#[derive(Clone, Copy, Debug, PartialEq, Eq, Structural)]
pub struct Vector3 {
    pub x: i64,
    pub y: i64,
    pub z: i64,
}

pub open spec fn vec3(x: int, y: int, z: int) -> Vector3 {
    Vector3 { x: x as i64, y: y as i64, z: z as i64 }
}

/// `a` and `b` multiplied as fixed-point numbers.
pub open spec fn fx_mul(a: int, b: int) -> int {
    div_trunc(a * b, SCALE as int)
}

/// `a` divided by `b` as fixed-point numbers.
pub open spec fn fx_div(a: int, b: int) -> int {
    div_trunc(a * SCALE, b)
}

pub open spec fn max_int(a: int, b: int) -> int {
    if a >= b {
        a
    } else {
        b
    }
}

pub open spec fn min_int(a: int, b: int) -> int {
    if a <= b {
        a
    } else {
        b
    }
}

impl Vector3 {
    /// Every component lies in `[-b, b]`.
    pub open spec fn within(self, b: int) -> bool {
        abs(self.x as int) <= b && abs(self.y as int) <= b && abs(self.z as int) <= b
    }

    pub open spec fn plus(self, o: Vector3) -> Vector3 {
        vec3(self.x + o.x, self.y + o.y, self.z + o.z)
    }

    pub open spec fn minus(self, o: Vector3) -> Vector3 {
        vec3(self.x - o.x, self.y - o.y, self.z - o.z)
    }

    pub open spec fn times(self, s: int) -> Vector3 {
        vec3(fx_mul(self.x as int, s), fx_mul(self.y as int, s), fx_mul(self.z as int, s))
    }

    pub open spec fn over(self, s: int) -> Vector3 {
        vec3(fx_div(self.x as int, s), fx_div(self.y as int, s), fx_div(self.z as int, s))
    }

    pub open spec fn magnitudes(self) -> Vector3 {
        vec3(abs(self.x as int), abs(self.y as int), abs(self.z as int))
    }

    pub open spec fn at_least(self, s: int) -> Vector3 {
        vec3(max_int(self.x as int, s), max_int(self.y as int, s), max_int(self.z as int, s))
    }

    pub open spec fn norm_sq(self) -> int {
        self.x * self.x + self.y * self.y + self.z * self.z
    }

    /// Euclidean length, rounded down.
    pub open spec fn len(self) -> int {
        sqrt_floor(self.norm_sq())
    }

    pub open spec fn dist(self, o: Vector3) -> int {
        self.minus(o).len()
    }

    /// Every component multiplied by `SCALE`: the same direction, with six
    /// more digits of length.
    pub open spec fn magnified(self) -> Vector3 {
        vec3(self.x * SCALE, self.y * SCALE, self.z * SCALE)
    }

    /// The vector divided by its own rounded length; the zero vector stays
    /// zero.
    pub open spec fn over_length(self) -> Vector3 {
        if self.len() == 0 {
            self
        } else {
            self.over(self.len())
        }
    }

    /// The vector scaled to unit length. One shorter than `SHORT` is
    /// magnified first, so that the rounding of its length costs no
    /// precision. The zero vector, which has no direction, stays zero.
    pub open spec fn unit(self) -> Vector3 {
        if self.len() < SHORT {
            self.magnified().over_length()
        } else {
            self.over_length()
        }
    }

    pub open spec fn is_zero(self) -> bool {
        self.x == 0 && self.y == 0 && self.z == 0
    }

    pub open spec fn dot_product(self, o: Vector3) -> int {
        div_trunc(self.x * o.x + self.y * o.y + self.z * o.z, SCALE as int)
    }

    pub open spec fn cross_product(self, o: Vector3) -> Vector3 {
        vec3(
            div_trunc(self.y * o.z - self.z * o.y, SCALE as int),
            -div_trunc(self.x * o.z - self.z * o.x, SCALE as int),
            div_trunc(self.x * o.y - self.y * o.x, SCALE as int),
        )
    }

    pub fn distance(self, other: Vector3) -> (r: i64)
        requires
            self.within(LIMIT as int),
            other.within(LIMIT as int),
        ensures
            r == self.dist(other),
            crate::fixed::is_floor_sqrt(self.minus(other).norm_sq(), r as int),
            r >= 0,
    {
        let difference = self.subtract(other);
        difference.length()
    }

    pub fn add(self, other: Vector3) -> (r: Vector3)
        requires
            self.within(LIMIT as int),
            other.within(LIMIT as int),
        ensures
            r == self.plus(other),
            r.x == self.x + other.x,
            r.y == self.y + other.y,
            r.z == self.z + other.z,
    {
        Vector3 { x: self.x + other.x, y: self.y + other.y, z: self.z + other.z }
    }

    pub fn subtract(self, other: Vector3) -> (r: Vector3)
        requires
            self.within(LIMIT as int),
            other.within(LIMIT as int),
        ensures
            r == self.minus(other),
            r.x == self.x - other.x,
            r.y == self.y - other.y,
            r.z == self.z - other.z,
    {
        Vector3 { x: self.x - other.x, y: self.y - other.y, z: self.z - other.z }
    }

    pub fn multiply(self, scale: i64) -> (r: Vector3)
        requires
            abs(fx_mul(self.x as int, scale as int)) <= LIMIT,
            abs(fx_mul(self.y as int, scale as int)) <= LIMIT,
            abs(fx_mul(self.z as int, scale as int)) <= LIMIT,
        ensures
            r == self.times(scale as int),
    {
        Vector3 {
            x: mul_fixed(self.x, scale),
            y: mul_fixed(self.y, scale),
            z: mul_fixed(self.z, scale),
        }
    }

    pub fn divide(self, scale: i64) -> (r: Vector3)
        requires
            scale != 0,
            abs(fx_div(self.x as int, scale as int)) <= LIMIT,
            abs(fx_div(self.y as int, scale as int)) <= LIMIT,
            abs(fx_div(self.z as int, scale as int)) <= LIMIT,
        ensures
            r == self.over(scale as int),
    {
        Vector3 {
            x: div_fixed(self.x, scale),
            y: div_fixed(self.y, scale),
            z: div_fixed(self.z, scale),
        }
    }

    pub fn abs(self) -> (r: Vector3)
        requires
            self.within(LIMIT as int),
        ensures
            r == self.magnitudes(),
            r.within(LIMIT as int),
    {
        Vector3 {
            x: if self.x < 0 { -self.x } else { self.x },
            y: if self.y < 0 { -self.y } else { self.y },
            z: if self.z < 0 { -self.z } else { self.z },
        }
    }

    /// Component-wise maximum against `x`.
    pub fn max(self, x: i64) -> (r: Vector3)
        ensures
            r == self.at_least(x as int),
    {
        Vector3 {
            x: if self.x >= x { self.x } else { x },
            y: if self.y >= x { self.y } else { x },
            z: if self.z >= x { self.z } else { x },
        }
    }

    /// The vector scaled to unit length (`SCALE`); the zero vector is
    /// returned unchanged, since it has no direction. Any other vector comes
    /// out within three millionths of unit length, and normalizing it again
    /// moves no component by more than three millionths.
    pub fn normalize(self) -> (r: Vector3)
        requires
            self.within(LIMIT as int),
        ensures
            r == self.unit(),
            r.within(SCALE as int),
            self.is_zero() ==> r.is_zero(),
            !self.is_zero() ==> SCALE - 3 <= r.len() <= SCALE + 1,
            !self.is_zero() ==> abs(r.unit().x - r.x) <= 3,
            !self.is_zero() ==> abs(r.unit().y - r.y) <= 3,
            !self.is_zero() ==> abs(r.unit().z - r.z) <= 3,
    {
        proof {
            lemma_unit_within(self);
            if !self.is_zero() {
                lemma_normalize_idempotent(self);
            }
        }
        let length = self.length();
        if length < SHORT {
            proof {
                lemma_norm_sq_bounded(self);
                lemma_short_components(self, length as int);
            }
            let big = Vector3 { x: self.x * SCALE, y: self.y * SCALE, z: self.z * SCALE };
            big.divide_by_length()
        } else {
            self.divide_by_length()
        }
    }

    /// The vector divided by its own rounded length.
    fn divide_by_length(self) -> (r: Vector3)
        requires
            self.within(LIMIT as int),
        ensures
            r == self.over_length(),
    {
        let length = self.length();
        if length == 0 {
            proof {
                lemma_zero_length(self);
            }
            self
        } else {
            proof {
                lemma_norm_sq_bounded(self);
                lemma_component_below_length(self.x as int, self.norm_sq(), length as int);
                lemma_component_below_length(self.y as int, self.norm_sq(), length as int);
                lemma_component_below_length(self.z as int, self.norm_sq(), length as int);
            }
            self.divide(length)
        }
    }

    pub fn cross(self, other: Vector3) -> (r: Vector3)
        requires
            self.within(LIMIT as int),
            other.within(LIMIT as int),
            abs(div_trunc(self.y * other.z - self.z * other.y, SCALE as int)) <= LIMIT,
            abs(div_trunc(self.x * other.z - self.z * other.x, SCALE as int)) <= LIMIT,
            abs(div_trunc(self.x * other.y - self.y * other.x, SCALE as int)) <= LIMIT,
        ensures
            r == self.cross_product(other),
    {
        proof {
            lemma_products_bounded(self, other);
        }
        let x = (self.y as i128) * (other.z as i128) - (self.z as i128) * (other.y as i128);
        let y = (self.x as i128) * (other.z as i128) - (self.z as i128) * (other.x as i128);
        let z = (self.x as i128) * (other.y as i128) - (self.y as i128) * (other.x as i128);
        let s = SCALE as i128;
        Vector3 {
            x: div_toward_zero(x, s) as i64,
            y: -(div_toward_zero(y, s) as i64),
            z: div_toward_zero(z, s) as i64,
        }
    }

    pub fn dot(self, other: Vector3) -> (r: i64)
        requires
            self.within(LIMIT as int),
            other.within(LIMIT as int),
            abs(self.dot_product(other)) <= LIMIT,
        ensures
            r == self.dot_product(other),
    {
        proof {
            lemma_products_bounded(self, other);
        }
        let sum = (self.x as i128) * (other.x as i128) + (self.y as i128) * (other.y as i128)
            + (self.z as i128) * (other.z as i128);
        div_toward_zero(sum, SCALE as i128) as i64
    }

    /// Euclidean length, rounded down.
    pub fn length(self) -> (r: i64)
        requires
            self.within(2 * LIMIT),
        ensures
            r == self.len(),
            crate::fixed::is_floor_sqrt(self.norm_sq(), r as int),
            0 <= r <= 4 * LIMIT,
    {
        proof {
            lemma_norm_sq_bounded(self);
        }
        let x = self.x as i128;
        let y = self.y as i128;
        let z = self.z as i128;
        let sum = (x * x + y * y + z * z) as u128;
        let r = floor_sqrt(sum);
        proof {
            assert(r <= 0x4000_0000_0000_0000) by (nonlinear_arith)
                requires
                    r * r <= 0x1000_0000_0000_0000_0000_0000_0000_0000,
                    r >= 0,
            {
                if r > 0x4000_0000_0000_0000 {
                    assert(r * r > 0x4000_0000_0000_0000 * r);
                }
            }
        }
        r as i64
    }
}

pub proof fn lemma_mul_bound(u: int, v: int, b: int)
    requires
        abs(u) <= b,
        abs(v) <= b,
    ensures
        abs(u * v) <= b * b,
{
    assert(abs(u * v) == abs(u) * abs(v)) by (nonlinear_arith);
    assert(abs(u) * abs(v) <= b * b) by (nonlinear_arith)
        requires
            0 <= abs(u) <= b,
            0 <= abs(v) <= b,
    ;
}

proof fn lemma_products_bounded(a: Vector3, b: Vector3)
    requires
        a.within(LIMIT as int),
        b.within(LIMIT as int),
    ensures
        abs(a.x * b.x) <= LIMIT * LIMIT,
        abs(a.x * b.y) <= LIMIT * LIMIT,
        abs(a.x * b.z) <= LIMIT * LIMIT,
        abs(a.y * b.x) <= LIMIT * LIMIT,
        abs(a.y * b.y) <= LIMIT * LIMIT,
        abs(a.y * b.z) <= LIMIT * LIMIT,
        abs(a.z * b.x) <= LIMIT * LIMIT,
        abs(a.z * b.y) <= LIMIT * LIMIT,
        abs(a.z * b.z) <= LIMIT * LIMIT,
{
    let l = LIMIT as int;
    lemma_mul_bound(a.x as int, b.x as int, l);
    lemma_mul_bound(a.x as int, b.y as int, l);
    lemma_mul_bound(a.x as int, b.z as int, l);
    lemma_mul_bound(a.y as int, b.x as int, l);
    lemma_mul_bound(a.y as int, b.y as int, l);
    lemma_mul_bound(a.y as int, b.z as int, l);
    lemma_mul_bound(a.z as int, b.x as int, l);
    lemma_mul_bound(a.z as int, b.y as int, l);
    lemma_mul_bound(a.z as int, b.z as int, l);
}

proof fn lemma_norm_sq_bounded(v: Vector3)
    requires
        v.within(2 * LIMIT),
    ensures
        0 <= v.x * v.x <= 0x400_0000_0000_0000_0000_0000_0000_0000,
        0 <= v.y * v.y <= 0x400_0000_0000_0000_0000_0000_0000_0000,
        0 <= v.z * v.z <= 0x400_0000_0000_0000_0000_0000_0000_0000,
{
    lemma_square_bound(v.x as int);
    lemma_square_bound(v.y as int);
    lemma_square_bound(v.z as int);
}

proof fn lemma_square_bound(u: int)
    requires
        abs(u) <= 2 * LIMIT,
    ensures
        0 <= u * u <= 0x400_0000_0000_0000_0000_0000_0000_0000,
{
    assert(0 <= u * u <= 0x400_0000_0000_0000_0000_0000_0000_0000) by (nonlinear_arith)
        requires
            -0x2000_0000_0000_0000 <= u <= 0x2000_0000_0000_0000,
    ;
}

proof fn lemma_zero_length(v: Vector3)
    requires
        crate::fixed::is_floor_sqrt(v.norm_sq(), 0),
    ensures
        v.x == 0 && v.y == 0 && v.z == 0,
{
    assert(v.x * v.x >= 0 && v.y * v.y >= 0 && v.z * v.z >= 0) by (nonlinear_arith);
    assert(v.x * v.x == 0 ==> v.x == 0) by (nonlinear_arith);
    assert(v.y * v.y == 0 ==> v.y == 0) by (nonlinear_arith);
    assert(v.z * v.z == 0 ==> v.z == 0) by (nonlinear_arith);
}

/// A component is no longer than the vector: `|c| <= floor(sqrt(n))`
/// whenever `c * c <= n`.
proof fn lemma_component_below_length(c: int, n: int, len: int)
    requires
        c * c <= n,
        n < (len + 1) * (len + 1),
        len > 0,
    ensures
        abs(c) <= len,
        abs(fx_div(c, len)) <= SCALE,
{
    assert(abs(c) <= len) by (nonlinear_arith)
        requires
            c * c <= n,
            n < (len + 1) * (len + 1),
            len > 0,
    ;
    assert(abs(c) * SCALE / len <= SCALE) by (nonlinear_arith)
        requires
            0 <= abs(c) <= len,
            len > 0,
    ;
}

/// The components of a vector shorter than `SHORT` are too, so magnifying
/// it stays in range.
proof fn lemma_short_components(v: Vector3, l: int)
    requires
        is_floor_sqrt(v.norm_sq(), l),
        l < SHORT,
    ensures
        abs(v.x as int) <= SHORT,
        abs(v.y as int) <= SHORT,
        abs(v.z as int) <= SHORT,
        v.magnified().within(LIMIT as int),
        v.magnified().x == v.x * SCALE,
        v.magnified().y == v.y * SCALE,
        v.magnified().z == v.z * SCALE,
{
    lemma_abs_square(v.x as int);
    lemma_abs_square(v.y as int);
    lemma_abs_square(v.z as int);
    lemma_component_at_most_length(v.x as int, v.norm_sq(), l);
    lemma_component_at_most_length(v.y as int, v.norm_sq(), l);
    lemma_component_at_most_length(v.z as int, v.norm_sq(), l);
    assert(abs(v.x * SCALE) <= SHORT * SCALE) by (nonlinear_arith)
        requires
            abs(v.x as int) <= SHORT,
    ;
    assert(abs(v.y * SCALE) <= SHORT * SCALE) by (nonlinear_arith)
        requires
            abs(v.y as int) <= SHORT,
    ;
    assert(abs(v.z * SCALE) <= SHORT * SCALE) by (nonlinear_arith)
        requires
            abs(v.z as int) <= SHORT,
    ;
}

proof fn lemma_component_at_most_length(c: int, n: int, len: int)
    requires
        c * c <= n,
        n < (len + 1) * (len + 1),
        len >= 0,
    ensures
        abs(c) <= len,
{
    assert(abs(c) <= len) by (nonlinear_arith)
        requires
            c * c <= n,
            n < (len + 1) * (len + 1),
            len >= 0,
    {
        if abs(c) > len {
            assert(abs(c) * abs(c) >= (len + 1) * (len + 1));
            assert(abs(c) * abs(c) == c * c);
        }
    }
}

/// A vector divided by its rounded length lies within the unit cube, and
/// each component keeps its sign.
proof fn lemma_over_length_within(v: Vector3)
    requires
        v.within(LIMIT as int),
    ensures
        v.over_length().within(SCALE as int),
        v.is_zero() ==> v.over_length().is_zero(),
        v.x >= 0 ==> v.over_length().x >= 0,
        v.y >= 0 ==> v.over_length().y >= 0,
        v.z >= 0 ==> v.over_length().z >= 0,
        v.x <= 0 ==> v.over_length().x <= 0,
        v.y <= 0 ==> v.over_length().y <= 0,
        v.z <= 0 ==> v.over_length().z <= 0,
{
    let l = v.len();
    lemma_norm_sq_bounded(v);
    lemma_abs_square(v.x as int);
    lemma_abs_square(v.y as int);
    lemma_abs_square(v.z as int);
    crate::fixed::lemma_sqrt_exists(v.norm_sq());
    if l == 0 {
        lemma_zero_length(v);
    } else {
        lemma_component_below_length(v.x as int, v.norm_sq(), l);
        lemma_component_below_length(v.y as int, v.norm_sq(), l);
        lemma_component_below_length(v.z as int, v.norm_sq(), l);
        lemma_component_parts(v.x as int, l);
        lemma_component_parts(v.y as int, l);
        lemma_component_parts(v.z as int, l);
    }
}

/// A normalized vector lies within the unit cube, and each component keeps
/// its sign.
pub proof fn lemma_unit_within(v: Vector3)
    requires
        v.within(LIMIT as int),
    ensures
        v.unit().within(SCALE as int),
        v.is_zero() ==> v.unit().is_zero(),
        v.x >= 0 ==> v.unit().x >= 0,
        v.y >= 0 ==> v.unit().y >= 0,
        v.z >= 0 ==> v.unit().z >= 0,
{
    lemma_norm_sq_bounded_any(v);
    crate::fixed::lemma_sqrt_exists(v.norm_sq());
    lemma_norm_sq_bounded(v);
    if v.len() < SHORT {
        lemma_short_components(v, v.len());
        let m = v.magnified();
        assert((m.x >= 0 <==> v.x >= 0) && (m.y >= 0 <==> v.y >= 0) && (m.z >= 0 <==> v.z >= 0))
            by (nonlinear_arith)
            requires
                m.x == v.x * SCALE,
                m.y == v.y * SCALE,
                m.z == v.z * SCALE,
        ;
        lemma_over_length_within(m);
    } else {
        lemma_over_length_within(v);
    }
}

/// Rounding toward zero keeps the sign and floors the magnitude.
proof fn lemma_trunc_parts(x: int, l: int)
    requires
        l > 0,
    ensures
        abs(div_trunc(x, l)) == abs(x) / l,
        abs(div_trunc(x, l)) * l <= abs(x) < (abs(div_trunc(x, l)) + 1) * l,
        x >= 0 ==> div_trunc(x, l) >= 0,
        x <= 0 ==> div_trunc(x, l) <= 0,
{
    let a = abs(x);
    vstd::arithmetic::div_mod::lemma_fundamental_div_mod(a, l);
    assert(0 <= a % l < l);
    assert(a / l >= 0) by (nonlinear_arith)
        requires
            a >= 0,
            l > 0,
    ;
    assert((a / l) * l == l * (a / l)) by (nonlinear_arith);
    assert((a / l + 1) * l == l * (a / l) + l) by (nonlinear_arith);
}

/// One component before and after normalization: `q = |c| * SCALE / l`,
/// rounded down.
proof fn lemma_component_parts(c: int, l: int)
    requires
        l > 0,
    ensures
        abs(fx_div(c, l)) * l <= abs(c) * SCALE,
        abs(c) * SCALE < (abs(fx_div(c, l)) + 1) * l,
        abs(fx_div(c, l)) * abs(fx_div(c, l)) == fx_div(c, l) * fx_div(c, l),
        c >= 0 ==> fx_div(c, l) >= 0,
        c <= 0 ==> fx_div(c, l) <= 0,
{
    assert(abs(c * SCALE) == abs(c) * SCALE);
    lemma_trunc_parts(c * SCALE, l);
    let q = fx_div(c, l);
    assert(abs(q) * abs(q) == q * q) by (nonlinear_arith);
}

proof fn lemma_square_product(a: int, b: int)
    ensures
        (a * b) * (a * b) == (a * a) * (b * b),
{
    assert((a * b) * (a * b) == (a * a) * (b * b)) by (nonlinear_arith);
}

proof fn lemma_sum_scaled(p: int, q: int, r: int, k: int)
    ensures
        (p + q + r) * k == p * k + q * k + r * k,
{
    assert((p + q + r) * k == p * k + q * k + r * k) by (nonlinear_arith);
}

proof fn lemma_abs_square(c: int)
    ensures
        abs(c) * abs(c) == c * c,
        c * c >= 0,
{
    assert(abs(c) * abs(c) == c * c) by (nonlinear_arith);
    assert(c * c >= 0) by (nonlinear_arith);
}

/// The sum of three squares, read off a bound on its scaled parts.
proof fn lemma_squares_below(q: (int, int, int), a: (int, int, int), l: int, n: int)
    requires
        2 * l >= SCALE,
        0 <= q.0 && 0 <= q.1 && 0 <= q.2,
        q.0 * l <= a.0 * SCALE,
        q.1 * l <= a.1 * SCALE,
        q.2 * l <= a.2 * SCALE,
        0 <= a.0 && 0 <= a.1 && 0 <= a.2,
        n == a.0 * a.0 + a.1 * a.1 + a.2 * a.2,
        n < (l + 1) * (l + 1),
    ensures
        q.0 * q.0 + q.1 * q.1 + q.2 * q.2 < (SCALE + 2) * (SCALE + 2),
{
    let s = SCALE as int;
    let u = q.0 * q.0 + q.1 * q.1 + q.2 * q.2;
    assert((q.0 * l) * (q.0 * l) <= (a.0 * s) * (a.0 * s)) by (nonlinear_arith)
        requires
            0 <= q.0 * l <= a.0 * s,
    ;
    assert((q.1 * l) * (q.1 * l) <= (a.1 * s) * (a.1 * s)) by (nonlinear_arith)
        requires
            0 <= q.1 * l <= a.1 * s,
    ;
    assert((q.2 * l) * (q.2 * l) <= (a.2 * s) * (a.2 * s)) by (nonlinear_arith)
        requires
            0 <= q.2 * l <= a.2 * s,
    ;
    lemma_square_product(q.0, l);
    lemma_square_product(q.1, l);
    lemma_square_product(q.2, l);
    lemma_square_product(a.0, s);
    lemma_square_product(a.1, s);
    lemma_square_product(a.2, s);
    lemma_sum_scaled(q.0 * q.0, q.1 * q.1, q.2 * q.2, l * l);
    lemma_sum_scaled(a.0 * a.0, a.1 * a.1, a.2 * a.2, s * s);
    assert(u * (l * l) <= n * (s * s));
    assert(n * (s * s) < ((l + 1) * s) * ((l + 1) * s)) by (nonlinear_arith)
        requires
            n < (l + 1) * (l + 1),
            s > 0,
    ;
    assert(0 <= (l + 1) * s <= (s + 2) * l) by (nonlinear_arith)
        requires
            2 * l >= s > 0,
    ;
    assert(((l + 1) * s) * ((l + 1) * s) <= ((s + 2) * l) * ((s + 2) * l)) by (nonlinear_arith)
        requires
            0 <= (l + 1) * s <= (s + 2) * l,
    ;
    assert(u < (s + 2) * (s + 2)) by (nonlinear_arith)
        requires
            u * (l * l) < ((s + 2) * l) * ((s + 2) * l),
            l > 0,
            u >= 0,
    ;
}

/// The sum of three squares, read off a bound on its scaled parts from
/// the other side.
proof fn lemma_squares_above(q: (int, int, int), a: (int, int, int), l: int, n: int)
    requires
        l > 0,
        0 <= q.0 && 0 <= q.1 && 0 <= q.2,
        a.0 * SCALE < (q.0 + 1) * l,
        a.1 * SCALE < (q.1 + 1) * l,
        a.2 * SCALE < (q.2 + 1) * l,
        0 <= a.0 && 0 <= a.1 && 0 <= a.2,
        n == a.0 * a.0 + a.1 * a.1 + a.2 * a.2,
        l * l <= n,
    ensures
        (SCALE - 3) * (SCALE - 3) <= q.0 * q.0 + q.1 * q.1 + q.2 * q.2,
{
    let s = SCALE as int;
    let u = q.0 * q.0 + q.1 * q.1 + q.2 * q.2;
    let w = (q.0 + 1) * (q.0 + 1) + (q.1 + 1) * (q.1 + 1) + (q.2 + 1) * (q.2 + 1);
    assert((a.0 * s) * (a.0 * s) <= ((q.0 + 1) * l) * ((q.0 + 1) * l)) by (nonlinear_arith)
        requires
            0 <= a.0 * s < (q.0 + 1) * l,
    ;
    assert((a.1 * s) * (a.1 * s) <= ((q.1 + 1) * l) * ((q.1 + 1) * l)) by (nonlinear_arith)
        requires
            0 <= a.1 * s < (q.1 + 1) * l,
    ;
    assert((a.2 * s) * (a.2 * s) <= ((q.2 + 1) * l) * ((q.2 + 1) * l)) by (nonlinear_arith)
        requires
            0 <= a.2 * s < (q.2 + 1) * l,
    ;
    lemma_square_product(q.0 + 1, l);
    lemma_square_product(q.1 + 1, l);
    lemma_square_product(q.2 + 1, l);
    lemma_square_product(a.0, s);
    lemma_square_product(a.1, s);
    lemma_square_product(a.2, s);
    lemma_sum_scaled((q.0 + 1) * (q.0 + 1), (q.1 + 1) * (q.1 + 1), (q.2 + 1) * (q.2 + 1), l * l);
    lemma_sum_scaled(a.0 * a.0, a.1 * a.1, a.2 * a.2, s * s);
    assert(n * (s * s) <= w * (l * l));
    assert((l * l) * (s * s) <= w * (l * l)) by (nonlinear_arith)
        requires
            l * l <= n,
            n * (s * s) <= w * (l * l),
    ;
    assert(s * s <= w) by (nonlinear_arith)
        requires
            (l * l) * (s * s) <= w * (l * l),
            l > 0,
    ;
    let t = q.0 + q.1 + q.2;
    assert(t * t <= 3 * u) by (nonlinear_arith)
        requires
            t == q.0 + q.1 + q.2,
            u == q.0 * q.0 + q.1 * q.1 + q.2 * q.2,
    ;
    let m = s - 3;
    if u < m * m {
        assert(t < 2 * m) by (nonlinear_arith)
            requires
                t * t <= 3 * u,
                u < m * m,
                m > 0,
                t >= 0,
        {
            if t >= 2 * m {
                assert(t * t >= (2 * m) * (2 * m));
            }
        }
        assert(w == u + 2 * t + 3) by (nonlinear_arith)
            requires
                w == (q.0 + 1) * (q.0 + 1) + (q.1 + 1) * (q.1 + 1) + (q.2 + 1) * (q.2 + 1),
                u == q.0 * q.0 + q.1 * q.1 + q.2 * q.2,
                t == q.0 + q.1 + q.2,
        ;
        assert(m * m + 4 * m + 3 < s * s);
        assert(w < s * s);
    }
}

/// Dividing by a length within three millionths of a unit moves a
/// component by at most three millionths.
proof fn lemma_renormalized_component(c: int, l: int)
    requires
        abs(c) <= SCALE,
        SCALE - 3 <= l <= SCALE + 1,
    ensures
        abs(fx_div(c, l) - c) <= 3,
{
    let s = SCALE as int;
    let a = abs(c);
    lemma_component_parts(c, l);
    let q = abs(fx_div(c, l));
    assert(a <= q + 1) by (nonlinear_arith)
        requires
            a * s < (q + 1) * l,
            0 <= a <= s,
            s - 3 <= l <= s + 1,
            q >= 0,
            s == 1_000_000,
    {
        if a > q + 1 {
            assert((q + 1) * l <= (a - 1) * l);
            assert((a - 1) * l <= (a - 1) * (s + 1));
            assert((a - 1) * (s + 1) == a * s + a - s - 1);
        }
    }
    assert(q <= a + 3) by (nonlinear_arith)
        requires
            q * l <= a * s,
            0 <= a <= s,
            s - 3 <= l <= s + 1,
            s == 1_000_000,
    {
        if q > a + 3 {
            assert(q * l >= (a + 4) * l);
            assert((a + 4) * l >= (a + 4) * (s - 3));
            assert((a + 4) * (s - 3) == a * s - 3 * a + 4 * s - 12);
        }
    }
}

/// Dividing a vector at least half a unit long by its rounded length gives
/// one within three millionths of unit length.
proof fn lemma_over_length_near_unit(v: Vector3)
    requires
        v.within(LIMIT as int),
        v.len() >= SHORT,
    ensures
        SCALE - 3 <= v.over_length().len() <= SCALE + 1,
        v.over_length().within(SCALE as int),
{
    let l = v.len();
    let u = v.over_length();
    lemma_norm_sq_bounded(v);
    crate::fixed::lemma_sqrt_exists(v.norm_sq());
    lemma_over_length_within(v);
    lemma_component_parts(v.x as int, l);
    lemma_component_parts(v.y as int, l);
    lemma_component_parts(v.z as int, l);
    assert(u == v.over(l));
    lemma_abs_square(v.x as int);
    lemma_abs_square(v.y as int);
    lemma_abs_square(v.z as int);
    lemma_component_below_length(v.x as int, v.norm_sq(), l);
    lemma_component_below_length(v.y as int, v.norm_sq(), l);
    lemma_component_below_length(v.z as int, v.norm_sq(), l);
    assert(u.x == fx_div(v.x as int, l));
    assert(u.y == fx_div(v.y as int, l));
    assert(u.z == fx_div(v.z as int, l));
    let q = (abs(u.x as int), abs(u.y as int), abs(u.z as int));
    let a = (abs(v.x as int), abs(v.y as int), abs(v.z as int));
    lemma_abs_square(v.x as int);
    lemma_abs_square(v.y as int);
    lemma_abs_square(v.z as int);
    assert(u.norm_sq() == q.0 * q.0 + q.1 * q.1 + q.2 * q.2);
    lemma_squares_below(q, a, l, v.norm_sq());
    lemma_squares_above(q, a, l, v.norm_sq());
    assert(u.norm_sq() >= 0) by (nonlinear_arith)
        requires
            u.norm_sq() == q.0 * q.0 + q.1 * q.1 + q.2 * q.2,
    ;
    crate::fixed::lemma_sqrt_exists(u.norm_sq());
    let lu = u.len();
    assert(lu <= SCALE + 1) by (nonlinear_arith)
        requires
            lu * lu <= u.norm_sq(),
            u.norm_sq() < (SCALE + 2) * (SCALE + 2),
            lu >= 0,
    {
        if lu > SCALE + 1 {
            assert(lu * lu >= (SCALE + 2) * (SCALE + 2));
        }
    }
    assert(SCALE - 3 <= lu) by (nonlinear_arith)
        requires
            (SCALE - 3) * (SCALE - 3) <= u.norm_sq(),
            u.norm_sq() < (lu + 1) * (lu + 1),
            lu >= 0,
    {
        if lu < SCALE - 3 {
            assert((lu + 1) * (lu + 1) <= (SCALE - 3) * (SCALE - 3));
        }
    }
}

/// A magnified non-zero vector is at least a unit long.
proof fn lemma_magnified_long(v: Vector3)
    requires
        !v.is_zero(),
        v.len() < SHORT,
    ensures
        v.magnified().len() >= SCALE,
{
    lemma_norm_sq_bounded_any(v);
    crate::fixed::lemma_sqrt_exists(v.norm_sq());
    lemma_short_components(v, v.len());
    let m = v.magnified();
    let s = SCALE as int;
    assert(m.norm_sq() == v.norm_sq() * (s * s)) by (nonlinear_arith)
        requires
            m.x == v.x * s,
            m.y == v.y * s,
            m.z == v.z * s,
    ;
    assert(v.norm_sq() >= 1) by (nonlinear_arith)
        requires
            !(v.x == 0 && v.y == 0 && v.z == 0),
    ;
    crate::fixed::lemma_sqrt_exists(m.norm_sq());
    let lm = m.len();
    assert(lm >= s) by (nonlinear_arith)
        requires
            m.norm_sq() < (lm + 1) * (lm + 1),
            m.norm_sq() >= s * s,
            lm >= 0,
            s > 0,
    {
        if lm < s {
            assert((lm + 1) * (lm + 1) <= s * s);
        }
    }
}

proof fn lemma_norm_sq_bounded_any(v: Vector3)
    ensures
        v.norm_sq() >= 0,
{
    lemma_abs_square(v.x as int);
    lemma_abs_square(v.y as int);
    lemma_abs_square(v.z as int);
}

/// Normalizing a non-zero vector gives one within three millionths of unit
/// length, and normalizing that again moves no component by more than
/// three millionths.
pub proof fn lemma_normalize_idempotent(v: Vector3)
    requires
        v.within(LIMIT as int),
        !v.is_zero(),
    ensures
        SCALE - 3 <= v.unit().len() <= SCALE + 1,
        abs(v.unit().unit().x - v.unit().x) <= 3,
        abs(v.unit().unit().y - v.unit().y) <= 3,
        abs(v.unit().unit().z - v.unit().z) <= 3,
{
    lemma_norm_sq_bounded_any(v);
    crate::fixed::lemma_sqrt_exists(v.norm_sq());
    lemma_norm_sq_bounded(v);
    if v.len() < SHORT {
        lemma_short_components(v, v.len());
        lemma_magnified_long(v);
        lemma_over_length_near_unit(v.magnified());
    } else {
        lemma_over_length_near_unit(v);
    }
    let u = v.unit();
    assert(u.len() >= SHORT);
    assert(u.unit() == u.over_length());
    lemma_renormalized_component(u.x as int, u.len());
    lemma_renormalized_component(u.y as int, u.len());
    lemma_renormalized_component(u.z as int, u.len());
}

fn div_fixed(a: i64, b: i64) -> (r: i64)
    requires
        b != 0,
        abs(fx_div(a as int, b as int)) <= LIMIT,
    ensures
        r == fx_div(a as int, b as int),
{
    proof {
        lemma_mul_bound(a as int, SCALE as int, 0x8000_0000_0000_0000);
    }
    let p: i128 = (a as i128) * (SCALE as i128);
    div_toward_zero(p, b as i128) as i64
}

fn mul_fixed(a: i64, b: i64) -> (r: i64)
    requires
        abs(fx_mul(a as int, b as int)) <= LIMIT,
    ensures
        r == fx_mul(a as int, b as int),
{
    proof {
        lemma_mul_bound(a as int, b as int, 0x8000_0000_0000_0000);
    }
    let p: i128 = (a as i128) * (b as i128);
    div_toward_zero(p, SCALE as i128) as i64
}

} // verus!
