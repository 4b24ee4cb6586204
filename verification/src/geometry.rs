//! Fixed-point vectors, axis-aligned boxes and circles.

use vstd::prelude::*;

verus! {

/// Fixed-point steps per world unit, and per second for a timestep.
pub const UNIT: i64 = 1_000_000;

/// Largest magnitude a configured length, speed or timestep may have (2^40 steps).
pub const LIMIT: i64 = 0x100_0000_0000;

/// Bound on every coordinate that can arise while a step is being computed (2^62 steps).
pub const REACH: i64 = 0x4000_0000_0000_0000;

/// A point or a displacement in the plane.
#[derive(Clone, Copy, Debug, PartialEq, Eq, Structural)]
pub struct Vector {
    pub x: i64,
    pub y: i64,
}

/// An axis-aligned unit normal.
#[derive(Clone, Copy, Debug, PartialEq, Eq, Structural)]
pub enum Normal {
    /// Towards negative x.
    Left,
    /// Towards positive x.
    Right,
    /// Towards negative y.
    Down,
    /// Towards positive y.
    Up,
}

/// A closed axis-aligned rectangle.
#[derive(Clone, Copy, Debug, PartialEq, Eq, Structural)]
pub struct Aabb {
    pub min: Vector,
    pub max: Vector,
}

/// A circle given by its centre and radius.
#[derive(Clone, Copy, Debug, PartialEq, Eq, Structural)]
pub struct Circle {
    pub center: Vector,
    pub radius: i64,
}

/// The absolute value of an integer.
pub open spec fn abs(v: int) -> int {
    if v >= 0 {
        v
    } else {
        -v
    }
}

/// `g` is the least natural number whose square is at least `n`.
pub open spec fn is_ceil_sqrt(n: int, g: int) -> bool {
    &&& 0 <= g
    &&& g * g >= n
    &&& (g == 0 || (g - 1) * (g - 1) < n)
}

/// The least natural number whose square is at least `n`.
pub open spec fn ceil_sqrt(n: int) -> int {
    choose|g: int| is_ceil_sqrt(n, g)
}

/// Squaring is monotonic on the natural numbers.
pub proof fn lemma_square_monotonic(a: int, b: int)
    requires
        0 <= a <= b,
    ensures
        a * a <= b * b,
{
    assert(a * a <= b * b) by (nonlinear_arith)
        requires
            0 <= a <= b,
    ;
}

/// At most one number is the least one whose square reaches `n`.
pub proof fn lemma_ceil_sqrt_unique(n: int, g: int, h: int)
    requires
        is_ceil_sqrt(n, g),
        is_ceil_sqrt(n, h),
    ensures
        g == h,
{
    if g < h {
        lemma_square_monotonic(g, h - 1);
    }
    if h < g {
        lemma_square_monotonic(h, g - 1);
    }
}

/// Whatever satisfies the defining property is the ceiling square root.
pub proof fn lemma_ceil_sqrt_is(n: int, g: int)
    requires
        is_ceil_sqrt(n, g),
    ensures
        ceil_sqrt(n) == g,
{
    lemma_ceil_sqrt_unique(n, g, ceil_sqrt(n));
}

/// A number whose square reaches `n` bounds a least such number.
pub proof fn lemma_ceil_sqrt_exists(n: int, bound: int)
    requires
        0 <= bound,
        bound * bound >= n,
    ensures
        is_ceil_sqrt(n, ceil_sqrt(n)),
        ceil_sqrt(n) <= bound,
    decreases bound,
{
    if bound == 0 || (bound - 1) * (bound - 1) < n {
        assert(is_ceil_sqrt(n, bound));
        lemma_ceil_sqrt_is(n, bound);
    } else {
        lemma_ceil_sqrt_exists(n, bound - 1);
    }
}

/// The magnitude of a signed integer.
pub fn magnitude(v: i64) -> (m: u64)
    ensures
        m == abs(v as int),
{
    if v >= 0 {
        v as u64
    } else {
        let w: i64 = -(v + 1);
        (w as u64) + 1
    }
}

/// Computes the least `g` with `g * g >= n` by bisection between 0 and `bound`.
pub fn ceil_sqrt_within(n: u128, bound: u64) -> (g: u64)
    requires
        bound * bound >= n,
    ensures
        is_ceil_sqrt(n as int, g as int),
        g == ceil_sqrt(n as int),
        g <= bound,
{
    let mut lo: u64 = 0;
    let mut hi: u64 = bound;
    while lo < hi
        invariant
            lo <= hi <= bound,
            hi * hi >= n,
            lo == 0 || (lo - 1) * (lo - 1) < n,
        decreases hi - lo,
    {
        let mid: u64 = lo + (hi - lo) / 2;
        assert(mid * mid <= 0xffff_ffff_ffff_ffff * 0xffff_ffff_ffff_ffff) by (nonlinear_arith)
            requires
                0 <= mid <= 0xffff_ffff_ffff_ffff,
        ;
        let square: u128 = (mid as u128) * (mid as u128);
        if square >= n {
            hi = mid;
        } else {
            lo = mid + 1;
        }
    }
    proof {
        lemma_ceil_sqrt_is(n as int, lo as int);
    }
    lo
}

impl Vector {
    /// The squared Euclidean length.
    pub open spec fn norm_sq(self) -> int {
        self.x * self.x + self.y * self.y
    }

    /// The inner product with `other`.
    pub open spec fn dot(self, other: Vector) -> int {
        self.x * other.x + self.y * other.y
    }

    /// Both coordinates have magnitude at most `bound`.
    pub open spec fn within(self, bound: int) -> bool {
        &&& -bound <= self.x <= bound
        &&& -bound <= self.y <= bound
    }

    /// The vector with the given coordinates.
    pub fn new(x: i64, y: i64) -> (v: Vector)
        ensures
            v.x == x,
            v.y == y,
    {
        Vector { x, y }
    }

    /// The squared Euclidean length, which fits for every vector.
    pub fn norm_squared(&self) -> (n: u128)
        ensures
            n == self.norm_sq(),
    {
        let ax: u64 = magnitude(self.x);
        let ay: u64 = magnitude(self.y);
        assert(ax * ax == self.x * self.x && ax * ax <= 0x8000_0000_0000_0000 * 0x8000_0000_0000_0000)
            by (nonlinear_arith)
            requires
                ax == abs(self.x as int),
                ax <= 0x8000_0000_0000_0000,
        ;
        assert(ay * ay == self.y * self.y && ay * ay <= 0x8000_0000_0000_0000 * 0x8000_0000_0000_0000)
            by (nonlinear_arith)
            requires
                ay == abs(self.y as int),
                ay <= 0x8000_0000_0000_0000,
        ;
        (ax as u128) * (ax as u128) + (ay as u128) * (ay as u128)
    }

    /// The mirror image of `self` in the line perpendicular to `normal`.
    pub open spec fn reflected(self, normal: Normal) -> Vector {
        match normal {
            Normal::Left | Normal::Right => Vector { x: (-self.x) as i64, y: self.y },
            Normal::Down | Normal::Up => Vector { x: self.x, y: (-self.y) as i64 },
        }
    }

    /// The vector points into the surface whose normal is `normal`: `v . n < 0`.
    pub open spec fn spec_approaches(self, normal: Normal) -> bool {
        self.dot(normal.unit()) < 0
    }

    /// The velocity with which a body leaves a surface that it met with
    /// velocity `self`: mirrored if it moved into the surface, unchanged if it
    /// was moving along it or away from it.
    pub open spec fn rebounded(self, normal: Normal) -> Vector {
        if self.approaches(normal) {
            self.reflected(normal)
        } else {
            self
        }
    }

    /// Whether the vector points into the surface whose normal is `normal`.
    #[verifier::when_used_as_spec(spec_approaches)]
    pub fn approaches(self, normal: Normal) -> (b: bool)
        ensures
            b == self.spec_approaches(normal),
    {
        proof {
            let n = normal.unit();
            assert(self.dot(n) == self.x * n.x + self.y * n.y);
            assert(self.x * 0 == 0 && self.y * 0 == 0);
            assert(self.x * 1 == self.x && self.y * 1 == self.y);
            assert(self.x * -1 == -self.x && self.y * -1 == -self.y);
        }
        match normal {
            Normal::Left => self.x > 0,
            Normal::Right => self.x < 0,
            Normal::Down => self.y > 0,
            Normal::Up => self.y < 0,
        }
    }

    /// Computes the velocity after a perfectly elastic, frictionless contact.
    pub fn rebound(&self, normal: Normal) -> (v: Vector)
        requires
            self.within(LIMIT as int),
        ensures
            v == self.rebounded(normal),
            v.norm_sq() == self.norm_sq(),
            v.within(LIMIT as int),
            !v.approaches(normal),
    {
        proof {
            lemma_rebound(*self, normal);
        }
        if self.approaches(normal) {
            self.reflect(normal)
        } else {
            *self
        }
    }

    /// Reflects a velocity off a surface with the given normal: `v - 2 (v . n) n`.
    pub fn reflect(&self, normal: Normal) -> (v: Vector)
        requires
            self.within(LIMIT as int),
        ensures
            v == self.reflected(normal),
            v.x == self.x - 2 * self.dot(normal.unit()) * normal.unit().x,
            v.y == self.y - 2 * self.dot(normal.unit()) * normal.unit().y,
            v.norm_sq() == self.norm_sq(),
            v.within(LIMIT as int),
    {
        proof {
            lemma_reflection(*self, normal);
        }
        match normal {
            Normal::Left | Normal::Right => Vector { x: -self.x, y: self.y },
            Normal::Down | Normal::Up => Vector { x: self.x, y: -self.y },
        }
    }
}

impl Normal {
    /// The unit vector this normal stands for.
    pub open spec fn unit(self) -> Vector {
        match self {
            Normal::Left => Vector { x: -1i64, y: 0 },
            Normal::Right => Vector { x: 1, y: 0 },
            Normal::Down => Vector { x: 0, y: -1i64 },
            Normal::Up => Vector { x: 0, y: 1 },
        }
    }

    /// Whether the normal lies along the x axis.
    pub open spec fn horizontal(self) -> bool {
        self == Normal::Left || self == Normal::Right
    }
}

/// Reflection in an axis-aligned normal is `v - 2 (v . n) n`, it keeps the
/// length of the vector, and applying it twice gives the vector back.
pub proof fn lemma_reflection(v: Vector, normal: Normal)
    requires
        v.within(LIMIT as int),
    ensures
        v.reflected(normal).x == v.x - 2 * v.dot(normal.unit()) * normal.unit().x,
        v.reflected(normal).y == v.y - 2 * v.dot(normal.unit()) * normal.unit().y,
        v.reflected(normal).norm_sq() == v.norm_sq(),
        v.reflected(normal).within(LIMIT as int),
        v.reflected(normal).reflected(normal) == v,
{
    let n = normal.unit();
    assert(v.dot(n) == v.x * n.x + v.y * n.y);
    assert((-v.x) * (-v.x) == v.x * v.x) by (nonlinear_arith);
    assert((-v.y) * (-v.y) == v.y * v.y) by (nonlinear_arith);
    match normal {
        Normal::Left => {
            assert(v.x * -1 + v.y * 0 == -v.x);
            assert(2 * (-v.x) * -1 == 2 * v.x);
        },
        Normal::Right => {
            assert(v.x * 1 + v.y * 0 == v.x);
            assert(2 * v.x * 1 == 2 * v.x);
        },
        Normal::Down => {
            assert(v.x * 0 + v.y * -1 == -v.y);
            assert(2 * (-v.y) * -1 == 2 * v.y);
        },
        Normal::Up => {
            assert(v.x * 0 + v.y * 1 == v.y);
            assert(2 * v.y * 1 == 2 * v.y);
        },
    }
}

/// A rebound keeps the length of the velocity and leaves it pointing away
/// from the surface or along it; a second rebound changes nothing.
pub proof fn lemma_rebound(v: Vector, normal: Normal)
    requires
        v.within(LIMIT as int),
    ensures
        v.rebounded(normal).norm_sq() == v.norm_sq(),
        v.rebounded(normal).within(LIMIT as int),
        !v.rebounded(normal).approaches(normal),
        v.rebounded(normal).rebounded(normal) == v.rebounded(normal),
{
    lemma_reflection(v, normal);
    let n = normal.unit();
    let r = v.rebounded(normal);
    assert(v.dot(n) == v.x * n.x + v.y * n.y);
    assert(r.dot(n) == r.x * n.x + r.y * n.y);
    assert(v.x * 0 == 0 && v.y * 0 == 0 && r.x * 0 == 0 && r.y * 0 == 0);
    assert(v.x * 1 == v.x && v.y * 1 == v.y && r.x * 1 == r.x && r.y * 1 == r.y);
    assert(v.x * -1 == -v.x && v.y * -1 == -v.y && r.x * -1 == -r.x && r.y * -1 == -r.y);
}

} // verus!
