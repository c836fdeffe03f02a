//! Fixed-point vectors and the exact integer arithmetic the tracer is built on.
//!
//! A length of one scene unit is stored as `SCALE`; every coordinate is an
//! `i64` count of `1 / SCALE` steps, so all geometry is exact integer math.
//!
//! Limits of this representation, which the well-formedness predicates of
//! spheres, rays, cameras and shading configurations state:
//! - positions, radii and albedo within `±COORD_LIMIT` (256 units);
//! - ray direction components within `±DIRECTION_LIMIT` (4 units); a
//!   longer direction such as `(0, 0, -10)` can be passed scaled down, as
//!   its length only sets the unit of the hit distance;
//! - light direction components within `±LIGHT_LIMIT` (any non-zero length).
//! In that range every intermediate product of the tracer fits in an `i128`.
use vstd::prelude::*;
use vstd::arithmetic::div_mod::{lemma_fundamental_div_mod, lemma_fundamental_div_mod_converse};

verus! {

/// Number of fixed-point steps in one scene unit.
pub const SCALE: i64 = 256;

/// Largest magnitude of a position, radius or colour component.
pub const COORD_LIMIT: i64 = 65536;

/// Largest magnitude of a ray direction component.
pub const DIRECTION_LIMIT: i64 = 1024;

/// A three-component fixed-point vector.
#[derive(Clone, Copy, Debug, PartialEq, Eq, Structural)]
pub struct Vec3 {
    pub x: i64,
    pub y: i64,
    pub z: i64,
}

/// Dot product of two vectors, over unbounded integers.
pub open spec fn dot(u: Vec3, v: Vec3) -> int {
    u.x * v.x + u.y * v.y + u.z * v.z
}

/// Every component of `v` has magnitude at most `limit`.
pub open spec fn within(v: Vec3, limit: int) -> bool {
    -limit <= v.x <= limit && -limit <= v.y <= limit && -limit <= v.z <= limit
}

/// Component-wise difference `u - v`, over unbounded integers.
pub open spec fn diff(u: Vec3, v: Vec3) -> (int, int, int) {
    (u.x - v.x, u.y - v.y, u.z - v.z)
}

/// The largest `s` with `s * s <= n`.
pub open spec fn isqrt(n: nat) -> nat
    decreases n,
{
    if n == 0 {
        0
    } else {
        let r = isqrt((n - 1) as nat);
        if (r + 1) * (r + 1) <= n {
            r + 1
        } else {
            r
        }
    }
}

/// `isqrt(n)` squared does not exceed `n`, and its successor squared does.
pub proof fn lemma_isqrt_bounds(n: nat)
    ensures
        isqrt(n) * isqrt(n) <= n,
        n < (isqrt(n) + 1) * (isqrt(n) + 1),
    decreases n,
{
    if n == 0 {
        assert(isqrt(n) == 0);
        assert((0nat + 1) * (0nat + 1) == 1) by (nonlinear_arith);
    } else {
        lemma_isqrt_bounds((n - 1) as nat);
        let r = isqrt((n - 1) as nat);
        if (r + 1) * (r + 1) <= n {
            let s = r + 1;
            assert(isqrt(n) == s);
            assert(n < (s + 1) * (s + 1)) by (nonlinear_arith)
                requires
                    n - 1 < s * s,
                    s >= 1,
            ;
        } else {
            assert(isqrt(n) == r);
            assert(r * r <= n);
            assert(n < (r + 1) * (r + 1));
        }
        assert(n < (isqrt(n) + 1) * (isqrt(n) + 1));
    }
}

/// Any `s` that brackets `n` between `s * s` and `(s + 1) * (s + 1)` is `isqrt(n)`.
pub proof fn lemma_isqrt_unique(n: nat, s: nat)
    requires
        s * s <= n,
        n < (s + 1) * (s + 1),
    ensures
        s == isqrt(n),
{
    lemma_isqrt_bounds(n);
    let r = isqrt(n);
    if s < r {
        assert((s + 1) * (s + 1) <= r * r) by (nonlinear_arith)
            requires
                s + 1 <= r,
                0 <= s,
        ;
    } else if r < s {
        assert((r + 1) * (r + 1) <= s * s) by (nonlinear_arith)
            requires
                r + 1 <= s,
                0 <= r,
        ;
    }
}

/// Square root of `n`, rounded down.
pub fn integer_sqrt(n: u64) -> (r: u64)
    ensures
        r == isqrt(n as nat),
{
    let mut lo: u64 = 0;
    let mut hi: u64 = 0x1_0000_0000;
    assert(n < hi * hi);
    while hi - lo > 1
        invariant
            lo < hi <= 0x1_0000_0000,
            lo * lo <= n,
            n < hi * hi,
        decreases hi - lo,
    {
        let mid: u64 = lo + (hi - lo) / 2;
        assert((mid as int) * (mid as int) <= 0x1_0000_0000 * 0x1_0000_0000) by (nonlinear_arith)
            requires
                0 <= mid <= 0x1_0000_0000,
        ;
        let sq: u128 = (mid as u128) * (mid as u128);
        if sq <= n as u128 {
            lo = mid;
        } else {
            hi = mid;
        }
    }
    proof {
        lemma_isqrt_unique(n as nat, lo as nat);
    }
    lo
}

/// Floor division of a possibly negative `n` by a positive `d`.
pub fn div_floor(n: i128, d: i128) -> (r: i128)
    requires
        d > 0,
        n > i128::MIN,
    ensures
        r == n / d,
{
    if n >= 0 {
        ((n as u128) / (d as u128)) as i128
    } else {
        let m: u128 = (-n) as u128;
        let q: u128 = (m + (d as u128 - 1)) / (d as u128);
        proof {
            let mi = m as int;
            let di = d as int;
            let qi = q as int;
            lemma_fundamental_div_mod(mi + di - 1, di);
            let rem = (mi + di - 1) % di;
            assert(mi + di - 1 == di * qi + rem);
            assert(qi <= mi) by (nonlinear_arith)
                requires
                    mi + di - 1 == di * qi + rem,
                    0 <= rem < di,
                    mi >= 1,
                    di >= 1,
            ;
            assert(n == (-qi) * di + (di - 1 - rem)) by (nonlinear_arith)
                requires
                    mi + di - 1 == di * qi + rem,
                    n == -mi,
            ;
            lemma_fundamental_div_mod_converse(n as int, di, -qi, di - 1 - rem);
        }
        -(q as i128)
    }
}

impl Vec3 {
    pub fn new(x: i64, y: i64, z: i64) -> (r: Vec3)
        ensures
            r == (Vec3 { x, y, z }),
    {
        Vec3 { x, y, z }
    }

    /// The vector `(0, 0, 0)`.
    pub fn zero() -> (r: Vec3)
        ensures
            r == (Vec3 { x: 0, y: 0, z: 0 }),
    {
        Vec3 { x: 0, y: 0, z: 0 }
    }

    /// Component-wise difference `self - other`.
    pub fn sub(self, other: Vec3) -> (r: Vec3)
        requires
            within(self, COORD_LIMIT as int),
            within(other, COORD_LIMIT as int),
        ensures
            (r.x as int, r.y as int, r.z as int) == diff(self, other),
            within(r, 2 * COORD_LIMIT),
    {
        Vec3 { x: self.x - other.x, y: self.y - other.y, z: self.z - other.z }
    }

    /// Dot product, exact for vectors whose components stay below `2^40`.
    pub fn dot(self, other: Vec3) -> (r: i128)
        requires
            within(self, 0x100_0000_0000),
            within(other, 0x100_0000_0000),
        ensures
            r == dot(self, other),
    {
        proof {
            lemma_product_bound(self.x as int, other.x as int, 0x100_0000_0000, 0x100_0000_0000);
            lemma_product_bound(self.y as int, other.y as int, 0x100_0000_0000, 0x100_0000_0000);
            lemma_product_bound(self.z as int, other.z as int, 0x100_0000_0000, 0x100_0000_0000);
        }
        (self.x as i128) * (other.x as i128) + (self.y as i128) * (other.y as i128) + (self.z as i128)
            * (other.z as i128)
    }
}

/// Magnitudes bounded by `p` and `q` give a product bounded by `p * q`.
pub proof fn lemma_product_bound(u: int, v: int, p: int, q: int)
    requires
        -p <= u <= p,
        -q <= v <= q,
    ensures
        -(p * q) <= u * v <= p * q,
{
    assert(-(p * q) <= u * v <= p * q) by (nonlinear_arith)
        requires
            -p <= u <= p,
            -q <= v <= q,
    ;
}

} // verus!
