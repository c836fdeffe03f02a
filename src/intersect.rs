//! The ray–sphere intersector: the closed-form quadratic per sphere and the
//! nearest-hit scan across a scene.
use vstd::prelude::*;
use crate::geometry::{diff, dot, integer_sqrt, isqrt, lemma_isqrt_bounds, lemma_product_bound};
use crate::scene::{Ray, Scene, Sphere};

verus! {

/// `a = direction · direction`.
pub open spec fn coeff_a(ray: Ray) -> int {
    dot(ray.direction, ray.direction)
}

/// `b = 2 (o · direction)` with `o = origin - centre`.
pub open spec fn coeff_b(ray: Ray, sphere: Sphere) -> int {
    let o = diff(ray.origin, sphere.position);
    let d = ray.direction;
    2 * (o.0 * d.x + o.1 * d.y + o.2 * d.z)
}

/// `c = o · o - radius²` with `o = origin - centre`.
pub open spec fn coeff_c(ray: Ray, sphere: Sphere) -> int {
    let o = diff(ray.origin, sphere.position);
    o.0 * o.0 + o.1 * o.1 + o.2 * o.2 - sphere.radius * sphere.radius
}

/// `b² - 4ac`: negative exactly when the ray's line misses the sphere.
pub open spec fn discriminant(ray: Ray, sphere: Sphere) -> int {
    coeff_b(ray, sphere) * coeff_b(ray, sphere) - 4 * coeff_a(ray) * coeff_c(ray, sphere)
}

/// Where the ray meets the sphere, the numerator `-b - sqrt(b² - 4ac)` of the
/// near root `t = (-b - sqrt(b² - 4ac)) / 2a`, with the square root rounded
/// down; `None` when the discriminant is negative.  Roots behind the origin
/// are kept.
pub open spec fn hit_numerator(ray: Ray, sphere: Sphere) -> Option<int> {
    let disc = discriminant(ray, sphere);
    if disc < 0 {
        None
    } else {
        Some(-coeff_b(ray, sphere) - isqrt(disc as nat))
    }
}

/// `x + √dj < √di`, for `di, dj >= 0`, decided exactly by squaring both
/// sides where they are known to be non-negative.
pub open spec fn root_below(x: int, di: int, dj: int) -> bool {
    if x >= 0 {
        let m = di - dj - x * x;
        m > 0 && 4 * (x * x) * dj < m * m
    } else {
        let m = dj - di - x * x;
        m < 0 || m * m < 4 * (x * x) * di
    }
}

/// Both spheres are hit and the exact near root of `s` is smaller than that
/// of `t`: `(-b_s - √D_s) / 2a < (-b_t - √D_t) / 2a`, that is
/// `(b_t - b_s) + √D_t < √D_s`.
pub open spec fn nearer(ray: Ray, s: Sphere, t: Sphere) -> bool {
    &&& discriminant(ray, s) >= 0
    &&& discriminant(ray, t) >= 0
    &&& root_below(
        coeff_b(ray, t) - coeff_b(ray, s),
        discriminant(ray, s),
        discriminant(ray, t),
    )
}

/// The nearest hit among `spheres`, as (index, distance numerator): a scan in
/// list order that replaces the best hit only by one whose exact near root
/// is strictly smaller.
pub open spec fn nearest(spheres: Seq<Sphere>, ray: Ray) -> Option<(int, int)>
    decreases spheres.len(),
{
    if spheres.len() == 0 {
        None
    } else {
        let prev = nearest(spheres.drop_last(), ray);
        match hit_numerator(ray, spheres.last()) {
            None => prev,
            Some(k) => match prev {
                Some(best) => if nearer(ray, spheres.last(), spheres[best.0]) {
                    Some((spheres.len() - 1, k))
                } else {
                    prev
                },
                None => Some((spheres.len() - 1, k)),
            },
        }
    }
}

/// No sphere of the list is hit.
pub open spec fn all_miss(spheres: Seq<Sphere>, ray: Ray) -> bool {
    forall|j: int| 0 <= j < spheres.len() ==> #[trigger] hit_numerator(ray, spheres[j]) is None
}

/// The coefficients of `a t² + b t + c = 0` for one ray and one sphere.
#[derive(Clone, Copy, Debug, PartialEq, Eq, Structural)]
pub struct Quadratic {
    pub a: i128,
    pub b: i128,
    pub c: i128,
}

/// A hit: the index of the sphere in the scene and the hit distance
/// `distance_num / distance_den` in multiples of the ray direction.
#[derive(Clone, Copy, Debug, PartialEq, Eq, Structural)]
pub struct Hit {
    pub index: usize,
    pub distance_num: i128,
    pub distance_den: i128,
}

/// Bounds on the coefficients of a well-formed ray and sphere.
pub proof fn lemma_coeff_bounds(ray: Ray, sphere: Sphere)
    requires
        ray.wf(),
        sphere.wf(),
    ensures
        1 <= coeff_a(ray) <= 3 * 0x10_0000,
        -3 * 0x1000_0000 <= coeff_b(ray, sphere) <= 3 * 0x1000_0000,
        -0x1_0000_0000 <= coeff_c(ray, sphere) <= 3 * 0x4_0000_0000,
        -0x1000_0000_0000_0000 < discriminant(ray, sphere) < 0x2000_0000_0000_0000,
{
    let d = ray.direction;
    let o = diff(ray.origin, sphere.position);
    lemma_product_bound(d.x as int, d.x as int, 0x400int, 0x400int);
    lemma_product_bound(d.y as int, d.y as int, 0x400int, 0x400int);
    lemma_product_bound(d.z as int, d.z as int, 0x400int, 0x400int);
    assert(d.x * d.x >= 0 && d.y * d.y >= 0 && d.z * d.z >= 0) by (nonlinear_arith);
    assert(d.x * d.x + d.y * d.y + d.z * d.z >= 1) by (nonlinear_arith)
        requires
            d.x != 0 || d.y != 0 || d.z != 0,
    ;
    lemma_product_bound(o.0, d.x as int, 0x2_0000int, 0x400int);
    lemma_product_bound(o.1, d.y as int, 0x2_0000int, 0x400int);
    lemma_product_bound(o.2, d.z as int, 0x2_0000int, 0x400int);
    lemma_product_bound(o.0, o.0, 0x2_0000int, 0x2_0000int);
    lemma_product_bound(o.1, o.1, 0x2_0000int, 0x2_0000int);
    lemma_product_bound(o.2, o.2, 0x2_0000int, 0x2_0000int);
    assert(o.0 * o.0 >= 0 && o.1 * o.1 >= 0 && o.2 * o.2 >= 0) by (nonlinear_arith);
    let r = sphere.radius as int;
    lemma_product_bound(r, r, 0x1_0000int, 0x1_0000int);
    assert(r * r >= 0) by (nonlinear_arith);
    assert(o.0 * o.0 <= 0x4_0000_0000);
    assert(o.1 * o.1 <= 0x4_0000_0000);
    assert(o.2 * o.2 <= 0x4_0000_0000);
    assert(r * r <= 0x1_0000_0000);
    assert(coeff_c(ray, sphere) == o.0 * o.0 + o.1 * o.1 + o.2 * o.2 - r * r);
    let a = coeff_a(ray);
    let b = coeff_b(ray, sphere);
    let c = coeff_c(ray, sphere);
    lemma_product_bound(b, b, 0x3000_0000int, 0x3000_0000int);
    assert(b * b >= 0) by (nonlinear_arith);
    lemma_product_bound(a, c, 0x30_0000int, 0xc_0000_0000int);
    assert(4 * a * c == 4 * (a * c)) by (nonlinear_arith);
}

/// The near-root numerator of a hit lies strictly within `±2^33`.
pub proof fn lemma_hit_numerator_bounds(ray: Ray, sphere: Sphere)
    requires
        ray.wf(),
        sphere.wf(),
        hit_numerator(ray, sphere) is Some,
    ensures
        -0x2_0000_0000 < hit_numerator(ray, sphere)->Some_0 < 0x2_0000_0000,
{
    lemma_coeff_bounds(ray, sphere);
    let disc = discriminant(ray, sphere);
    let s = isqrt(disc as nat);
    lemma_isqrt_bounds(disc as nat);
    if s >= 0x8000_0000 {
        assert(s * s >= 0x8000_0000 * 0x8000_0000) by (nonlinear_arith)
            requires
                s >= 0x8000_0000,
        ;
    }
}

/// The coefficients of the intersection quadratic of `ray` and `sphere`.
pub fn quadratic(ray: &Ray, sphere: &Sphere) -> (q: Quadratic)
    requires
        ray.wf(),
        sphere.wf(),
    ensures
        q.a == coeff_a(*ray),
        q.b == coeff_b(*ray, *sphere),
        q.c == coeff_c(*ray, *sphere),
{
    proof {
        lemma_coeff_bounds(*ray, *sphere);
    }
    let o = ray.origin.sub(sphere.position);
    let d = ray.direction;
    let a = d.dot(d);
    let od = o.dot(d);
    let oo = o.dot(o);
    let r = sphere.radius as i128;
    proof {
        lemma_product_bound(r as int, r as int, 0x1_0000int, 0x1_0000int);
    }
    Quadratic { a, b: 2 * od, c: oo - r * r }
}

/// Intersects one ray with one sphere: the numerator of the near root, or
/// `None` when the ray's line misses the sphere.
pub fn intersect_sphere(ray: &Ray, sphere: &Sphere) -> (r: Option<i128>)
    requires
        ray.wf(),
        sphere.wf(),
    ensures
        r is Some <==> discriminant(*ray, *sphere) >= 0,
        r is Some ==> hit_numerator(*ray, *sphere) == Some(r->Some_0 as int),
        r is None ==> hit_numerator(*ray, *sphere) is None,
{
    proof {
        lemma_coeff_bounds(*ray, *sphere);
    }
    let q = quadratic(ray, sphere);
    proof {
        lemma_product_bound(q.b as int, q.b as int, 0x3000_0000int, 0x3000_0000int);
        lemma_product_bound(q.a as int, q.c as int, 0x30_0000int, 0xc_0000_0000int);
        assert(4 * q.a * q.c == 4 * (q.a * q.c)) by (nonlinear_arith);
    }
    let disc: i128 = q.b * q.b - 4 * q.a * q.c;
    if disc < 0 {
        None
    } else {
        let s = integer_sqrt(disc as u64);
        proof {
            lemma_hit_numerator_bounds(*ray, *sphere);
        }
        Some(-q.b - s as i128)
    }
}

/// `x + √dj < √di`, as `root_below` states, within the ranges of
/// `lemma_coeff_bounds`.
fn root_below_exact(x: i128, di: i128, dj: i128) -> (r: bool)
    requires
        -0x8000_0000 < x < 0x8000_0000,
        0 <= di < 0x2000_0000_0000_0000,
        0 <= dj < 0x2000_0000_0000_0000,
    ensures
        r == root_below(x as int, di as int, dj as int),
{
    proof {
        lemma_product_bound(x as int, x as int, 0x8000_0000int, 0x8000_0000int);
        assert(x * x >= 0) by (nonlinear_arith);
    }
    let xx: i128 = x * x;
    proof {
        lemma_product_bound(xx as int, di as int, 0x4000_0000_0000_0000int, 0x2000_0000_0000_0000int);
        lemma_product_bound(xx as int, dj as int, 0x4000_0000_0000_0000int, 0x2000_0000_0000_0000int);
        assert(4 * (x * x) * dj == 4 * ((x * x) * dj)) by (nonlinear_arith);
        assert(4 * (x * x) * di == 4 * ((x * x) * di)) by (nonlinear_arith);
    }
    if x >= 0 {
        let m: i128 = di - dj - xx;
        if m <= 0 {
            return false;
        }
        proof {
            lemma_product_bound(m as int, m as int, 0x2000_0000_0000_0000int, 0x2000_0000_0000_0000int);
        }
        4 * (xx * dj) < m * m
    } else {
        let m: i128 = dj - di - xx;
        if m < 0 {
            return true;
        }
        proof {
            lemma_product_bound(m as int, m as int, 0x2000_0000_0000_0000int, 0x2000_0000_0000_0000int);
        }
        m * m < 4 * (xx * di)
    }
}

/// The nearest sphere that `ray` hits, with its hit distance: the scan of
/// `nearest`, which compares exact near roots; the first listed wins among
/// equally near hits, and `None` means every sphere is missed.
pub fn nearest_hit(scene: &Scene, ray: &Ray) -> (r: Option<Hit>)
    requires
        scene.wf(),
        ray.wf(),
    ensures
        r is None <==> nearest(scene.spheres@, *ray) is None,
        r is None <==> all_miss(scene.spheres@, *ray),
        r is Some ==> {
            let h = r->Some_0;
            &&& nearest(scene.spheres@, *ray) == Some((h.index as int, h.distance_num as int))
            &&& h.index < scene.spheres@.len()
            &&& hit_numerator(*ray, scene.spheres@[h.index as int]) == Some(
                h.distance_num as int,
            )
            &&& h.distance_den == 2 * coeff_a(*ray)
        },
{
    let ghost spheres = scene.spheres@;
    let mut best: Option<(usize, i128)> = None;
    let mut best_b: i128 = 0;
    let mut best_d: i128 = 0;
    let mut i: usize = 0;
    while i < scene.spheres.len()
        invariant
            i <= spheres.len(),
            spheres == scene.spheres@,
            scene.wf(),
            ray.wf(),
            match best {
                Some(p) => {
                    &&& nearest(spheres.take(i as int), *ray) == Some((p.0 as int, p.1 as int))
                    &&& p.0 < i
                    &&& hit_numerator(*ray, spheres[p.0 as int]) == Some(p.1 as int)
                    &&& best_b == coeff_b(*ray, spheres[p.0 as int])
                    &&& best_d == discriminant(*ray, spheres[p.0 as int])
                },
                None => nearest(spheres.take(i as int), *ray) is None,
            },
        decreases spheres.len() - i,
    {
        let sphere = &scene.spheres[i];
        assert(spheres.take(i + 1).drop_last() =~= spheres.take(i as int));
        assert(spheres.take(i + 1).last() == spheres[i as int]);
        proof {
            lemma_coeff_bounds(*ray, *sphere);
        }
        let q = quadratic(ray, sphere);
        proof {
            lemma_product_bound(q.b as int, q.b as int, 0x3000_0000int, 0x3000_0000int);
            lemma_product_bound(q.a as int, q.c as int, 0x30_0000int, 0xc_0000_0000int);
            assert(4 * q.a * q.c == 4 * (q.a * q.c)) by (nonlinear_arith);
        }
        match intersect_sphere(ray, sphere) {
            Some(k) => {
                let disc: i128 = q.b * q.b - 4 * q.a * q.c;
                match best {
                    Some(p) => {
                        proof {
                            lemma_coeff_bounds(*ray, spheres[p.0 as int]);
                            assert(spheres.take(i + 1)[p.0 as int] == spheres[p.0 as int]);
                        }
                        if root_below_exact(best_b - q.b, disc, best_d) {
                            best = Some((i, k));
                            best_b = q.b;
                            best_d = disc;
                        }
                    },
                    None => {
                        best = Some((i, k));
                        best_b = q.b;
                        best_d = disc;
                    },
                }
            },
            None => {},
        }
        i = i + 1;
    }
    assert(spheres.take(spheres.len() as int) =~= spheres);
    proof {
        lemma_nearest_misses(spheres, *ray);
    }
    match best {
        Some(p) => {
            proof {
                lemma_coeff_bounds(*ray, spheres[p.0 as int]);
            }
            let q = quadratic(ray, &scene.spheres[p.0]);
            Some(Hit { index: p.0, distance_num: p.1, distance_den: 2 * q.a })
        },
        None => None,
    }
}

/// The scan `nearest` finds no hit exactly when every sphere is missed.
pub proof fn lemma_nearest_misses(spheres: Seq<Sphere>, ray: Ray)
    ensures
        nearest(spheres, ray) is None <==> all_miss(spheres, ray),
    decreases spheres.len(),
{
    if spheres.len() > 0 {
        let init = spheres.drop_last();
        lemma_nearest_misses(init, ray);
        let n = spheres.len() - 1;
        assert(spheres.last() == spheres[n]);
        assert forall|j: int| 0 <= j < init.len() implies init[j] == spheres[j] by {}
        if all_miss(init, ray) && hit_numerator(ray, spheres[n]) is None {
            assert forall|j: int| 0 <= j < spheres.len() implies #[trigger] hit_numerator(
                ray,
                spheres[j],
            ) is None by {
                if j < n {
                    assert(hit_numerator(ray, init[j]) is None);
                }
            }
        }
        if all_miss(spheres, ray) {
            assert(hit_numerator(ray, spheres[n]) is None);
            assert forall|j: int| 0 <= j < init.len() implies #[trigger] hit_numerator(
                ray,
                init[j],
            ) is None by {
                assert(hit_numerator(ray, spheres[j]) is None);
            }
        }
    }
}

/// A ray tangent to a sphere (zero discriminant) meets it at a single
/// distance, exactly `t = -b / 2a`: the near-root numerator is `-b`.
pub proof fn lemma_tangent_hit(ray: Ray, sphere: Sphere)
    requires
        discriminant(ray, sphere) == 0,
    ensures
        hit_numerator(ray, sphere) == Some(-coeff_b(ray, sphere)),
{
    assert(isqrt(0) == 0);
}

/// Of two hit spheres, at most one is strictly nearer than the other.
pub proof fn lemma_nearer_asymmetric(ray: Ray, s: Sphere, t: Sphere)
    ensures
        !(nearer(ray, s, t) && nearer(ray, t, s)),
{
    let x = coeff_b(ray, t) - coeff_b(ray, s);
    assert((-x) * (-x) == x * x) by (nonlinear_arith);
    assert(x * x >= 0) by (nonlinear_arith);
    assert(coeff_b(ray, s) - coeff_b(ray, t) == -x);
}

/// On perfect squares `root_below` is the comparison it stands for:
/// `x + q < p` for `di = p²`, `dj = q²`.
pub proof fn lemma_root_below_on_squares(x: int, p: int, q: int)
    requires
        p >= 0,
        q >= 0,
    ensures
        root_below(x, p * p, q * q) <==> x + q < p,
{
    assert(x * x >= 0) by (nonlinear_arith);
    if x >= 0 {
        let m = p * p - q * q - x * x;
        let g = 2 * x * q;
        assert((x + q) * (x + q) == x * x + 2 * x * q + q * q) by (nonlinear_arith);
        assert(g >= 0) by (nonlinear_arith)
            requires
                g == 2 * x * q,
                x >= 0,
                q >= 0,
        ;
        assert(4 * (x * x) * (q * q) == g * g) by (nonlinear_arith)
            requires
                g == 2 * x * q,
        ;
        if x + q < p {
            assert((x + q) * (x + q) < p * p) by (nonlinear_arith)
                requires
                    0 <= x + q < p,
            ;
            assert(g * g < m * m) by (nonlinear_arith)
                requires
                    0 <= g < m,
            ;
        } else {
            assert((x + q) * (x + q) >= p * p) by (nonlinear_arith)
                requires
                    x + q >= p,
                    p >= 0,
            ;
            if m > 0 {
                assert(m * m <= g * g) by (nonlinear_arith)
                    requires
                        0 < m <= g,
                ;
            }
        }
    } else {
        let y = -x;
        let m = q * q - p * p - x * x;
        let g = 2 * y * p;
        assert(x * x == y * y) by (nonlinear_arith)
            requires
                y == -x,
        ;
        assert((p + y) * (p + y) == p * p + 2 * y * p + y * y) by (nonlinear_arith);
        assert(4 * (x * x) * (p * p) == g * g) by (nonlinear_arith)
            requires
                x * x == y * y,
                g == 2 * y * p,
        ;
        assert(g >= 0) by (nonlinear_arith)
            requires
                g == 2 * y * p,
                y > 0,
                p >= 0,
        ;
        if x + q < p {
            assert(q * q < (p + y) * (p + y)) by (nonlinear_arith)
                requires
                    0 <= q < p + y,
            ;
            if m >= 0 {
                assert(m * m < g * g) by (nonlinear_arith)
                    requires
                        0 <= m < g,
                ;
            }
        } else {
            assert(q * q >= (p + y) * (p + y)) by (nonlinear_arith)
                requires
                    q >= p + y,
                    p + y >= 0,
            ;
            assert(m * m >= g * g) by (nonlinear_arith)
                requires
                    m >= g,
                    g >= 0,
            ;
        }
    }
}

/// The nearest of two spheres in a list of just those two.
proof fn lemma_nearest_of_two(ray: Ray, s1: Sphere, s2: Sphere)
    ensures
        nearest(seq![s1, s2], ray) == match (hit_numerator(ray, s1), hit_numerator(ray, s2)) {
            (Some(k1), Some(k2)) => if nearer(ray, s2, s1) {
                Some((1int, k2))
            } else {
                Some((0int, k1))
            },
            (Some(k1), None) => Some((0int, k1)),
            (None, Some(k2)) => Some((1int, k2)),
            (None, None) => None,
        },
{
    let two = seq![s1, s2];
    let one = seq![s1];
    assert(two.drop_last() =~= one);
    assert(one.drop_last() =~= Seq::<Sphere>::empty());
    assert(two.last() == s2);
    assert(one.last() == s1);
    assert(two[0] == s1);
    assert(nearest(Seq::<Sphere>::empty(), ray) is None);
    assert(nearest(one, ray) == match hit_numerator(ray, s1) {
        Some(k1) => Some((0int, k1)),
        None => None,
    });
}

/// Of two spheres that a ray hits, the one with the strictly smaller exact
/// near root is reported whichever of the two is listed first; when neither
/// root is smaller (they are equal) the first listed wins.
pub proof fn lemma_nearest_order_independent(ray: Ray, s1: Sphere, s2: Sphere)
    requires
        hit_numerator(ray, s1) is Some,
        hit_numerator(ray, s2) is Some,
    ensures
        ({
            let k1 = hit_numerator(ray, s1)->Some_0;
            let k2 = hit_numerator(ray, s2)->Some_0;
            &&& nearer(ray, s1, s2) ==> nearest(seq![s1, s2], ray) == Some((0int, k1))
                && nearest(seq![s2, s1], ray) == Some((1int, k1))
            &&& nearer(ray, s2, s1) ==> nearest(seq![s1, s2], ray) == Some((1int, k2))
                && nearest(seq![s2, s1], ray) == Some((0int, k2))
            &&& !nearer(ray, s1, s2) && !nearer(ray, s2, s1) ==> nearest(seq![s1, s2], ray)
                == Some((0int, k1)) && nearest(seq![s2, s1], ray) == Some((0int, k2))
        }),
{
    lemma_nearer_asymmetric(ray, s1, s2);
    lemma_nearest_of_two(ray, s1, s2);
    lemma_nearest_of_two(ray, s2, s1);
}

} // verus!
