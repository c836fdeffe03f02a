//! Lambertian shading of the nearest hit, and the conversion of colours to
//! RGBA8 pixels.
use vstd::prelude::*;
use vstd::arithmetic::div_mod::lemma_fundamental_div_mod;
use crate::geometry::{
    diff, div_floor, dot, integer_sqrt, isqrt, lemma_isqrt_bounds, lemma_product_bound, within, Vec3,
    SCALE,
};
use crate::intersect::{
    coeff_a, hit_numerator, lemma_coeff_bounds, lemma_hit_numerator_bounds, nearest, nearest_hit,
    quadratic, Hit,
};
use crate::scene::{Ray, Scene, Sphere};

verus! {

/// Full brightness of a colour channel: colours are carried in steps of
/// `1 / COLOR_SCALE`, the resolution of an `f32` mantissa.
pub const COLOR_SCALE: i64 = 0x100_0000;

/// Intensity of a surface lit head-on; intensities run from 0 to this value.
pub const FULL_INTENSITY: i64 = 0x100_0000;

/// Normals are halved until every component lies below this bound before
/// the cosine is taken.
pub const REDUCED_LIMIT: i128 = 0x100_0000;

/// Largest magnitude of a light direction component.
pub const LIGHT_LIMIT: i64 = 256;

/// Largest magnitude of a normal component handed to `intensity`.
pub const NORMAL_LIMIT: i128 = 0x1000_0000_0000;

/// An RGBA colour in fixed-point steps of `1 / COLOR_SCALE`; `COLOR_SCALE`
/// is full brightness, and channels are not clamped.
#[derive(Clone, Copy, Debug, PartialEq, Eq, Structural)]
pub struct Color {
    pub r: i64,
    pub g: i64,
    pub b: i64,
    pub a: i64,
}

/// The channels of a colour as unbounded integers.
pub open spec fn channels(c: Color) -> (int, int, int, int) {
    (c.r as int, c.g as int, c.b as int, c.a as int)
}

/// The fixed parts of shading: the direction the light travels in (any
/// non-zero length) and the colour of rays that hit nothing.
#[derive(Clone, Copy, Debug, PartialEq, Eq, Structural)]
pub struct ShadingConfig {
    pub light_direction: Vec3,
    pub background: Color,
}

impl ShadingConfig {
    /// The light direction is non-zero with components within `LIGHT_LIMIT`.
    pub open spec fn wf(self) -> bool {
        &&& within(self.light_direction, LIGHT_LIMIT as int)
        &&& self.light_direction != (Vec3 { x: 0, y: 0, z: 0 })
    }
}

impl Default for ShadingConfig {
    /// Light travelling along `(-1, -1, -1)` over an opaque black background.
    fn default() -> (r: ShadingConfig)
        ensures
            r.light_direction == (Vec3 { x: -1i64, y: -1i64, z: -1i64 }),
            r.background == (Color { r: 0, g: 0, b: 0, a: COLOR_SCALE }),
            r.wf(),
    {
        ShadingConfig {
            light_direction: Vec3::new(-1, -1, -1),
            background: Color { r: 0, g: 0, b: 0, a: COLOR_SCALE },
        }
    }
}

/// The surface normal at a hit with near-root numerator `k`, scaled by `2a`:
/// `2a · (o + direction · k / 2a) = 2a · o + k · direction`, where `o` is the
/// ray origin relative to the centre.  Only its direction matters.
pub open spec fn normal_at(ray: Ray, sphere: Sphere, k: int) -> (int, int, int) {
    let o = diff(ray.origin, sphere.position);
    let a2 = 2 * coeff_a(ray);
    let d = ray.direction;
    (a2 * o.0 + k * d.x, a2 * o.1 + k * d.y, a2 * o.2 + k * d.z)
}

/// `n · (-light)`: positive when the surface faces the light.
pub open spec fn facing(n: (int, int, int), light: Vec3) -> int {
    -(n.0 * light.x + n.1 * light.y + n.2 * light.z)
}

/// `n · n`.
pub open spec fn norm_sq(n: (int, int, int)) -> int {
    n.0 * n.0 + n.1 * n.1 + n.2 * n.2
}

/// `|v|`.
pub open spec fn abs(v: int) -> int {
    if v < 0 {
        -v
    } else {
        v
    }
}

/// `v / 2` rounded toward zero.
pub open spec fn halve(v: int) -> int {
    if v >= 0 {
        v / 2
    } else {
        -((-v) / 2)
    }
}

/// The normal `n` halved (toward zero) until every component lies within
/// `±REDUCED_LIMIT`: the same direction, carried at 24 significant bits.
pub open spec fn reduce(n: (int, int, int)) -> (int, int, int)
    decreases abs(n.0) + abs(n.1) + abs(n.2),
{
    if abs(n.0) < REDUCED_LIMIT && abs(n.1) < REDUCED_LIMIT && abs(n.2) < REDUCED_LIMIT {
        n
    } else {
        reduce((halve(n.0), halve(n.1), halve(n.2)))
    }
}

/// `FULL_INTENSITY · max(0, cos θ)` rounded down, where θ is the angle
/// between the normal and the direction towards the light.  The cosine is
/// taken of the reduced normal; a normal facing away from the light, or a
/// zero normal, gives 0.
pub open spec fn intensity_of(n: (int, int, int), light: Vec3) -> int {
    let m = reduce(n);
    let f = facing(m, light);
    if facing(n, light) <= 0 || norm_sq(n) == 0 || f <= 0 {
        0
    } else {
        isqrt(
            ((FULL_INTENSITY * FULL_INTENSITY) * (f * f) / (norm_sq(m) * dot(light, light))) as nat,
        ) as int
    }
}

/// The lit colour `(albedo · intensity, opaque)`: the albedo is in steps of
/// `1 / SCALE`, the intensity in steps of `1 / FULL_INTENSITY`, and each
/// channel is rounded down to a step of `1 / COLOR_SCALE`.
pub open spec fn lit(albedo: Vec3, i: int) -> (int, int, int, int) {
    (
        albedo.x * i / SCALE as int,
        albedo.y * i / SCALE as int,
        albedo.z * i / SCALE as int,
        COLOR_SCALE as int,
    )
}

/// The colour seen along `ray`: the background on a miss, otherwise the
/// lit albedo of the nearest sphere.
pub open spec fn traced(spheres: Seq<Sphere>, ray: Ray, config: ShadingConfig) -> (
    int,
    int,
    int,
    int,
) {
    match nearest(spheres, ray) {
        None => channels(config.background),
        Some(h) => {
            let s = spheres[h.0];
            lit(s.albedo, intensity_of(normal_at(ray, s, h.1), config.light_direction))
        },
    }
}

/// `(u · v)² <= (u · u)(v · v)`.
pub proof fn lemma_cauchy_schwarz(u: (int, int, int), v: (int, int, int))
    ensures
        (u.0 * v.0 + u.1 * v.1 + u.2 * v.2) * (u.0 * v.0 + u.1 * v.1 + u.2 * v.2) <= (u.0 * u.0
            + u.1 * u.1 + u.2 * u.2) * (v.0 * v.0 + v.1 * v.1 + v.2 * v.2),
{
    let (a0, a1, a2) = u;
    let (b0, b1, b2) = v;
    let (p00, p01, p02) = (a0 * b0, a0 * b1, a0 * b2);
    let (p10, p11, p12) = (a1 * b0, a1 * b1, a1 * b2);
    let (p20, p21, p22) = (a2 * b0, a2 * b1, a2 * b2);
    let bb = b0 * b0 + b1 * b1 + b2 * b2;
    lemma_row_square(a0, b0, b1, b2);
    lemma_row_square(a1, b0, b1, b2);
    lemma_row_square(a2, b0, b1, b2);
    assert((a0 * a0 + a1 * a1 + a2 * a2) * bb == a0 * a0 * bb + a1 * a1 * bb + a2 * a2 * bb)
        by (nonlinear_arith);
    lemma_cross_pair(a0, a1, b0, b1);
    lemma_cross_pair(a0, a2, b0, b2);
    lemma_cross_pair(a1, a2, b1, b2);
    lemma_square_of_sum(p00, p11, p22);
}

/// `(x + y + z)² = x² + y² + z² + 2xy + 2xz + 2yz`.
proof fn lemma_square_of_sum(x: int, y: int, z: int)
    ensures
        (x + y + z) * (x + y + z) == x * x + y * y + z * z + 2 * (x * y) + 2 * (x * z) + 2 * (y
            * z),
{
    assert((x + y + z) * (x + y + z) == x * x + y * y + z * z + 2 * (x * y) + 2 * (x * z) + 2 * (y
        * z)) by (nonlinear_arith);
}

/// `a² (b0² + b1² + b2²) = (a b0)² + (a b1)² + (a b2)²`.
proof fn lemma_row_square(a: int, b0: int, b1: int, b2: int)
    ensures
        a * a * (b0 * b0 + b1 * b1 + b2 * b2) == (a * b0) * (a * b0) + (a * b1) * (a * b1) + (a
            * b2) * (a * b2),
{
    let aa = a * a;
    let (x, y, z) = (b0 * b0, b1 * b1, b2 * b2);
    assert(aa * (x + y + z) == aa * x + aa * y + aa * z) by (nonlinear_arith);
    lemma_square_of_product(a, b0);
    lemma_square_of_product(a, b1);
    lemma_square_of_product(a, b2);
}

/// `a² b² = (a b)²`.
proof fn lemma_square_of_product(a: int, b: int)
    ensures
        a * a * (b * b) == (a * b) * (a * b),
{
    assert(a * a * (b * b) == (a * b) * (a * b)) by (nonlinear_arith);
}

/// `2 (ai bi)(aj bj) <= (ai bj)² + (aj bi)²`.
proof fn lemma_cross_pair(ai: int, aj: int, bi: int, bj: int)
    ensures
        2 * ((ai * bi) * (aj * bj)) <= (ai * bj) * (ai * bj) + (aj * bi) * (aj * bi),
{
    let x = ai * bj;
    let y = aj * bi;
    assert((ai * bi) * (aj * bj) == x * y) by (nonlinear_arith)
        requires
            x == ai * bj,
            y == aj * bi,
    ;
    assert(2 * (x * y) <= x * x + y * y) by (nonlinear_arith);
}

/// `v / 2` rounded toward zero, as `halve` states.
fn halve_toward_zero(v: i128) -> (r: i128)
    requires
        -NORMAL_LIMIT <= v <= NORMAL_LIMIT,
    ensures
        r == halve(v as int),
        abs(r as int) <= abs(v as int),
{
    if v >= 0 {
        ((v as u128) / 2) as i128
    } else {
        -((((-v) as u128) / 2) as i128)
    }
}

/// The normal `(nx, ny, nz)` reduced to 24 significant bits, as `reduce`
/// states.
pub fn reduce_normal(nx: i128, ny: i128, nz: i128) -> (m: (i128, i128, i128))
    requires
        -NORMAL_LIMIT <= nx <= NORMAL_LIMIT,
        -NORMAL_LIMIT <= ny <= NORMAL_LIMIT,
        -NORMAL_LIMIT <= nz <= NORMAL_LIMIT,
    ensures
        (m.0 as int, m.1 as int, m.2 as int) == reduce((nx as int, ny as int, nz as int)),
        -REDUCED_LIMIT < m.0 < REDUCED_LIMIT,
        -REDUCED_LIMIT < m.1 < REDUCED_LIMIT,
        -REDUCED_LIMIT < m.2 < REDUCED_LIMIT,
{
    let mut x = nx;
    let mut y = ny;
    let mut z = nz;
    while x <= -REDUCED_LIMIT || x >= REDUCED_LIMIT || y <= -REDUCED_LIMIT || y >= REDUCED_LIMIT
        || z <= -REDUCED_LIMIT || z >= REDUCED_LIMIT
        invariant
            -NORMAL_LIMIT <= x <= NORMAL_LIMIT,
            -NORMAL_LIMIT <= y <= NORMAL_LIMIT,
            -NORMAL_LIMIT <= z <= NORMAL_LIMIT,
            reduce((x as int, y as int, z as int)) == reduce((nx as int, ny as int, nz as int)),
        decreases abs(x as int) + abs(y as int) + abs(z as int),
    {
        let ghost before = (x as int, y as int, z as int);
        x = halve_toward_zero(x);
        y = halve_toward_zero(y);
        z = halve_toward_zero(z);
        assert(reduce(before) == reduce((x as int, y as int, z as int)));
    }
    (x, y, z)
}

/// The shading intensity for the normal `(nx, ny, nz)` under a light
/// travelling along `light`: `FULL_INTENSITY · max(0, cos θ)` rounded down,
/// as `intensity_of` states.
pub fn intensity(nx: i128, ny: i128, nz: i128, light: &Vec3) -> (r: i64)
    requires
        -NORMAL_LIMIT <= nx <= NORMAL_LIMIT,
        -NORMAL_LIMIT <= ny <= NORMAL_LIMIT,
        -NORMAL_LIMIT <= nz <= NORMAL_LIMIT,
        within(*light, LIGHT_LIMIT as int),
        *light != (Vec3 { x: 0, y: 0, z: 0 }),
    ensures
        r == intensity_of((nx as int, ny as int, nz as int), *light),
        0 <= r <= FULL_INTENSITY,
        facing((nx as int, ny as int, nz as int), *light) <= 0 ==> r == 0,
{
    proof {
        lemma_product_bound(nx as int, light.x as int, 0x1000_0000_0000int, 0x100int);
        lemma_product_bound(ny as int, light.y as int, 0x1000_0000_0000int, 0x100int);
        lemma_product_bound(nz as int, light.z as int, 0x1000_0000_0000int, 0x100int);
        lemma_product_bound(nx as int, nx as int, 0x1000_0000_0000int, 0x1000_0000_0000int);
        lemma_product_bound(ny as int, ny as int, 0x1000_0000_0000int, 0x1000_0000_0000int);
        lemma_product_bound(nz as int, nz as int, 0x1000_0000_0000int, 0x1000_0000_0000int);
        assert(nx * nx >= 0 && ny * ny >= 0 && nz * nz >= 0) by (nonlinear_arith);
    }
    let f0: i128 = -(nx * (light.x as i128) + ny * (light.y as i128) + nz * (light.z as i128));
    let nn0: i128 = nx * nx + ny * ny + nz * nz;
    if f0 <= 0 || nn0 == 0 {
        return 0;
    }
    let (mx, my, mz) = reduce_normal(nx, ny, nz);
    let ghost m = (mx as int, my as int, mz as int);
    let ghost l = (light.x as int, light.y as int, light.z as int);
    proof {
        lemma_product_bound(mx as int, light.x as int, 0x100_0000int, 0x100int);
        lemma_product_bound(my as int, light.y as int, 0x100_0000int, 0x100int);
        lemma_product_bound(mz as int, light.z as int, 0x100_0000int, 0x100int);
        lemma_product_bound(mx as int, mx as int, 0x100_0000int, 0x100_0000int);
        lemma_product_bound(my as int, my as int, 0x100_0000int, 0x100_0000int);
        lemma_product_bound(mz as int, mz as int, 0x100_0000int, 0x100_0000int);
        assert(mx * mx >= 0 && my * my >= 0 && mz * mz >= 0) by (nonlinear_arith);
    }
    let f: i128 = -(mx * (light.x as i128) + my * (light.y as i128) + mz * (light.z as i128));
    if f <= 0 {
        return 0;
    }
    let nn: i128 = mx * mx + my * my + mz * mz;
    let ll: i128 = light.dot(*light);
    proof {
        if nn == 0 {
            assert(mx == 0 && my == 0 && mz == 0) by (nonlinear_arith)
                requires
                    mx * mx + my * my + mz * mz == 0,
            ;
        }
        lemma_product_bound(light.x as int, light.x as int, 0x100int, 0x100int);
        lemma_product_bound(light.y as int, light.y as int, 0x100int, 0x100int);
        lemma_product_bound(light.z as int, light.z as int, 0x100int, 0x100int);
        assert(ll >= 1) by (nonlinear_arith)
            requires
                ll == light.x * light.x + light.y * light.y + light.z * light.z,
                light.x != 0 || light.y != 0 || light.z != 0,
        ;
        assert(f * f <= 0x4_0000_0000 * 0x4_0000_0000) by (nonlinear_arith)
            requires
                0 < f <= 0x4_0000_0000,
        ;
        assert(nn * ll <= 0x4_0000_0000_0000 * 0x4_0000) by (nonlinear_arith)
            requires
                0 < nn <= 0x4_0000_0000_0000,
                1 <= ll <= 0x4_0000,
        ;
        assert(nn * ll >= 1) by (nonlinear_arith)
            requires
                nn >= 1,
                ll >= 1,
        ;
    }
    let ff: i128 = f * f;
    let num: u128 = 0x1_0000_0000_0000u128 * (ff as u128);
    let den: u128 = (nn * ll) as u128;
    let q: u128 = num / den;
    proof {
        lemma_cauchy_schwarz(m, l);
        let x = mx * light.x + my * light.y + mz * light.z;
        assert(f * f == x * x) by (nonlinear_arith)
            requires
                f == -x,
        ;
        assert(ff <= nn * ll);
        assert(num <= 0x1_0000_0000_0000 * den) by (nonlinear_arith)
            requires
                num == 0x1_0000_0000_0000 * ff,
                ff <= nn * ll,
                den == nn * ll,
        ;
        lemma_fundamental_div_mod(num as int, den as int);
        assert(q <= 0x1_0000_0000_0000) by (nonlinear_arith)
            requires
                num == den * q + num % den,
                0 <= num % den,
                num <= 0x1_0000_0000_0000 * den,
                den >= 1,
        ;
        assert(FULL_INTENSITY * FULL_INTENSITY == 0x1_0000_0000_0000);
    }
    let s = integer_sqrt(q as u64);
    proof {
        lemma_isqrt_bounds(q as nat);
        if s > 0x100_0000 {
            assert(s * s > 0x1_0000_0000_0000) by (nonlinear_arith)
                requires
                    s > 0x100_0000,
            ;
        }
    }
    s as i64
}

/// The normal at a hit with near-root numerator `k`, as `normal_at` states.
pub fn hit_normal(ray: &Ray, sphere: &Sphere, k: i128) -> (n: (i128, i128, i128))
    requires
        ray.wf(),
        sphere.wf(),
        -0x2_0000_0000 < k < 0x2_0000_0000,
    ensures
        (n.0 as int, n.1 as int, n.2 as int) == normal_at(*ray, *sphere, k as int),
        -NORMAL_LIMIT <= n.0 <= NORMAL_LIMIT,
        -NORMAL_LIMIT <= n.1 <= NORMAL_LIMIT,
        -NORMAL_LIMIT <= n.2 <= NORMAL_LIMIT,
{
    proof {
        lemma_coeff_bounds(*ray, *sphere);
    }
    let q = quadratic(ray, sphere);
    let a2: i128 = 2 * q.a;
    let o = ray.origin.sub(sphere.position);
    let d = ray.direction;
    proof {
        lemma_product_bound(a2 as int, o.x as int, 0x60_0000int, 0x2_0000int);
        lemma_product_bound(a2 as int, o.y as int, 0x60_0000int, 0x2_0000int);
        lemma_product_bound(a2 as int, o.z as int, 0x60_0000int, 0x2_0000int);
        lemma_product_bound(k as int, d.x as int, 0x2_0000_0000int, 0x400int);
        lemma_product_bound(k as int, d.y as int, 0x2_0000_0000int, 0x400int);
        lemma_product_bound(k as int, d.z as int, 0x2_0000_0000int, 0x400int);
    }
    (
        a2 * (o.x as i128) + k * (d.x as i128),
        a2 * (o.y as i128) + k * (d.y as i128),
        a2 * (o.z as i128) + k * (d.z as i128),
    )
}

/// The colour for `hit`: the background when there is none, otherwise the
/// hit sphere's albedo scaled by the Lambertian intensity at the hit point.
pub fn shade(scene: &Scene, ray: &Ray, hit: Option<Hit>, config: &ShadingConfig) -> (c: Color)
    requires
        scene.wf(),
        ray.wf(),
        config.wf(),
        hit is Some ==> {
            let h = hit->Some_0;
            &&& h.index < scene.spheres@.len()
            &&& hit_numerator(*ray, scene.spheres@[h.index as int]) == Some(h.distance_num as int)
        },
    ensures
        hit is None ==> c == config.background,
        hit is Some ==> {
            let h = hit->Some_0;
            let s = scene.spheres@[h.index as int];
            channels(c) == lit(
                s.albedo,
                intensity_of(normal_at(*ray, s, h.distance_num as int), config.light_direction),
            )
        },
{
    match hit {
        None => config.background,
        Some(h) => {
            let sphere = &scene.spheres[h.index];
            proof {
                lemma_hit_numerator_bounds(*ray, *sphere);
            }
            let n = hit_normal(ray, sphere, h.distance_num);
            let i = intensity(n.0, n.1, n.2, &config.light_direction);
            let albedo = sphere.albedo;
            proof {
                lemma_product_bound(albedo.x as int, i as int, 0x1_0000int, 0x100_0000int);
                lemma_product_bound(albedo.y as int, i as int, 0x1_0000int, 0x100_0000int);
                lemma_product_bound(albedo.z as int, i as int, 0x1_0000int, 0x100_0000int);
            }
            Color {
                r: div_floor(albedo.x as i128 * i as i128, SCALE as i128) as i64,
                g: div_floor(albedo.y as i128 * i as i128, SCALE as i128) as i64,
                b: div_floor(albedo.z as i128 * i as i128, SCALE as i128) as i64,
                a: COLOR_SCALE,
            }
        },
    }
}

/// Traces one ray through the scene: the nearest hit, shaded, or the
/// background when every sphere is missed.
pub fn cast_ray(scene: &Scene, ray: &Ray, config: &ShadingConfig) -> (c: Color)
    requires
        scene.wf(),
        ray.wf(),
        config.wf(),
    ensures
        channels(c) == traced(scene.spheres@, *ray, *config),
{
    let hit = nearest_hit(scene, ray);
    shade(scene, ray, hit, config)
}

/// An empty scene is missed by every ray and shows the background.
pub proof fn lemma_empty_scene_misses(ray: Ray, config: ShadingConfig)
    ensures
        nearest(Seq::<Sphere>::empty(), ray) is None,
        traced(Seq::<Sphere>::empty(), ray, config) == channels(config.background),
{
}

/// One colour channel as a byte: `channel · 255 / COLOR_SCALE` rounded down,
/// then saturated to `0..=255`.
pub open spec fn channel_byte(c: int) -> u8 {
    let v = c * 255 / COLOR_SCALE as int;
    if v < 0 {
        0
    } else if v > 255 {
        255
    } else {
        v as u8
    }
}

/// One channel as `channel_byte` states.
fn to_byte(c: i64) -> (r: u8)
    ensures
        r == channel_byte(c as int),
{
    if c <= 0 {
        proof {
            assert(c * 255 <= 0) by (nonlinear_arith)
                requires
                    c <= 0,
            ;
            lemma_fundamental_div_mod(c * 255, COLOR_SCALE as int);
        }
        0
    } else if c >= COLOR_SCALE {
        0xff
    } else {
        ((c as u64 * 255) / (COLOR_SCALE as u64)) as u8
    }
}

/// Converts a colour to RGBA8, channel by channel as `channel_byte` states.
pub fn convert_rgba(color: Color) -> (r: [u8; 4])
    ensures
        r@ == seq![
            channel_byte(color.r as int),
            channel_byte(color.g as int),
            channel_byte(color.b as int),
            channel_byte(color.a as int),
        ],
{
    let r = [to_byte(color.r), to_byte(color.g), to_byte(color.b), to_byte(color.a)];
    assert(r@ =~= seq![
        channel_byte(color.r as int),
        channel_byte(color.g as int),
        channel_byte(color.b as int),
        channel_byte(color.a as int),
    ]);
    r
}

} // verus!
