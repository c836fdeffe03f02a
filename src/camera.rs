//! The camera as the tracer sees it: an eye position, per-pixel ray
//! directions, and keyboard movement along the view axis.
use vstd::prelude::*;
use vstd::arithmetic::div_mod::lemma_fundamental_div_mod;
use crate::geometry::{
    div_floor, lemma_product_bound, within, Vec3, COORD_LIMIT, DIRECTION_LIMIT, SCALE,
};
use crate::scene::Ray;

verus! {

/// The normalized device coordinate of pixel `p` on an axis of `size`
/// pixels, `(p / size) · 2 - 1`, in steps of `1 / SCALE` rounded down.
pub open spec fn pixel_coord(p: int, size: int) -> int {
    (2 * p * SCALE) / size - SCALE
}

/// The ray through pixel `(x, y)` of a `width × height` image: from `eye`
/// along `(coord x, coord y, -1)`.  Field of view and aspect ratio are not
/// applied.
pub open spec fn pixel_ray(eye: Vec3, x: int, y: int, width: int, height: int) -> Ray {
    Ray {
        origin: eye,
        direction: Vec3 {
            x: pixel_coord(x, width) as i64,
            y: pixel_coord(y, height) as i64,
            z: (-SCALE) as i64,
        },
    }
}

/// The device coordinate of pixel `p` on an axis of `size` pixels.
pub fn pixel_coordinate(p: u32, size: u32) -> (r: i64)
    requires
        p < size,
    ensures
        r == pixel_coord(p as int, size as int),
        -SCALE <= r < SCALE,
{
    let scaled: u64 = 2 * (p as u64) * (SCALE as u64);
    let q: u64 = scaled / (size as u64);
    proof {
        assert(scaled < 2 * SCALE * size) by (nonlinear_arith)
            requires
                scaled == 2 * p * SCALE,
                p < size,
        ;
        assert(q < 2 * SCALE) by (nonlinear_arith)
            requires
                q == scaled / (size as u64),
                scaled < 2 * SCALE * size,
                size > 0,
        ;
    }
    q as i64 - SCALE
}

/// The primary ray for pixel `(x, y)`, as `pixel_ray` states.
pub fn camera_ray(eye: Vec3, x: u32, y: u32, width: u32, height: u32) -> (r: Ray)
    requires
        within(eye, COORD_LIMIT as int),
        x < width,
        y < height,
    ensures
        r == pixel_ray(eye, x as int, y as int, width as int, height as int),
        r.wf(),
{
    let dx = pixel_coordinate(x, width);
    let dy = pixel_coordinate(y, height);
    let r = Ray { origin: eye, direction: Vec3 { x: dx, y: dy, z: -SCALE } };
    assert(within(r.direction, DIRECTION_LIMIT as int));
    r
}

/// The part of the camera view that the tracer reads.
#[derive(Clone, Copy, Debug, PartialEq, Eq, Structural)]
pub struct CameraView {
    pub position: Vec3,
}

/// A camera: the eye position that rays start from.
#[derive(Clone, Copy, Debug, PartialEq, Eq, Structural)]
pub struct Camera {
    pub view: CameraView,
}

impl Camera {
    /// The eye lies within `COORD_LIMIT`.
    pub open spec fn wf(self) -> bool {
        within(self.view.position, COORD_LIMIT as int)
    }
}

impl Default for Camera {
    /// A camera ten units back along `-z`.
    fn default() -> (r: Camera)
        ensures
            r.view.position == (Vec3 { x: 0, y: 0, z: (-10 * SCALE) as i64 }),
            r.wf(),
    {
        Camera { view: CameraView { position: Vec3::new(0, 0, -10 * SCALE) } }
    }
}

/// The keys that move the camera.
#[derive(Clone, Copy, Debug, PartialEq, Eq, Structural)]
pub enum Key {
    W,
    S,
    Other,
}

/// Moves the camera along `z` at `speed` fixed-point steps per unit of
/// elapsed time.
#[derive(Clone, Copy, Debug, PartialEq, Eq, Structural)]
pub struct CameraController {
    pub speed: i64,
}

/// How far one key event moves the eye: `speed · elapsed / SCALE`, rounded
/// down.
pub open spec fn step(speed: int, elapsed: int) -> int {
    (speed * elapsed) / SCALE as int
}

/// The eye's new `z` after a pressed `key`: forward for `W`, back for `S`.
pub open spec fn moved_z(z: int, key: Key, speed: int, elapsed: int) -> int {
    if key == Key::W {
        z + step(speed, elapsed)
    } else if key == Key::S {
        z - step(speed, elapsed)
    } else {
        z
    }
}

impl CameraController {
    pub fn new(speed: i64) -> (r: CameraController)
        ensures
            r.speed == speed,
    {
        CameraController { speed }
    }

    /// Handles one key event: a pressed `W` moves the eye forward along `z`
    /// by `speed · elapsed / SCALE` (rounded down), a pressed `S` moves it
    /// back as far.  Returns whether the event moved the camera.
    pub fn process_events(&self, camera: &mut Camera, key: Key, pressed: bool, elapsed: i64) -> (r:
        bool)
        requires
            pressed ==> i64::MIN <= moved_z(
                old(camera).view.position.z as int,
                key,
                self.speed as int,
                elapsed as int,
            ) <= i64::MAX,
        ensures
            r == (pressed && (key == Key::W || key == Key::S)),
            final(camera).view.position.x == old(camera).view.position.x,
            final(camera).view.position.y == old(camera).view.position.y,
            !r ==> *final(camera) == *old(camera),
            r ==> final(camera).view.position.z == moved_z(
                old(camera).view.position.z as int,
                key,
                self.speed as int,
                elapsed as int,
            ),
    {
        if !pressed {
            return false;
        }
        let sign: i128 = match key {
            Key::W => 1,
            Key::S => -1,
            Key::Other => {
                return false;
            },
        };
        proof {
            lemma_product_bound(
                self.speed as int,
                elapsed as int,
                0x8000_0000_0000_0000int,
                0x8000_0000_0000_0000int,
            );
        }
        let product: i128 = (self.speed as i128) * (elapsed as i128);
        let step: i128 = div_floor(product, SCALE as i128);
        proof {
            lemma_fundamental_div_mod(product as int, SCALE as int);
        }
        let z: i128 = camera.view.position.z as i128 + sign * step;
        camera.view.position.z = z as i64;
        true
    }
}

} // verus!
