//! The frame renderer: one primary ray per pixel, traced, shaded and written
//! as RGBA8 into a row-major pixel buffer.
use vstd::prelude::*;
use crate::camera::{camera_ray, pixel_ray};
use crate::geometry::{within, Vec3, COORD_LIMIT};
use crate::scene::Scene;
use crate::shade::{cast_ray, channel_byte, convert_rgba, traced, ShadingConfig};

verus! {

/// Byte `k` (0 = red … 3 = alpha) of a colour's RGBA8 form.
pub open spec fn color_byte(c: (int, int, int, int), k: int) -> u8 {
    if k == 0 {
        channel_byte(c.0)
    } else if k == 1 {
        channel_byte(c.1)
    } else if k == 2 {
        channel_byte(c.2)
    } else {
        channel_byte(c.3)
    }
}

/// Byte `i` of the rendered frame: pixel `p = i / 4` is at column `p % width`
/// of row `p / width`, and `i % 4` picks its channel.
pub open spec fn frame_byte(
    scene: &Scene,
    eye: Vec3,
    width: int,
    height: int,
    config: ShadingConfig,
    i: int,
) -> u8 {
    let p = i / 4;
    let ray = pixel_ray(eye, p % width, p / width, width, height);
    color_byte(traced(scene.spheres@, ray, config), i % 4)
}

/// Renders a `width × height` frame of `scene` seen from `eye`: four bytes
/// per pixel, rows from top to bottom, every pixel traced afresh.
pub fn render(scene: &Scene, eye: Vec3, width: u32, height: u32, config: &ShadingConfig) -> (out:
    Vec<u8>)
    requires
        scene.wf(),
        config.wf(),
        within(eye, COORD_LIMIT as int),
        4 * (width as int) * (height as int) <= usize::MAX,
    ensures
        out@.len() == 4 * (width as int) * (height as int),
        forall|i: int|
            0 <= i < out@.len() ==> out@[i] == #[trigger] frame_byte(
                scene,
                eye,
                width as int,
                height as int,
                *config,
                i,
            ),
{
    proof {
        assert(4 * ((width as int) * (height as int)) == 4 * (width as int) * (height as int))
            by (nonlinear_arith);
        assert(0 <= (width as int) * (height as int)) by (nonlinear_arith);
    }
    let total: usize = (width as usize) * (height as usize);
    let mut out: Vec<u8> = Vec::with_capacity(4 * total);
    let mut p: usize = 0;
    while p < total
        invariant
            total == (width as int) * (height as int),
            4 * total <= usize::MAX,
            p <= total,
            out@.len() == 4 * p,
            scene.wf(),
            config.wf(),
            within(eye, COORD_LIMIT as int),
            forall|i: int|
                0 <= i < out@.len() ==> out@[i] == #[trigger] frame_byte(
                    scene,
                    eye,
                    width as int,
                    height as int,
                    *config,
                    i,
                ),
        decreases total - p,
    {
        proof {
            assert(width > 0) by (nonlinear_arith)
                requires
                    p < total,
                    total == (width as int) * (height as int),
            ;
            assert((p as int) / (width as int) < height) by (nonlinear_arith)
                requires
                    p < total,
                    total == (width as int) * (height as int),
                    width > 0,
            ;
        }
        let x = (p % (width as usize)) as u32;
        let y = (p / (width as usize)) as u32;
        let ray = camera_ray(eye, x, y, width, height);
        let color = cast_ray(scene, &ray, config);
        let bytes = convert_rgba(color);
        let ghost before = out@;
        out.push(bytes[0]);
        out.push(bytes[1]);
        out.push(bytes[2]);
        out.push(bytes[3]);
        proof {
            assert forall|i: int| 0 <= i < out@.len() implies out@[i] == #[trigger] frame_byte(
                scene,
                eye,
                width as int,
                height as int,
                *config,
                i,
            ) by {
                if i >= 4 * p {
                    assert(i / 4 == p);
                    assert(i % 4 == i - 4 * p);
                } else {
                    assert(out@[i] == before[i]);
                }
            }
        }
        p = p + 1;
    }
    out
}

/// The fill colour of a target image before the first frame is traced.
pub open spec fn placeholder_byte(k: int) -> u8 {
    if k == 0 {
        234
    } else if k == 1 {
        65
    } else if k == 2 {
        123
    } else {
        255
    }
}

/// A `width × height` RGBA8 buffer filled with the placeholder colour
/// `(234, 65, 123, 255)`.
pub fn placeholder_pixels(width: u32, height: u32) -> (out: Vec<u8>)
    requires
        4 * (width as int) * (height as int) <= usize::MAX,
    ensures
        out@.len() == 4 * (width as int) * (height as int),
        forall|i: int| 0 <= i < out@.len() ==> out@[i] == placeholder_byte(#[trigger] (i % 4)),
{
    proof {
        assert(4 * ((width as int) * (height as int)) == 4 * (width as int) * (height as int))
            by (nonlinear_arith);
        assert(0 <= (width as int) * (height as int)) by (nonlinear_arith);
    }
    let total: usize = (width as usize) * (height as usize);
    let mut out: Vec<u8> = Vec::with_capacity(4 * total);
    let mut p: usize = 0;
    while p < total
        invariant
            total == (width as int) * (height as int),
            4 * total <= usize::MAX,
            p <= total,
            out@.len() == 4 * p,
            forall|i: int| 0 <= i < out@.len() ==> out@[i] == placeholder_byte(#[trigger] (i % 4)),
        decreases total - p,
    {
        let ghost before = out@;
        out.push(234);
        out.push(65);
        out.push(123);
        out.push(255);
        proof {
            assert forall|i: int| 0 <= i < out@.len() implies out@[i] == placeholder_byte(
                #[trigger] (i % 4),
            ) by {
                if i >= 4 * p {
                    assert(i % 4 == i - 4 * p);
                } else {
                    assert(out@[i] == before[i]);
                }
            }
        }
        p = p + 1;
    }
    out
}

} // verus!
