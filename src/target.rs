//! The render target: an `image` RGBA8 buffer that frames are written into.
use vstd::prelude::*;
use vstd::arithmetic::div_mod::lemma_fundamental_div_mod;
use image::RgbaImage;
use crate::geometry::{within, Vec3, COORD_LIMIT};
use crate::render::{frame_byte, placeholder_byte, placeholder_pixels, render};
use crate::scene::Scene;
use crate::shade::ShadingConfig;

verus! {

/// An RGBA8 image that frames are traced into, held as an `image` buffer.
#[verifier::external_body]
pub struct RenderTarget {
    image: RgbaImage,
}

/// The bytes a render target holds: four per pixel, row by row.
pub uninterp spec fn target_bytes(target: RenderTarget) -> Seq<u8>;

/// The width and height of a render target, in pixels.
pub uninterp spec fn target_dims(target: RenderTarget) -> (nat, nat);

/// Relies on `ImageBuffer::from_raw`: it wraps `buf` as a `width × height`
/// image exactly when `buf` holds at least `4 · width · height` bytes, and
/// returns `None` otherwise.
#[verifier::external_body]
fn rgba_image_from_raw(width: u32, height: u32, buf: Vec<u8>) -> (r: Option<RenderTarget>)
    ensures
        r is Some <==> 4 * (width as int) * (height as int) <= buf@.len(),
        r is Some ==> target_bytes(r->Some_0) == buf@,
        r is Some ==> target_dims(r->Some_0) == (width as nat, height as nat),
{
    RgbaImage::from_raw(width, height, buf).map(|image| RenderTarget { image })
}

/// Relies on `ImageBuffer::dimensions`, and on every `ImageBuffer` holding
/// at least `4 · width · height` bytes in its `Vec`.
#[verifier::external_body]
fn rgba_image_dimensions(target: &RenderTarget) -> (r: (u32, u32))
    ensures
        target_dims(*target) == (r.0 as nat, r.1 as nat),
        4 * (r.0 as int) * (r.1 as int) <= target_bytes(*target).len() <= usize::MAX,
{
    target.image.dimensions()
}

/// Relies on `ImageBuffer::put_pixel`: it writes the four channels of pixel
/// `(x, y)` at bytes `4 (y · width + x) ..` and leaves the rest, and it
/// panics outside the image.
#[verifier::external_body]
fn rgba_image_put_pixel(target: &mut RenderTarget, x: u32, y: u32, px: [u8; 4])
    requires
        x < target_dims(*old(target)).0,
        y < target_dims(*old(target)).1,
    ensures
        target_dims(*final(target)) == target_dims(*old(target)),
        target_bytes(*final(target)).len() == target_bytes(*old(target)).len(),
        ({
            let at = 4 * ((y as int) * target_dims(*old(target)).0 + (x as int));
            forall|i: int|
                0 <= i < target_bytes(*old(target)).len() ==> #[trigger] target_bytes(
                    *final(target),
                )[i] == if at <= i < at + 4 {
                    px@[i - at]
                } else {
                    target_bytes(*old(target))[i]
                }
        }),
{
    target.image.put_pixel(x, y, image::Rgba(px))
}

/// Relies on `ImageBuffer::into_raw`: it hands back the buffer it holds.
#[verifier::external_body]
fn rgba_image_into_raw(target: RenderTarget) -> (r: Vec<u8>)
    ensures
        r@ == target_bytes(target),
{
    target.image.into_raw()
}

impl RenderTarget {
    /// The target's width and height in pixels.
    pub fn dimensions(&self) -> (r: (u32, u32))
        ensures
            target_dims(*self) == (r.0 as nat, r.1 as nat),
    {
        rgba_image_dimensions(self)
    }

    /// The target's bytes, four per pixel, row by row.
    pub fn into_bytes(self) -> (r: Vec<u8>)
        ensures
            r@ == target_bytes(self),
    {
        rgba_image_into_raw(self)
    }
}

/// A `width × height` target filled with the placeholder colour
/// `(234, 65, 123, 255)`.
pub fn placeholder_image(width: u32, height: u32) -> (img: RenderTarget)
    requires
        4 * (width as int) * (height as int) <= usize::MAX,
    ensures
        target_dims(img) == (width as nat, height as nat),
        target_bytes(img).len() == 4 * (width as int) * (height as int),
        forall|i: int|
            0 <= i < target_bytes(img).len() ==> #[trigger] target_bytes(img)[i] == placeholder_byte(
                i % 4,
            ),
{
    let pixels = placeholder_pixels(width, height);
    rgba_image_from_raw(width, height, pixels).unwrap()
}

/// Traces a frame of `scene` seen from `eye` into `img`, at the image's own
/// size: every pixel is overwritten with its traced colour, as `frame_byte`
/// states, and bytes past the last pixel are left alone.
pub fn render_to_image(img: &mut RenderTarget, scene: &Scene, eye: Vec3, config: &ShadingConfig)
    requires
        scene.wf(),
        config.wf(),
        within(eye, COORD_LIMIT as int),
    ensures
        target_dims(*final(img)) == target_dims(*old(img)),
        target_bytes(*final(img)).len() == target_bytes(*old(img)).len(),
        ({
            let (w, h) = target_dims(*old(img));
            &&& forall|i: int|
                0 <= i < 4 * w * h ==> #[trigger] target_bytes(*final(img))[i] == frame_byte(
                    scene,
                    eye,
                    w as int,
                    h as int,
                    *config,
                    i,
                )
            &&& forall|i: int|
                4 * w * h <= i < target_bytes(*old(img)).len() ==> #[trigger] target_bytes(
                    *final(img),
                )[i] == target_bytes(*old(img))[i]
        }),
{
    let ghost start = target_bytes(*img);
    let (width, height) = rgba_image_dimensions(img);
    let frame = render(scene, eye, width, height, config);
    let ghost w = width as int;
    let ghost h = height as int;
    proof {
        assert(4 * (w * h) == 4 * w * h) by (nonlinear_arith);
    }
    let total: usize = (width as usize) * (height as usize);
    let mut p: usize = 0;
    while p < total
        invariant
            total == w * h,
            4 * total <= target_bytes(*img).len(),
            p <= total,
            width as int == w,
            height as int == h,
            target_dims(*img) == (width as nat, height as nat),
            target_bytes(*img).len() == start.len(),
            start.len() <= usize::MAX,
            frame@.len() == 4 * total,
            forall|i: int| 0 <= i < frame@.len() ==> #[trigger] frame@[i] == frame_byte(
                scene,
                eye,
                w,
                h,
                *config,
                i,
            ),
            forall|i: int| 0 <= i < 4 * p ==> #[trigger] target_bytes(*img)[i] == frame@[i],
            forall|i: int|
                4 * p <= i < start.len() ==> #[trigger] target_bytes(*img)[i] == start[i],
        decreases total - p,
    {
        proof {
            assert(w > 0) by (nonlinear_arith)
                requires
                    0 <= p < total,
                    total == w * h,
                    h >= 0,
            ;
            lemma_fundamental_div_mod(p as int, w);
            assert((p as int) / w < h) by (nonlinear_arith)
                requires
                    p < total,
                    total == w * h,
                    w > 0,
            ;
        }
        let x = (p % (width as usize)) as u32;
        let y = (p / (width as usize)) as u32;
        let px: [u8; 4] = [frame[4 * p], frame[4 * p + 1], frame[4 * p + 2], frame[4 * p + 3]];
        let ghost before = target_bytes(*img);
        rgba_image_put_pixel(img, x, y, px);
        proof {
            assert((y as int) * w == w * (y as int)) by (nonlinear_arith);
            assert(4 * ((y as int) * w + (x as int)) == 4 * p);
            assert forall|i: int| 0 <= i < 4 * (p + 1) implies #[trigger] target_bytes(*img)[i]
                == frame@[i] by {
                if i >= 4 * p {
                    assert(px@[i - 4 * p] == frame@[i]);
                } else {
                    assert(target_bytes(*img)[i] == before[i]);
                }
            }
            assert forall|i: int| 4 * (p + 1) <= i < start.len() implies #[trigger] target_bytes(
                *img,
            )[i] == start[i] by {
                assert(target_bytes(*img)[i] == before[i]);
            }
        }
        p = p + 1;
    }
}

} // verus!
