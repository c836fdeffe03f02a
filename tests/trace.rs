use cpu_raytracer::camera::{camera_ray, pixel_coordinate, Camera, CameraController, Key};
use cpu_raytracer::geometry::{div_floor, integer_sqrt, Vec3, SCALE};
use cpu_raytracer::intersect::{intersect_sphere, nearest_hit, quadratic};
use cpu_raytracer::render::{placeholder_pixels, render};
use cpu_raytracer::scene::{Ray, Scene, Sphere};
use cpu_raytracer::target::{placeholder_image, render_to_image};
use cpu_raytracer::shade::{
    cast_ray, convert_rgba, hit_normal, intensity, reduce_normal, shade, Color, ShadingConfig,
    COLOR_SCALE, FULL_INTENSITY,
};

/// `FULL_INTENSITY / √3` rounded down: the intensity of a head-on normal
/// under the default light.
const THIRD_ROOT: i64 = 9686330;

fn sphere(position: Vec3, radius: i64, albedo: Vec3) -> Sphere {
    Sphere { position, radius, albedo }
}

fn ray(origin: Vec3, direction: Vec3) -> Ray {
    Ray { origin, direction }
}

fn forward_ray() -> Ray {
    ray(Vec3::new(0, 0, 2 * SCALE), Vec3::new(0, 0, -SCALE))
}

fn magenta_scene() -> Scene {
    Scene {
        spheres: vec![sphere(Vec3::zero(), SCALE / 2, Vec3::new(SCALE, 0, SCALE))],
    }
}

#[test]
fn integer_sqrt_rounds_down() {
    assert_eq!(integer_sqrt(0), 0);
    assert_eq!(integer_sqrt(1), 1);
    assert_eq!(integer_sqrt(15), 3);
    assert_eq!(integer_sqrt(16), 4);
    assert_eq!(integer_sqrt(1 << 32), 1 << 16);
    assert_eq!(integer_sqrt(u64::MAX), 0xffff_ffff);
}

#[test]
fn div_floor_rounds_toward_negative_infinity() {
    assert_eq!(div_floor(7, 2), 3);
    assert_eq!(div_floor(-7, 2), -4);
    assert_eq!(div_floor(-8, 2), -4);
    assert_eq!(div_floor(0, 5), 0);
}

#[test]
fn pixel_coordinates_span_minus_one_to_one() {
    assert_eq!(pixel_coordinate(0, 800), -SCALE);
    assert_eq!(pixel_coordinate(400, 800), 0);
    assert_eq!(pixel_coordinate(799, 800), 255);
    assert_eq!(pixel_coordinate(1, 3), -86);
}

#[test]
fn camera_ray_looks_down_negative_z() {
    let eye = Vec3::new(0, 0, 2 * SCALE);
    let r = camera_ray(eye, 400, 200, 800, 800);
    assert_eq!(r.origin, eye);
    assert_eq!(r.direction, Vec3::new(0, -128, -SCALE));
}

#[test]
fn quadratic_coefficients_are_exact() {
    let q = quadratic(&forward_ray(), &sphere(Vec3::zero(), 128, Vec3::zero()));
    assert_eq!(q.a, 65536);
    assert_eq!(q.b, -262144);
    assert_eq!(q.c, 245760);
}

#[test]
fn empty_scene_misses_and_shows_background() {
    let scene = Scene::empty();
    let config = ShadingConfig::default();
    let r = forward_ray();
    assert_eq!(nearest_hit(&scene, &r), None);
    assert_eq!(cast_ray(&scene, &r, &config), config.background);
    let other = ray(Vec3::new(5, -7, 9), Vec3::new(3, 1, -2));
    assert_eq!(cast_ray(&scene, &other, &config), Color { r: 0, g: 0, b: 0, a: COLOR_SCALE });
}

#[test]
fn missed_sphere_gives_none() {
    let s = sphere(Vec3::new(4 * SCALE, 0, 0), SCALE / 2, Vec3::zero());
    assert_eq!(intersect_sphere(&forward_ray(), &s), None);
}

#[test]
fn tangent_ray_hits_at_minus_b_over_two_a() {
    let s = sphere(Vec3::new(SCALE / 2, 0, 0), SCALE / 2, Vec3::zero());
    let r = forward_ray();
    let q = quadratic(&r, &s);
    assert_eq!(q.b * q.b - 4 * q.a * q.c, 0);
    assert_eq!(intersect_sphere(&r, &s), Some(-q.b));
    let hit = nearest_hit(&Scene { spheres: vec![s] }, &r).unwrap();
    assert_eq!(hit.distance_num, -q.b);
    assert_eq!(hit.distance_den, 2 * q.a);
    assert_eq!(hit.distance_num, 2 * hit.distance_den);
}

#[test]
fn nearer_sphere_wins_in_either_order() {
    let near = sphere(Vec3::zero(), SCALE / 2, Vec3::new(SCALE, 0, SCALE));
    let far = sphere(Vec3::new(SCALE, 0, -5 * SCALE), 3 * SCALE / 2, Vec3::new(51, 77, SCALE));
    let r = forward_ray();
    let a = nearest_hit(&Scene { spheres: vec![near, far] }, &r).unwrap();
    let b = nearest_hit(&Scene { spheres: vec![far, near] }, &r).unwrap();
    assert_eq!(a.index, 0);
    assert_eq!(b.index, 1);
    assert_eq!(a.distance_num, b.distance_num);
    assert_eq!(a.distance_den, b.distance_den);
}

#[test]
fn equal_distance_first_listed_wins() {
    let red = sphere(Vec3::zero(), SCALE / 2, Vec3::new(SCALE, 0, 0));
    let blue = sphere(Vec3::zero(), SCALE / 2, Vec3::new(0, 0, SCALE));
    let r = forward_ray();
    let config = ShadingConfig::default();
    let first_red = Scene { spheres: vec![red, blue] };
    let first_blue = Scene { spheres: vec![blue, red] };
    assert_eq!(nearest_hit(&first_red, &r).unwrap().index, 0);
    assert_eq!(nearest_hit(&first_blue, &r).unwrap().index, 0);
    assert_eq!(cast_ray(&first_red, &r, &config).b, 0);
    assert_eq!(cast_ray(&first_blue, &r, &config).r, 0);
}

#[test]
fn hit_behind_the_origin_is_kept() {
    let s = sphere(Vec3::new(0, 0, 4 * SCALE), SCALE / 2, Vec3::zero());
    let hit = nearest_hit(&Scene { spheres: vec![s] }, &forward_ray()).unwrap();
    assert!(hit.distance_num < 0);
}

#[test]
fn intensity_is_zero_when_facing_away() {
    let light_down_z = Vec3::new(0, 0, 1);
    assert_eq!(intensity(0, 0, 5, &light_down_z), 0);
    assert_eq!(intensity(3, 0, 0, &light_down_z), 0);
    assert_eq!(intensity(0, 0, 0, &light_down_z), 0);
    assert_eq!(intensity(0, 0, -5, &light_down_z), FULL_INTENSITY);
    assert_eq!(intensity(0, 0, 1 << 24, &Vec3::new(-1, -1, -1)), THIRD_ROOT);
    assert_eq!(intensity(0, 0, 1, &Vec3::new(-1, -1, -1)), THIRD_ROOT);
}

#[test]
fn intensity_is_within_a_millionth_of_the_cosine() {
    let cosine = THIRD_ROOT as f64 / FULL_INTENSITY as f64;
    assert!((cosine - 1.0 / 3f64.sqrt()).abs() < 1e-6);
    let half = intensity(1, 0, -1, &Vec3::new(0, 0, 1)) as f64 / FULL_INTENSITY as f64;
    assert!((half - 1.0 / 2f64.sqrt()).abs() < 1e-6);
}

#[test]
fn large_normals_are_reduced_toward_zero() {
    assert_eq!(reduce_normal(3, -4, 5), (3, -4, 5));
    assert_eq!(reduce_normal(1 << 26, -(1 << 25) - 1, 7), (1 << 23, -(1 << 22), 0));
}

#[test]
fn normal_points_from_centre_to_hit() {
    let s = sphere(Vec3::zero(), SCALE / 2, Vec3::zero());
    let n = hit_normal(&forward_ray(), &s, 196608);
    assert_eq!(n, (0, 0, 1 << 24));
}

#[test]
fn end_to_end_single_sphere() {
    let scene = magenta_scene();
    let config = ShadingConfig::default();
    let eye = Vec3::new(0, 0, 2 * SCALE);
    let r = camera_ray(eye, 1, 1, 2, 2);
    assert_eq!(r.direction, Vec3::new(0, 0, -SCALE));
    let hit = nearest_hit(&scene, &r).unwrap();
    assert_eq!(hit.index, 0);
    assert_eq!(2 * hit.distance_num, 3 * hit.distance_den);
    let color = cast_ray(&scene, &r, &config);
    assert_eq!(color, Color { r: THIRD_ROOT, g: 0, b: THIRD_ROOT, a: COLOR_SCALE });
    assert!((color.r as f64 / COLOR_SCALE as f64 - 1.0 / 3f64.sqrt()).abs() < 1e-6);
    assert_eq!(shade(&scene, &r, Some(hit), &config), color);
    assert_eq!(shade(&scene, &r, None, &config), config.background);
}

#[test]
fn rendered_frame_holds_each_pixel() {
    let scene = magenta_scene();
    let config = ShadingConfig::default();
    let frame = render(&scene, Vec3::new(0, 0, 2 * SCALE), 2, 2, &config);
    assert_eq!(frame.len(), 16);
    assert_eq!(&frame[12..16], &[147, 0, 147, 255]);
    assert_eq!(&frame[0..4], &[0, 0, 0, 255]);
}

#[test]
fn pixel_conversion_of_white_and_black() {
    let full = COLOR_SCALE;
    assert_eq!(convert_rgba(Color { r: full, g: full, b: full, a: full }), [255, 255, 255, 255]);
    assert_eq!(convert_rgba(Color { r: 0, g: 0, b: 0, a: full }), [0, 0, 0, 255]);
}

#[test]
fn pixel_conversion_truncates_and_saturates() {
    let half = COLOR_SCALE / 2;
    assert_eq!(convert_rgba(Color { r: half, g: -40, b: 3 * COLOR_SCALE, a: 1 }), [127, 0, 255, 0]);
}

#[test]
fn placeholder_fill_repeats_the_colour() {
    let pixels = placeholder_pixels(3, 2);
    assert_eq!(pixels.len(), 24);
    for chunk in pixels.chunks(4) {
        assert_eq!(chunk, &[234, 65, 123, 255]);
    }
}

#[test]
fn default_sphere_and_camera() {
    let s = Sphere::default();
    assert_eq!(s.position, Vec3::zero());
    assert_eq!(s.radius, 128);
    assert_eq!(s.albedo, Vec3::new(SCALE, SCALE, SCALE));
    assert_eq!(Camera::default().view.position, Vec3::new(0, 0, -10 * SCALE));
}

#[test]
fn controller_moves_along_z() {
    let controller = CameraController::new(51);
    let mut camera = Camera::default();
    assert!(controller.process_events(&mut camera, Key::W, true, SCALE));
    assert_eq!(camera.view.position.z, -10 * SCALE + 51);
    assert!(controller.process_events(&mut camera, Key::S, true, SCALE));
    assert!(controller.process_events(&mut camera, Key::S, true, SCALE));
    assert_eq!(camera.view.position.z, -10 * SCALE - 51);
    assert!(!controller.process_events(&mut camera, Key::W, false, SCALE));
    assert!(!controller.process_events(&mut camera, Key::Other, true, SCALE));
    assert_eq!(camera.view.position.z, -10 * SCALE - 51);
}

#[test]
fn controller_moves_past_the_traced_range() {
    let controller = CameraController::new(1000 * SCALE);
    let mut camera = Camera::default();
    camera.view.position.z = 0;
    assert!(controller.process_events(&mut camera, Key::W, true, SCALE));
    assert_eq!(camera.view.position.z, 1000 * SCALE);
    camera.view.position.z = 0;
    assert!(controller.process_events(&mut camera, Key::S, true, SCALE));
    assert_eq!(camera.view.position.z, -1000 * SCALE);
}

#[test]
fn near_tie_is_decided_by_the_exact_root() {
    let r = ray(Vec3::new(0, 0, 2 * SCALE), Vec3::new(0, 0, -1));
    let nearer = sphere(Vec3::new(1, 0, 0), SCALE / 2, Vec3::new(SCALE, 0, 0));
    let farther = sphere(Vec3::new(2, 0, 0), SCALE / 2, Vec3::new(0, 0, SCALE));
    assert_eq!(intersect_sphere(&r, &nearer), intersect_sphere(&r, &farther));
    let a = nearest_hit(&Scene { spheres: vec![farther, nearer] }, &r).unwrap();
    let b = nearest_hit(&Scene { spheres: vec![nearer, farther] }, &r).unwrap();
    assert_eq!(a.index, 1);
    assert_eq!(b.index, 0);
    let config = ShadingConfig::default();
    let first = cast_ray(&Scene { spheres: vec![farther, nearer] }, &r, &config);
    let second = cast_ray(&Scene { spheres: vec![nearer, farther] }, &r, &config);
    assert_eq!(first, second);
    assert_eq!(first.b, 0);
}

#[test]
fn tangent_hit_is_lit_at_the_cosine() {
    let s = sphere(Vec3::new(-SCALE, 0, 0), SCALE, Vec3::new(SCALE, SCALE, SCALE));
    let r = ray(Vec3::new(0, 0, 2 * SCALE), Vec3::new(0, 0, -SCALE));
    let q = quadratic(&r, &s);
    assert_eq!(q.b * q.b - 4 * q.a * q.c, 0);
    let color = cast_ray(&Scene { spheres: vec![s] }, &r, &ShadingConfig::default());
    assert_eq!(color, Color { r: THIRD_ROOT, g: THIRD_ROOT, b: THIRD_ROOT, a: COLOR_SCALE });
}

#[test]
fn sphere_behind_the_eye_is_lit() {
    let scene = magenta_scene();
    let r = ray(Vec3::new(0, 0, -2 * SCALE), Vec3::new(0, 0, -SCALE));
    let hit = nearest_hit(&scene, &r).unwrap();
    assert_eq!(2 * hit.distance_num, -5 * hit.distance_den);
    let color = cast_ray(&scene, &r, &ShadingConfig::default());
    assert_eq!(color, Color { r: THIRD_ROOT, g: 0, b: THIRD_ROOT, a: COLOR_SCALE });
}

#[test]
fn placeholder_target_has_the_requested_size() {
    let target = placeholder_image(3, 2);
    assert_eq!(target.dimensions(), (3, 2));
    let bytes = target.into_bytes();
    assert_eq!(bytes.len(), 24);
    assert_eq!(&bytes[20..24], &[234, 65, 123, 255]);
}

#[test]
fn render_to_image_overwrites_every_pixel() {
    let scene = magenta_scene();
    let config = ShadingConfig::default();
    let eye = Vec3::new(0, 0, 2 * SCALE);
    let mut target = placeholder_image(2, 2);
    render_to_image(&mut target, &scene, eye, &config);
    assert_eq!(target.dimensions(), (2, 2));
    let bytes = target.into_bytes();
    assert_eq!(bytes, render(&scene, eye, 2, 2, &config));
    assert_eq!(&bytes[0..4], &[0, 0, 0, 255]);
    assert_eq!(&bytes[12..16], &[147, 0, 147, 255]);
}
