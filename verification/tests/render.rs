use glam::Vec3 as V;
use ilya::color::Color;
use ilya::engine::{Engine, EngineOptions, WindowOptions};
use ilya::hittable::{Hittable, Sphere};
use ilya::point::Point3;
use ilya::ray::Ray;
use ilya::renderer::Renderer;
use ilya::scalar::Scalar;
use ilya::scene::Scene;
use ilya::vec3::Vec3;

fn s(x: f32) -> Scalar {
    Scalar::from_bits(x.to_bits())
}

fn f(x: Scalar) -> f32 {
    f32::from_bits(x.to_bits())
}

fn v(x: f32, y: f32, z: f32) -> Vec3 {
    Vec3::new(s(x), s(y), s(z))
}

fn p(x: f32, y: f32, z: f32) -> Point3 {
    Point3::new(s(x), s(y), s(z))
}

fn scene(width: u32, height: u32, spheres: &[(f32, f32, f32, f32)]) -> Scene {
    let mut scene = Scene::new((width, height));
    for &(x, y, z, r) in spheres {
        scene.add_sphere(v(x, y, z), s(r));
    }
    scene
}

fn channels(c: Color) -> [f32; 4] {
    [f(c.r), f(c.g), f(c.b), f(c.a)]
}

// The same picture in hardware arithmetic.

fn hw_sphere(o: V, d: V, c: V, r: f32, t_min: f32, t_max: f32) -> Option<(V, V, f32)> {
    let oc = o - c;
    let a = d.length_squared();
    let b = 2.0 * oc.dot(d);
    let cc = oc.length_squared() - r * r;
    let disc = b * b - 4.0 * a * cc;
    if disc > 0.0 {
        let sq = disc.sqrt();
        let r1 = (-b - sq) / (2.0 * a);
        let r2 = (-b + sq) / (2.0 * a);
        let t = if r1 > t_min {
            r1
        } else if r2 > t_min {
            r2
        } else {
            return None;
        };
        if t < t_max && t > t_min {
            let p = o + t * d;
            return Some((p, (p - c) / r, t));
        }
    }
    None
}

fn hw_color(o: V, d: V, spheres: &[(f32, f32, f32, f32)]) -> [f32; 4] {
    let mut closest = f32::INFINITY;
    let mut found = None;
    for &(x, y, z, r) in spheres {
        if let Some(h) = hw_sphere(o, d, V::new(x, y, z), r, 0.0001, closest) {
            closest = h.2;
            found = Some(h);
        }
    }
    match found {
        Some((_, n, _)) => [0.5 * (1.0 + n.x), 0.5 * (1.0 + n.y), 0.5 * (1.0 + n.z), 1.0],
        None => {
            let t = 0.5 * (d.normalize().y + 1.0);
            [
                (1.0 - t) * 1.0 + t * 0.5,
                (1.0 - t) * 1.0 + t * 0.7,
                (1.0 - t) * 1.0 + t * 1.0,
                1.0,
            ]
        }
    }
}

fn hw_byte(c: f32) -> u8 {
    f32::clamp(c * 255.99, 0.0, 255.99) as u8
}

fn hw_render(width: u32, height: u32, spheres: &[(f32, f32, f32, f32)], len: usize) -> Vec<u8> {
    let mut frame = vec![9u8; len];
    let aspect = width as f32 / height as f32;
    let origin = V::ZERO;
    let vertical = 2.0 * V::Y;
    let horizontal = 2.0 * aspect * V::X;
    let llc = origin - horizontal / 2.0 - vertical / 2.0 - V::new(0.0, 0.0, 1.0);
    for (i, pixel) in frame.chunks_exact_mut(4).enumerate() {
        let x = i % width as usize;
        let y = i / width as usize;
        let u = x as f32 / (width - 1) as f32;
        let w = 1.0 - (y as f32 / (height - 1) as f32);
        let c = hw_color(origin, llc + u * horizontal + w * vertical - origin, spheres);
        pixel.copy_from_slice(&[hw_byte(c[0]), hw_byte(c[1]), hw_byte(c[2]), hw_byte(c[3])]);
    }
    frame
}

fn render(width: u32, height: u32, spheres: &[(f32, f32, f32, f32)], len: usize) -> Vec<u8> {
    let mut frame = vec![9u8; len];
    Renderer::render(&scene(width, height, spheres), &mut frame);
    frame
}

const ONE_SPHERE: [(f32, f32, f32, f32); 1] = [(0.0, 0.0, -1.0, 0.5)];

#[test]
fn empty_scene_is_the_sky() {
    let world = scene(4, 4, &[]);
    for &(x, y, z) in &[(0.0, 0.0, -1.0), (1.0, 2.0, -3.0), (-4.0, -0.5, 0.25), (0.0, 1.0, 0.0),
        (0.0, -1.0, 0.0), (1.0e-3, 5.0e4, -7.0)]
    {
        let ray = Ray::new(p(0.0, 0.0, 0.0), v(x, y, z));
        let d = V::new(x, y, z);
        let t = 0.5 * (d.normalize().y + 1.0);
        let want = [(1.0 - t) + t * 0.5, (1.0 - t) + t * 0.7, (1.0 - t) + t * 1.0, 1.0];
        assert_eq!(channels(ray.color(&world)), want);
        assert!(world.hit(&ray, s(0.0001), s(f32::INFINITY)).is_none());
    }
}

#[test]
fn sky_straight_up_and_down() {
    let world = scene(2, 2, &[]);
    let up = Ray::new(p(0.0, 0.0, 0.0), v(0.0, 3.0, 0.0));
    assert_eq!(channels(up.color(&world)), [0.5, 0.7, 1.0, 1.0]);
    let down = Ray::new(p(0.0, 0.0, 0.0), v(0.0, -3.0, 0.0));
    assert_eq!(channels(down.color(&world)), [1.0, 1.0, 1.0, 1.0]);
}

#[test]
fn sphere_on_the_axis_is_hit_at_one_half() {
    let sphere = Sphere::new(v(0.0, 0.0, -1.0), s(0.5));
    let ray = Ray::new(p(0.0, 0.0, 0.0), v(0.0, 0.0, -1.0));
    let hit = sphere.hit(&ray, s(0.0001), s(f32::INFINITY)).expect("a hit");
    assert_eq!(f(hit.t), 0.5);
    assert_eq!([f(hit.point.x), f(hit.point.y), f(hit.point.z)], [0.0, 0.0, -0.5]);
    assert_eq!([f(hit.normal.x), f(hit.normal.y), f(hit.normal.z)], [0.0, 0.0, 1.0]);
    let world = scene(2, 2, &ONE_SPHERE);
    assert_eq!(channels(ray.color(&world)), [0.5, 0.5, 1.0, 1.0]);
    assert_eq!(ray.color(&world).to_255(), [127, 127, 255, 255]);
}

#[test]
fn no_hit_outside_the_bounds() {
    let behind = Sphere::new(v(0.0, 0.0, 1.0), s(0.5));
    let ray = Ray::new(p(0.0, 0.0, 0.0), v(0.0, 0.0, -1.0));
    assert!(behind.hit(&ray, s(0.0001), s(f32::INFINITY)).is_none());
    let ahead = Sphere::new(v(0.0, 0.0, -1.0), s(0.5));
    // Roots 0.5 and 1.5.
    assert!(ahead.hit(&ray, s(0.0001), s(0.4)).is_none());
    assert!(ahead.hit(&ray, s(0.0001), s(0.5)).is_none());
    assert!(ahead.hit(&ray, s(1.5), s(f32::INFINITY)).is_none());
    assert!(ahead.hit(&ray, s(2.0), s(f32::INFINITY)).is_none());
    assert_eq!(f(ahead.hit(&ray, s(0.0001), s(0.6)).expect("near root").t), 0.5);
    assert_eq!(f(ahead.hit(&ray, s(0.5), s(2.0)).expect("far root").t), 1.5);
    assert_eq!(f(ahead.hit(&ray, s(0.6), s(f32::INFINITY)).expect("far root").t), 1.5);
    // The far root is not tried when the near one lies beyond the upper bound.
    assert!(ahead.hit(&ray, s(0.6), s(1.5)).is_none());
}

#[test]
fn grazing_ray_misses() {
    let sphere = Sphere::new(v(0.0, 0.5, -1.0), s(0.5));
    let ray = Ray::new(p(0.0, 0.0, 0.0), v(0.0, 0.0, -1.0));
    assert!(sphere.hit(&ray, s(0.0001), s(f32::INFINITY)).is_none());
}

#[test]
fn zero_direction_hits_nothing() {
    let sphere = Sphere::new(v(0.0, 0.0, -1.0), s(0.5));
    let ray = Ray::new(p(0.0, 0.0, 0.0), v(0.0, 0.0, 0.0));
    assert!(sphere.hit(&ray, s(0.0001), s(f32::INFINITY)).is_none());
    let world = scene(2, 2, &ONE_SPHERE);
    assert_eq!(ray.color(&world).to_255(), [0, 0, 0, 255]);
}

#[test]
fn nearer_of_two_spheres_wins() {
    let near = (0.1, 0.0, -1.0, 0.5);
    let far = (-0.1, 0.0, -3.0, 0.5);
    let ray = Ray::new(p(0.0, 0.0, 0.0), v(0.0, 0.05, -1.0));
    let alone = ray.color(&scene(2, 2, &[near]));
    let other = ray.color(&scene(2, 2, &[far]));
    assert_ne!(channels(alone), channels(other));
    assert_eq!(channels(ray.color(&scene(2, 2, &[near, far]))), channels(alone));
    assert_eq!(channels(ray.color(&scene(2, 2, &[far, near]))), channels(alone));
    let both = scene(2, 2, &[far, near]);
    let hit = both.hit(&ray, s(0.0001), s(f32::INFINITY)).expect("a hit");
    let single = Sphere::new(v(0.1, 0.0, -1.0), s(0.5)).hit(&ray, s(0.0001), s(f32::INFINITY));
    assert_eq!(hit.t.to_bits(), single.expect("a hit").t.to_bits());
}

#[test]
fn first_of_two_equal_hits_wins() {
    // The same sphere twice, told apart by a radius of opposite sign, which
    // turns the normal round.
    let ray = Ray::new(p(0.0, 0.0, 0.0), v(0.0, 0.0, -1.0));
    let a = (0.0, 0.0, -1.0, 0.5);
    let b = (0.0, 0.0, -1.0, -0.5);
    assert_eq!(channels(ray.color(&scene(2, 2, &[a, b]))), [0.5, 0.5, 1.0, 1.0]);
    assert_eq!(channels(ray.color(&scene(2, 2, &[b, a]))), [0.5, 0.5, 0.0, 1.0]);
}

#[test]
fn scene_bounds_are_open() {
    let ray = Ray::new(p(0.0, 0.0, 0.0), v(0.0, 0.0, -1.0));
    let world = scene(2, 2, &ONE_SPHERE);
    assert!(world.hit(&ray, s(0.0001), s(0.5)).is_none());
    assert!(world.hit(&ray, s(1.5), s(9.0)).is_none());
    assert_eq!(f(world.hit(&ray, s(0.0001), s(0.75)).expect("a hit").t), 0.5);
}

#[test]
fn rendering_twice_gives_the_same_bytes() {
    let world = scene(16, 12, &ONE_SPHERE);
    let mut first = vec![0u8; 16 * 12 * 4];
    let mut second = vec![255u8; 16 * 12 * 4];
    Renderer::render(&world, &mut first);
    Renderer::render(&world, &mut second);
    assert_eq!(first, second);
    let again = first.clone();
    Renderer::render(&world, &mut first);
    assert_eq!(first, again);
}

#[test]
fn two_by_two_sky() {
    let frame = render(2, 2, &[], 16);
    assert_eq!(
        frame,
        vec![155, 195, 255, 255, 155, 195, 255, 255, 228, 239, 255, 255, 228, 239, 255, 255]
    );
    assert_eq!(frame, hw_render(2, 2, &[], 16));
}

#[test]
fn color_to_bytes() {
    assert_eq!(Color::rgba(s(1.0), s(0.0), s(0.0), s(1.0)).to_255(), [255, 0, 0, 255]);
    assert_eq!(Color::rgba(s(1.5), s(300.0), s(f32::INFINITY), s(1.0e30)).to_255(), [255; 4]);
    assert_eq!(Color::rgba(s(-0.5), s(-0.0), s(f32::NEG_INFINITY), s(f32::NAN)).to_255(), [0; 4]);
    assert_eq!(Color::rgba(s(0.5), s(0.25), s(0.999), s(0.0039)).to_255(), [127, 63, 255, 0]);
    assert_eq!(Color::rgba(s(0.00390641), s(0.0), s(0.0), s(0.0)).to_255(), [1, 0, 0, 0]);
}

#[test]
fn named_colors() {
    assert_eq!(channels(Color::white()), [1.0, 1.0, 1.0, 1.0]);
    assert_eq!(channels(Color::red()), [1.0, 0.0, 0.0, 1.0]);
    assert_eq!(channels(Color::green()), [0.0, 1.0, 0.0, 1.0]);
    assert_eq!(channels(Color::blue()), [0.0, 0.0, 1.0, 1.0]);
    assert_eq!(channels(Color::black()), [0.0, 0.0, 0.0, 1.0]);
    assert_eq!(channels(Color::rgb(s(0.1), s(0.2), s(0.3))), [0.1, 0.2, 0.3, 1.0]);
}

#[test]
fn color_arithmetic_is_opaque() {
    let c = Color::rgba(s(0.25), s(0.5), s(0.75), s(0.5));
    assert_eq!(channels(c.mul(s(2.0))), [0.5, 1.0, 1.5, 1.0]);
    assert_eq!(channels(c.scale(s(2.0))), [0.5, 1.0, 1.5, 1.0]);
    assert_eq!(channels(c.add(c)), [0.5, 1.0, 1.5, 1.0]);
}

#[test]
fn ray_at() {
    let ray = Ray::new(p(1.0, 2.0, 3.0), v(0.5, -1.0, 0.0));
    let q = ray.at(s(3.0));
    assert_eq!([f(q.x), f(q.y), f(q.z)], [2.5, -1.0, 3.0]);
    let q = ray.at(s(0.1));
    assert_eq!([f(q.x), f(q.y), f(q.z)], [1.0 + 0.1 * 0.5, 2.0 + 0.1 * -1.0, 3.0 + 0.1 * 0.0]);
}

#[test]
fn point_arithmetic() {
    let q = p(1.0, 2.0, 4.0);
    let d = q.sub(v(0.5, 0.5, 0.5));
    assert_eq!([f(d.x), f(d.y), f(d.z)], [0.5, 1.5, 3.5]);
    let h = q.div(s(4.0));
    assert_eq!([f(h.x), f(h.y), f(h.z)], [0.25, 0.5, 1.0]);
    let o = Point3::default();
    assert_eq!([o.x.to_bits(), o.y.to_bits(), o.z.to_bits()], [0, 0, 0]);
    let w = Vec3::from(q);
    assert_eq!([f(w.x), f(w.y), f(w.z)], [1.0, 2.0, 4.0]);
}

#[test]
fn vectors_match_hardware() {
    let cases = [(1.0f32, 2.0f32, 3.0f32), (0.1, -0.7, 1.0e-3), (3.0e19, 1.0, -2.0e19),
        (-1.0, 1.0, -1.0), (1.0e-30, 2.0e-30, 0.0)];
    for &(x, y, z) in &cases {
        let (a, g) = (v(x, y, z), V::new(x, y, z));
        assert_eq!(f(a.length_squared()), g.length_squared());
        assert_eq!(f(a.length()), g.length());
        assert_eq!(f(a.dot(v(z, x, y))), g.dot(V::new(z, x, y)));
        let (n, m) = (a.normalize(), g.normalize());
        for (got, want) in [(n.x, m.x), (n.y, m.y), (n.z, m.z)] {
            // The sign and payload of a NaN are not part of its value.
            assert!(f(got).to_bits() == want.to_bits() || (f(got).is_nan() && want.is_nan()));
        }
        let (q, r) = (a.div(s(3.0)), g / 3.0);
        assert_eq!([f(q.x), f(q.y), f(q.z)], [r.x, r.y, r.z]);
    }
}

#[test]
fn picture_matches_hardware_arithmetic() {
    let two = [(0.0, 0.0, -1.0, 0.5), (0.0, -100.5, -1.0, 100.0)];
    let three = [(0.6, 0.1, -1.5, 0.5), (-0.5, 0.0, -1.0, 0.4), (0.0, 0.3, -0.8, 0.2)];
    // A sphere of no radius, one of negative radius, and one around the eye.
    let odd = [(0.0, 0.0, -1.0, 0.0), (0.3, 0.2, -1.0, -0.4), (0.0, 0.0, 0.0, 2.0)];
    for &(w, h) in &[(2u32, 2u32), (16, 12), (60, 50), (33, 7), (1, 5), (5, 1), (1, 1)] {
        let len = (w * h * 4) as usize;
        assert_eq!(render(w, h, &[], len), hw_render(w, h, &[], len), "{}x{} empty", w, h);
        assert_eq!(render(w, h, &ONE_SPHERE, len), hw_render(w, h, &ONE_SPHERE, len), "{}x{}", w, h);
        assert_eq!(render(w, h, &two, len), hw_render(w, h, &two, len), "{}x{} two", w, h);
        assert_eq!(render(w, h, &three, len), hw_render(w, h, &three, len), "{}x{} three", w, h);
        assert_eq!(render(w, h, &odd, len), hw_render(w, h, &odd, len), "{}x{} odd", w, h);
    }
}

#[test]
fn frame_of_another_length() {
    // Three whole pixels and two bytes over.
    let frame = render(2, 2, &ONE_SPHERE, 14);
    assert_eq!(frame, hw_render(2, 2, &ONE_SPHERE, 14));
    assert_eq!(&frame[12..], &[9, 9]);
    // More pixels than the picture has: the rows go on.
    assert_eq!(render(2, 2, &ONE_SPHERE, 40), hw_render(2, 2, &ONE_SPHERE, 40));
    assert_eq!(render(2, 2, &ONE_SPHERE, 0), Vec::<u8>::new());
}

#[test]
fn single_sample() {
    let world = scene(60, 50, &ONE_SPHERE);
    assert_eq!(Renderer::single(s(0.5), s(0.5), &world), [127, 127, 255, 255]);
    let sky = Renderer::single(s(0.0), s(1.0), &world);
    assert_eq!(&sky[..], &hw_render(60, 50, &ONE_SPHERE, 4)[..]);
}

#[test]
fn engine_shows_one_sphere() {
    let options = EngineOptions { window: WindowOptions { width: 24, height: 20, name: "Ilya" } };
    let engine = Engine::new(options);
    assert_eq!(engine.scene.dimensions, (24, 20));
    assert_eq!(engine.scene.objects.len(), 1);
    assert_eq!(f(engine.scene.objects[0].center.z), -1.0);
    assert_eq!(f(engine.scene.objects[0].radius), 0.5);
    let mut frame = vec![0u8; 24 * 20 * 4];
    engine.render(&mut frame);
    assert_eq!(frame, hw_render(24, 20, &ONE_SPHERE, 24 * 20 * 4));
    let mut other = vec![0u8; 24 * 20 * 4];
    Renderer::render(&engine.scene, &mut other);
    assert_eq!(frame, other);
}
