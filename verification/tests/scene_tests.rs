use glam::Vec3;
use rand::rngs::SmallRng;
use rand::{Rng, SeedableRng};
use rand_distr::{Distribution, UnitSphere};
use ray_tracer::aabb::{Aabb, GridPoint};
use ray_tracer::bvh::index::Bvh;
use ray_tracer::frame::RenderMeta;
use ray_tracer::grid;
use ray_tracer::hit::Roots;
use ray_tracer::integrator::{ray_color, Met};
use ray_tracer::tile::{render_division, Rgb};
use std::cell::RefCell;

const T_MIN: f32 = 0.001;
const T_MAX: f32 = 1000.0;

/// The place of a float on the grid.
fn key(x: f32) -> i32 {
    grid::key((x + 0.0).to_bits())
}

fn unkey(k: i32) -> f32 {
    f32::from_bits(grid::unkey(k))
}

#[derive(Clone, Copy)]
struct Ball {
    center: Vec3,
    radius: f32,
    albedo: Vec3,
    emission: f32,
}

#[derive(Clone, Copy)]
struct Beam {
    origin: Vec3,
    direction: Vec3,
}

impl Ball {
    fn bounds(&self) -> Aabb {
        let lo = self.center - Vec3::splat(self.radius);
        let hi = self.center + Vec3::splat(self.radius);
        Aabb::with_bounds(
            GridPoint::new(key(lo.x), key(lo.y), key(lo.z)),
            GridPoint::new(key(hi.x), key(hi.y), key(hi.z)),
        )
    }

    fn distance(&self, beam: &Beam) -> Option<f32> {
        let b = (2.0 * beam.direction).dot(beam.origin - self.center);
        let c = (beam.origin - self.center).length().powi(2) - self.radius.powi(2);
        let found = match roots::find_roots_quadratic(1f32, b, c) {
            roots::Roots::No(_) => Roots::No,
            roots::Roots::One([x]) => Roots::One(key(x)),
            roots::Roots::Two([x, y]) => Roots::Two(key(x), key(y)),
            _ => unreachable!(),
        };
        found.nearest_in(key(T_MIN), key(T_MAX)).map(unkey)
    }
}

fn passes(beam: &Beam, b: &Aabb) -> bool {
    let lo = [unkey(b.min.x), unkey(b.min.y), unkey(b.min.z)];
    let hi = [unkey(b.max.x), unkey(b.max.y), unkey(b.max.z)];
    let o = beam.origin.to_array();
    let d = beam.direction.to_array();
    let (mut near, mut far) = (0f32, f32::INFINITY);
    for axis in 0..3 {
        let (t1, t2) = ((lo[axis] - o[axis]) / d[axis], (hi[axis] - o[axis]) / d[axis]);
        near = near.max(t1.min(t2));
        far = far.min(t1.max(t2));
    }
    near <= far
}

fn sky(beam: &Beam) -> Vec3 {
    let t = (beam.direction.y + 1.0) * 0.5;
    t * Vec3::ONE + (1.0 - t) * Vec3::new(0.3, 0.3, 0.8)
}

struct World {
    balls: Vec<Ball>,
    bvh: Bvh,
}

impl World {
    fn new(balls: Vec<Ball>) -> World {
        let bvh = Bvh::build(balls.iter().map(Ball::bounds).collect());
        World { balls, bvh }
    }

    fn meet(&self, beam: &Beam, rng: &RefCell<SmallRng>) -> Met<Beam, Vec3> {
        let found = self.bvh.nearest_hit(
            |b: &Aabb| passes(beam, b),
            |p: usize| self.balls.get(p)?.distance(beam).map(key),
        );
        match found {
            None => Met::Sky(sky(beam)),
            Some(hit) => {
                let ball = self.balls[hit.primitive];
                if ball.emission > 0.0 {
                    return Met::Light(ball.emission * ball.albedo);
                }
                let point = beam.origin + unkey(hit.distance) * beam.direction;
                let normal = (point - ball.center).normalize();
                let sample: [f32; 3] = UnitSphere.sample(&mut *rng.borrow_mut());
                let direction =
                    (Vec3::from_array(sample) + normal).try_normalize().unwrap_or(normal);
                Met::Surface { albedo: ball.albedo, scattered: Beam { origin: point, direction } }
            }
        }
    }
}

/// The beam from the origin down the negative z axis through the place
/// `(u, v)` of a viewport two wide and two high at distance one.
fn through(u: f32, v: f32) -> Beam {
    let direction = Vec3::new(-1.0 + 2.0 * u, -1.0 + 2.0 * v, -1.0).normalize();
    Beam { origin: Vec3::ZERO, direction }
}

fn quantized(c: Vec3) -> Rgb {
    Rgb {
        r: (c.x.sqrt() * 255.999) as u8,
        g: (c.y.sqrt() * 255.999) as u8,
        b: (c.z.sqrt() * 255.999) as u8,
    }
}

fn render(world: &World, size: u32, samples: u32, jitter: bool, seed: u64) -> Vec<u8> {
    let meta = RenderMeta { height: size, width: size, divisions: 1, id: 0 };
    let rng = RefCell::new(SmallRng::seed_from_u64(seed));
    let shade = |x: u32, y: u32| {
        let mut sum = Vec3::ZERO;
        for _ in 0..samples {
            let (dx, dy) = if jitter {
                let mut r = rng.borrow_mut();
                (r.gen_range(0f32..1f32), r.gen_range(0f32..1f32))
            } else {
                (0.5, 0.5)
            };
            let beam =
                through((x as f32 + dx) / (size as f32 - 1.0), (y as f32 + dy) / (size as f32 - 1.0));
            sum += ray_color(
                beam,
                11,
                &|b: &Beam| world.meet(b, &rng),
                &|albedo: &Vec3, light: &Vec3| *albedo * *light,
                Vec3::ZERO,
            );
        }
        quantized(sum / samples as f32)
    };
    render_division(&meta, 0, &shade).unwrap()
}

fn pixel(frame: &[u8], size: u32, x: u32, row: u32) -> [u8; 3] {
    let at = ((row * size + x) * 3) as usize;
    [frame[at], frame[at + 1], frame[at + 2]]
}

#[test]
fn an_empty_scene_shows_the_sky_at_every_pixel() {
    let world = World::new(Vec::new());
    let frame = render(&world, 4, 1, false, 1);
    assert_eq!(frame.len(), 48);
    for row in 0..4u32 {
        for x in 0..4u32 {
            let y = 3 - row;
            let beam = through((x as f32 + 0.5) / 3.0, (y as f32 + 0.5) / 3.0);
            let want = quantized(sky(&beam));
            assert_eq!(pixel(&frame, 4, x, row), [want.r, want.g, want.b]);
        }
    }
}

#[test]
fn a_light_in_view_shows_its_emission_times_its_albedo() {
    let lamp = Ball {
        center: Vec3::new(0.0, 0.0, -3.0),
        radius: 1.0,
        albedo: Vec3::new(0.2, 0.3, 0.4),
        emission: 2.0,
    };
    let world = World::new(vec![lamp]);
    let frame = render(&world, 9, 4, false, 1);
    let want = quantized(Vec3::new(0.4, 0.6, 0.8));
    // The beam through the middle of the frame meets the lamp head-on.
    assert_eq!(pixel(&frame, 9, 3, 5), [want.r, want.g, want.b]);
    assert_eq!(pixel(&frame, 9, 4, 4), [want.r, want.g, want.b]);
    // The corners look past it.
    let corner = quantized(sky(&through(0.5 / 8.0, 8.5 / 8.0)));
    assert_eq!(pixel(&frame, 9, 0, 0), [corner.r, corner.g, corner.b]);
}

#[test]
fn one_sphere_in_a_frame_of_four_by_four() {
    let ball = Ball {
        center: Vec3::new(0.0, -0.5, -1.0),
        radius: 0.5,
        albedo: Vec3::new(1.0, 0.0, 0.0),
        emission: 0.0,
    };
    let world = World::new(vec![ball]);
    let frame = render(&world, 4, 64, true, 42);
    assert_eq!(frame.len(), 4 * 4 * 3);
    // Below the middle of the frame every beam meets the sphere, which
    // gives back red light alone.
    let [r, g, b] = pixel(&frame, 4, 1, 3);
    assert!(r > 128, "red {}", r);
    assert_eq!((g, b), (0, 0));
    // The upper corners see the sky alone, the lower ones at most a rim of
    // the sphere.
    for (x, row) in [(0, 0), (3, 0)] {
        let [r, g, b] = pixel(&frame, 4, x, row);
        assert!(r > 200 && g > 200 && b > 200, "corner {} {}: {} {} {}", x, row, r, g, b);
    }
    for (x, row) in [(0, 3), (3, 3)] {
        let [r, g, b] = pixel(&frame, 4, x, row);
        assert!(r > 128 && g > 128 && b > 128, "corner {} {}: {} {} {}", x, row, r, g, b);
    }
}

#[test]
fn the_same_seed_renders_the_same_frame() {
    let ball = Ball {
        center: Vec3::new(0.0, -0.5, -1.0),
        radius: 0.5,
        albedo: Vec3::new(0.8, 0.6, 0.4),
        emission: 0.0,
    };
    let world = World::new(vec![ball]);
    assert_eq!(render(&world, 4, 8, true, 7), render(&world, 4, 8, true, 7));
}

#[test]
fn a_beam_through_the_centre_of_a_sphere_hits_it() {
    let ball = Ball { center: Vec3::new(1.0, 2.0, -5.0), radius: 0.75, albedo: Vec3::ONE, emission: 0.0 };
    for origin in [Vec3::ZERO, Vec3::new(4.0, -3.0, 2.0), Vec3::new(1.0, 2.0, 10.0)] {
        let beam = Beam { origin, direction: (ball.center - origin).normalize() };
        let t = ball.distance(&beam).unwrap();
        let want = (ball.center - origin).length() - ball.radius;
        assert!((t - want).abs() < 1e-3, "{} {}", t, want);
    }
}

#[test]
fn a_beam_that_passes_a_sphere_by_misses_it() {
    let ball = Ball { center: Vec3::new(0.0, 0.0, -5.0), radius: 1.0, albedo: Vec3::ONE, emission: 0.0 };
    let beam = Beam { origin: Vec3::new(0.0, 1.5, 0.0), direction: Vec3::new(0.0, 0.0, -1.0) };
    assert_eq!(ball.distance(&beam), None);
    let behind = Beam { origin: Vec3::ZERO, direction: Vec3::new(0.0, 0.0, 1.0) };
    assert_eq!(ball.distance(&behind), None);
}

#[test]
fn keys_keep_the_order_of_floats() {
    let floats = [
        f32::NEG_INFINITY,
        -1000.5,
        -1.0,
        -f32::MIN_POSITIVE,
        0.0,
        f32::MIN_POSITIVE,
        0.001,
        1.0,
        1000.0,
        f32::INFINITY,
    ];
    for pair in floats.windows(2) {
        assert!(key(pair[0]) < key(pair[1]), "{} {}", pair[0], pair[1]);
    }
    for x in floats {
        assert_eq!(unkey(key(x)), x);
    }
    assert_eq!(key(-0.0), key(0.0));
}

#[test]
fn keys_of_bits() {
    assert_eq!(grid::key(0), 0);
    assert_eq!(grid::key(1), 1);
    assert_eq!(grid::key(0x7fff_ffff), i32::MAX);
    assert_eq!(grid::key(0x8000_0000), -1);
    assert_eq!(grid::key(0x8000_0001), -2);
    assert_eq!(grid::key(0xffff_ffff), i32::MIN);
    assert_eq!(grid::key(1f32.to_bits()), 0x3f80_0000);
    for k in [i32::MIN, -2, -1, 0, 1, 0x3f80_0000, i32::MAX] {
        assert_eq!(grid::key(grid::unkey(k)), k);
    }
    assert_eq!(grid::unkey(-1), 0x8000_0000);
}

#[test]
fn a_beam_that_all_but_grazes_a_sphere_hits_it_at_its_rim() {
    let ball = Ball { center: Vec3::new(0.0, 0.0, -5.0), radius: 1.0, albedo: Vec3::ONE, emission: 0.0 };
    let beam = Beam { origin: Vec3::new(0.0, 0.9999, 0.0), direction: Vec3::new(0.0, 0.0, -1.0) };
    let t = ball.distance(&beam).unwrap();
    assert!((t - 5.0).abs() < 0.05, "{}", t);
    let point = beam.origin + t * beam.direction;
    assert!(((point - ball.center).length() - ball.radius).abs() < 1e-3);
}

#[test]
fn hierarchy_reports_every_sphere_that_a_beam_meets() {
    let mut balls = Vec::new();
    let mut rng = SmallRng::seed_from_u64(3);
    for _ in 0..200 {
        balls.push(Ball {
            center: Vec3::new(
                rng.gen_range(-20f32..20f32),
                rng.gen_range(-20f32..20f32),
                rng.gen_range(-40f32..-5f32),
            ),
            radius: rng.gen_range(0.2f32..2f32),
            albedo: Vec3::ONE,
            emission: 0.0,
        });
    }
    let world = World::new(balls.clone());
    for _ in 0..200 {
        let beam = through(rng.gen_range(0f32..1f32), rng.gen_range(0f32..1f32));
        let reported = world.bvh.traverse(|b: &Aabb| passes(&beam, b));
        for (p, ball) in balls.iter().enumerate() {
            if ball.distance(&beam).is_some() {
                assert!(reported.contains(&p));
            }
        }
    }
}
