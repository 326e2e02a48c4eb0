use rand::rngs::StdRng;
use rand::SeedableRng;
use raytracer::fixed::{Fixed, RAW_MAX, SCALE};
use raytracer::geometry::ray::Ray;
use raytracer::geometry::sphere::Sphere;
use raytracer::geometry::vector3::Vector3;
use raytracer::geometry::Geometry;
use raytracer::material::dielectric::Dielectric;
use raytracer::material::lambertian::Lambertian;
use raytracer::material::metal::Metal;
use raytracer::material::MaterialKind;
use raytracer::raytracer::{background, black, coordinate, quantize, ray_color, render};
use raytracer::scene::camera::Camera;
use raytracer::scene::Scene;

fn at(x: i64, y: i64, z: i64) -> Vector3 {
    Vector3::new(Fixed::from_int(x), Fixed::from_int(y), Fixed::from_int(z))
}

fn raws(x: i64, y: i64, z: i64) -> Vector3 {
    Vector3::new(Fixed::from_raw(x), Fixed::from_raw(y), Fixed::from_raw(z))
}

fn half_grey() -> Vector3 {
    Vector3::new(Fixed::from_ratio(1, 2), Fixed::from_ratio(1, 2), Fixed::from_ratio(1, 2))
}

fn sky_blue() -> Vector3 {
    Vector3::new(Fixed::from_ratio(1, 2), Fixed::from_ratio(7, 10), Fixed::one())
}

fn single_sphere(material: MaterialKind) -> Scene {
    let mut scene = Scene { objects: vec![] };
    scene.add(Geometry::Sphere(Sphere::new(at(0, 0, -1), Fixed::from_ratio(1, 2))), material);
    scene
}

fn matte_sphere() -> Scene {
    single_sphere(MaterialKind::Lambertian(Lambertian { albedo: half_grey() }))
}

fn unit_ball(material: MaterialKind) -> Scene {
    let mut scene = Scene { objects: vec![] };
    scene.add(Geometry::Sphere(Sphere::new(at(0, 0, 0), Fixed::one())), material);
    scene
}

fn front_camera() -> Camera {
    Camera::new(
        at(0, 0, 0),
        at(0, 0, -1),
        at(0, 1, 0),
        Fixed::from_int(2),
        Fixed::one(),
        Fixed::zero(),
        Fixed::one(),
    )
}

fn pixel(buffer: &[u8], width: usize, x: usize, y: usize) -> (u8, u8, u8, u8) {
    let i = 4 * (y * width + x);
    (buffer[i], buffer[i + 1], buffer[i + 2], buffer[i + 3])
}

#[test]
fn black_is_no_light() {
    assert_eq!(black(), at(0, 0, 0));
}

#[test]
fn ray_color_at_depth_zero_is_black() {
    let scenes = [
        Scene { objects: vec![] },
        matte_sphere(),
        unit_ball(MaterialKind::Metal(Metal { albedo: half_grey(), fuzz: Fixed::zero() })),
    ];
    let rays = [
        Ray { origin: at(0, 0, 0), direction: at(0, 0, -1) },
        Ray { origin: at(0, 0, 0), direction: at(0, 1, 0) },
        Ray { origin: at(0, 5, 0), direction: at(0, -1, 0) },
        Ray { origin: at(1, 2, 3), direction: at(0, 0, 0) },
    ];
    let mut rng = StdRng::seed_from_u64(1);
    for scene in scenes.iter() {
        for ray in rays.iter() {
            assert_eq!(ray_color(*ray, scene, 0, &mut rng), at(0, 0, 0));
        }
    }
}

#[test]
fn sky_is_blue_straight_up_and_white_straight_down() {
    let empty = Scene { objects: vec![] };
    let mut rng = StdRng::seed_from_u64(2);
    let up = Ray { origin: at(0, 0, 0), direction: at(0, 1, 0) };
    let colour = ray_color(up, &empty, 5, &mut rng);
    assert_eq!(colour, sky_blue());
    assert_eq!(colour, raws(2147483648, 3006477107, 4294967296));
    let down = Ray { origin: at(0, 0, 0), direction: at(0, -1, 0) };
    assert_eq!(ray_color(down, &empty, 5, &mut rng), at(1, 1, 1));
    assert_eq!(background(&up), sky_blue());
    assert_eq!(background(&down), at(1, 1, 1));
}

#[test]
fn sky_between_top_and_bottom_is_mixed_by_height() {
    let level = Ray { origin: at(0, 0, 0), direction: at(1, 0, 0) };
    assert_eq!(background(&level), raws(3221225472, 3650722201, 4294967296));
    let rising = Ray { origin: at(7, 7, 7), direction: at(3, 4, 0) };
    assert_eq!(background(&rising), raws(2362232013, 3135326126, 4294967296));
    let long = Ray { origin: at(0, 0, 0), direction: at(0, 250, 0) };
    assert_eq!(background(&long), sky_blue());
}

#[test]
fn ray_that_misses_every_sphere_sees_the_sky() {
    let scene = matte_sphere();
    let mut rng = StdRng::seed_from_u64(3);
    let up = Ray { origin: at(0, 0, 0), direction: at(0, 1, 0) };
    assert_eq!(ray_color(up, &scene, 3, &mut rng), sky_blue());
}

#[test]
fn polished_mirror_shows_the_sky_dimmed_by_its_albedo() {
    let scene = unit_ball(MaterialKind::Metal(Metal { albedo: half_grey(), fuzz: Fixed::zero() }));
    let down = Ray { origin: at(0, 5, 0), direction: at(0, -1, 0) };
    let mut rng = StdRng::seed_from_u64(4);
    assert_eq!(ray_color(down, &scene, 2, &mut rng), raws(1073741824, 1503238553, 2147483648));
    assert_eq!(ray_color(down, &scene, 7, &mut rng), raws(1073741824, 1503238553, 2147483648));
    assert_eq!(ray_color(down, &scene, 1, &mut rng), at(0, 0, 0));

    let gold = Vector3::new(Fixed::from_ratio(8, 10), Fixed::from_ratio(6, 10), Fixed::from_ratio(2, 10));
    let golden = unit_ball(MaterialKind::Metal(Metal { albedo: gold, fuzz: Fixed::zero() }));
    assert_eq!(ray_color(down, &golden, 2, &mut rng), raws(1717986918, 1803886263, 858993459));
}

#[test]
fn swallowed_ray_brings_no_light() {
    let rough = unit_ball(MaterialKind::Metal(Metal { albedo: at(1, 1, 1), fuzz: Fixed::from_int(50) }));
    let down = Ray { origin: at(0, 5, 0), direction: at(0, -1, 0) };
    let mut dark = 0;
    let mut lit = 0;
    for seed in 0..40 {
        let mut rng = StdRng::seed_from_u64(seed);
        let colour = ray_color(down, &rough, 2, &mut rng);
        if colour == at(0, 0, 0) {
            dark += 1;
        } else {
            lit += 1;
        }
    }
    assert!(dark > 0 && lit > 0);
}

#[test]
fn matte_sphere_dims_what_it_scatters() {
    let scene = matte_sphere();
    let ahead = Ray { origin: at(0, 0, 0), direction: at(0, 0, -1) };
    for seed in 0..20 {
        let mut rng = StdRng::seed_from_u64(seed);
        assert_eq!(ray_color(ahead, &scene, 1, &mut rng), at(0, 0, 0));
        let colour = ray_color(ahead, &scene, 50, &mut rng);
        assert!(colour.x.raw <= SCALE / 2 && colour.y.raw <= SCALE / 2 && colour.z.raw <= SCALE / 2);
        assert!(colour.x.raw >= 0 && colour.y.raw >= 0 && colour.z.raw >= 0);
    }
}

#[test]
fn glass_sphere_keeps_all_the_light_of_the_sky() {
    let scene = unit_ball(MaterialKind::Dielectric(Dielectric { ir: Fixed::from_ratio(3, 2) }));
    let down = Ray { origin: at(0, 5, 0), direction: at(0, -1, 0) };
    for seed in 0..20 {
        let mut rng = StdRng::seed_from_u64(seed);
        let colour = ray_color(down, &scene, 50, &mut rng);
        assert!(colour == sky_blue() || colour == at(1, 1, 1), "{:?}", colour);
    }
}

#[test]
fn coordinate_places_a_sample_in_the_picture() {
    assert_eq!(coordinate(Fixed::from_ratio(1, 2), 3, 16).raw, 939524096);
    assert_eq!(coordinate(Fixed::zero(), 0, 16), Fixed::zero());
    assert_eq!(coordinate(Fixed::from_raw(SCALE - 1), 15, 16).raw, SCALE - 1);
    assert_eq!(coordinate(Fixed::from_ratio(1, 4), 2, 0).raw, RAW_MAX);
}

#[test]
fn quantize_averages_takes_the_root_and_scales() {
    let one = Vector3::new(Fixed::one(), Fixed::from_ratio(1, 4), Fixed::zero());
    assert_eq!(quantize(one, 1), (255, 127, 0));
    assert_eq!(quantize(at(4, 2, 1), 4), (255, 180, 127));
    assert_eq!(quantize(at(0, 0, 0), 9), (0, 0, 0));
}

#[test]
fn quantize_clamps_channels_out_of_range() {
    let wild = Vector3::new(Fixed::from_int(9), Fixed::from_int(-1), Fixed::from_ratio(1, 2));
    assert_eq!(quantize(wild, 2), (255, 0, 127));
    assert_eq!(quantize(at(1000, 1000, 1000), 1), (255, 255, 255));
}

#[test]
fn quantize_of_no_samples_divides_by_zero() {
    assert_eq!(quantize(at(1, 1, 1), 0), (255, 255, 255));
    assert_eq!(quantize(at(0, 0, 0), 0), (0, 0, 0));
    let mixed = Vector3::new(Fixed::from_int(-1), Fixed::zero(), Fixed::from_ratio(1, 3));
    assert_eq!(quantize(mixed, 0), (0, 0, 255));
}

#[test]
fn render_fills_rows_of_opaque_pixels() {
    let scene = matte_sphere();
    let camera = front_camera();
    let mut rng = StdRng::seed_from_u64(5);
    let buffer = render(&scene, &camera, 16, 8, 2, 3, &mut rng);
    assert_eq!(buffer.len(), 16 * 8 * 4);
    for y in 0..8 {
        for x in 0..16 {
            assert_eq!(pixel(&buffer, 16, x, y).3, 255);
        }
    }
}

#[test]
fn render_of_an_empty_picture_is_empty() {
    let scene = matte_sphere();
    let camera = front_camera();
    let mut rng = StdRng::seed_from_u64(6);
    assert!(render(&scene, &camera, 0, 8, 1, 1, &mut rng).is_empty());
    assert!(render(&scene, &camera, 8, 0, 1, 1, &mut rng).is_empty());
    assert!(render(&scene, &camera, 0, 0, 1, 1, &mut rng).is_empty());
}

#[test]
fn render_at_depth_zero_is_black() {
    let scene = matte_sphere();
    let camera = front_camera();
    let mut rng = StdRng::seed_from_u64(7);
    let buffer = render(&scene, &camera, 6, 4, 3, 0, &mut rng);
    assert_eq!(buffer.len(), 6 * 4 * 4);
    for y in 0..4 {
        for x in 0..6 {
            assert_eq!(pixel(&buffer, 6, x, y), (0, 0, 0, 255));
        }
    }
}

#[test]
fn render_without_samples_is_black() {
    let scene = matte_sphere();
    let camera = front_camera();
    let mut rng = StdRng::seed_from_u64(8);
    let buffer = render(&scene, &camera, 4, 2, 0, 5, &mut rng);
    assert_eq!(buffer.len(), 4 * 2 * 4);
    for y in 0..2 {
        for x in 0..4 {
            assert_eq!(pixel(&buffer, 4, x, y), (0, 0, 0, 255));
        }
    }
}

#[test]
fn render_of_the_sky_is_bluer_at_the_top() {
    let empty = Scene { objects: vec![] };
    let camera = front_camera();
    let mut rng = StdRng::seed_from_u64(9);
    let buffer = render(&empty, &camera, 4, 8, 4, 2, &mut rng);
    let top = pixel(&buffer, 4, 1, 0);
    let bottom = pixel(&buffer, 4, 1, 7);
    assert!(top.0 < bottom.0);
    assert!(top.1 < bottom.1);
    assert_eq!(top.2, 255);
    assert_eq!(bottom.2, 255);
}

#[test]
fn render_repeats_for_the_same_seed_and_is_dark_where_the_sphere_is() {
    let scene = matte_sphere();
    let camera = front_camera();
    let mut first = StdRng::seed_from_u64(2024);
    let mut second = StdRng::seed_from_u64(2024);
    let one = render(&scene, &camera, 16, 8, 1, 1, &mut first);
    let two = render(&scene, &camera, 16, 8, 1, 1, &mut second);
    assert_eq!(one, two);

    for (x, y) in [(7, 3), (8, 3), (7, 4), (8, 4)].iter() {
        assert_eq!(pixel(&one, 16, *x, *y), (0, 0, 0, 255));
    }
    for (x, y) in [(0, 0), (15, 0), (0, 7), (15, 7), (0, 4), (15, 3), (8, 0), (8, 7)].iter() {
        let edge = pixel(&one, 16, *x, *y);
        assert!(edge.0 >= 180 && edge.1 >= 200 && edge.2 == 255, "{:?}", edge);
    }
}

#[test]
fn render_with_one_sample_shows_the_sky_through_the_pixel() {
    let empty = Scene { objects: vec![] };
    let camera = front_camera();
    let mut rng = StdRng::seed_from_u64(10);
    let buffer = render(&empty, &camera, 16, 8, 1, 1, &mut rng);
    let first = pixel(&buffer, 16, 0, 0);
    assert!((204..=208).contains(&first.0) && (225..=229).contains(&first.1));
    let last = pixel(&buffer, 16, 15, 7);
    assert!((232..=236).contains(&last.0) && (240..=244).contains(&last.1));
}

#[test]
fn render_depends_on_the_seed_where_light_is_scattered() {
    let scene = matte_sphere();
    let camera = front_camera();
    let mut first = StdRng::seed_from_u64(1);
    let mut second = StdRng::seed_from_u64(2);
    let one = render(&scene, &camera, 16, 8, 1, 4, &mut first);
    let two = render(&scene, &camera, 16, 8, 1, 4, &mut second);
    assert_eq!(one.len(), two.len());
    assert_ne!(one, two);
}

fn tenths(x: i64, y: i64, z: i64) -> Vector3 {
    Vector3::new(Fixed::from_ratio(x, 10), Fixed::from_ratio(y, 10), Fixed::from_ratio(z, 10))
}

fn five_spheres() -> Scene {
    let mut scene = Scene { objects: vec![] };
    scene.add(
        Geometry::Sphere(Sphere::new(tenths(0, -1005, -10), Fixed::from_int(100))),
        MaterialKind::Lambertian(Lambertian { albedo: tenths(8, 8, 0) }),
    );
    scene.add(
        Geometry::Sphere(Sphere::new(tenths(0, 0, -10), Fixed::from_ratio(1, 2))),
        MaterialKind::Lambertian(Lambertian { albedo: tenths(1, 2, 5) }),
    );
    scene.add(
        Geometry::Sphere(Sphere::new(tenths(-10, 0, -10), Fixed::from_ratio(1, 2))),
        MaterialKind::Dielectric(Dielectric { ir: Fixed::from_ratio(3, 2) }),
    );
    scene.add(
        Geometry::Sphere(Sphere::new(tenths(-10, 0, -10), Fixed::from_ratio(-4, 10))),
        MaterialKind::Dielectric(Dielectric { ir: Fixed::from_ratio(3, 2) }),
    );
    scene.add(
        Geometry::Sphere(Sphere::new(tenths(10, 0, -10), Fixed::from_ratio(1, 2))),
        MaterialKind::Metal(Metal { albedo: tenths(8, 6, 2), fuzz: Fixed::zero() }),
    );
    scene
}

#[test]
fn scene_of_five_spheres_shows_the_ground_and_the_spheres() {
    let scene = five_spheres();
    let camera = Camera::new(
        at(3, 3, 2),
        at(0, 0, -1),
        at(0, 1, 0),
        Fixed::from_ratio(16, 9),
        Fixed::from_raw(757318613),
        Fixed::from_ratio(1, 10),
        Fixed::from_int(27).sqrt(),
    );
    let mut rng = StdRng::seed_from_u64(3);
    let width = 32;
    let height = 18;
    let buffer = render(&scene, &camera, width, height, 24, 12, &mut rng);
    assert_eq!(buffer.len(), width * height * 4);

    let mut ground = 0;
    let mut blue = 0;
    let mut gold = 0;
    for y in 0..height {
        for x in 0..width {
            let p = pixel(&buffer, width, x, y);
            assert_eq!(p.3, 255);
            if p.2 < 16 && p.0 > 60 && p.1 > 60 {
                ground += 1;
            }
            if p.2 > p.0 && p.2 > p.1 {
                blue += 1;
            }
            if p.0 > p.1 && p.1 > p.2 && p.2 > 60 {
                gold += 1;
            }
        }
    }
    assert!(ground > width * height / 4, "{}", ground);
    assert!(blue > 4, "{}", blue);
    assert!(gold > 4, "{}", gold);
    for (x, y) in [(0, 0), (31, 0), (0, 17), (31, 17)].iter() {
        let corner = pixel(&buffer, width, *x, *y);
        assert!(corner.2 < 16 && corner.0 > 60 && corner.1 > 60, "{:?}", corner);
    }
}

#[test]
fn sky_behind_a_very_short_direction_is_the_sky_of_its_unit_direction() {
    let up = Ray { origin: at(0, 0, 0), direction: raws(0, 98304, 0) };
    assert_eq!(background(&up), sky_blue());
    let shortest = Ray { origin: at(0, 0, 0), direction: raws(0, 1, 0) };
    assert_eq!(background(&shortest), sky_blue());
    let down = Ray { origin: at(0, 0, 0), direction: raws(0, -50, 0) };
    assert_eq!(background(&down), at(1, 1, 1));
    let level = Ray { origin: at(0, 0, 0), direction: raws(7, 0, 0) };
    assert_eq!(background(&level), raws(3221225472, 3650722201, 4294967296));
    let nowhere = Ray { origin: at(0, 0, 0), direction: at(0, 0, 0) };
    assert_eq!(background(&nowhere), raws(3221225472, 3650722201, 4294967296));
}

#[test]
fn sky_lies_between_white_and_blue_in_every_direction() {
    let mut rng = StdRng::seed_from_u64(71);
    let reaches = [Fixed::from_raw(3), Fixed::from_raw(100000), Fixed::one(), Fixed::from_int(1 << 20), Fixed::max()];
    for round in 0..2000 {
        let reach = reaches[round % 5];
        let direction = Vector3::random_vec(reach.neg(), reach, &mut rng);
        let colour = background(&Ray { origin: at(0, 0, 0), direction });
        assert!(SCALE / 2 <= colour.x.raw && colour.x.raw <= SCALE, "{:?}", direction);
        assert!(3006477107 <= colour.y.raw && colour.y.raw <= SCALE, "{:?}", direction);
        assert_eq!(colour.z.raw, SCALE);
    }
}

#[test]
fn colours_stay_between_black_and_white_for_albedos_up_to_one() {
    let mut scene = Scene { objects: vec![] };
    scene.add(
        Geometry::Sphere(Sphere::new(at(0, -101, -1), Fixed::from_int(100))),
        MaterialKind::Lambertian(Lambertian { albedo: at(1, 1, 1) }),
    );
    scene.add(
        Geometry::Sphere(Sphere::new(at(0, 0, -2), Fixed::one())),
        MaterialKind::Metal(Metal { albedo: at(1, 1, 0), fuzz: Fixed::from_ratio(1, 2) }),
    );
    scene.add(
        Geometry::Sphere(Sphere::new(at(-2, 0, -2), Fixed::one())),
        MaterialKind::Dielectric(Dielectric { ir: Fixed::from_ratio(3, 2) }),
    );
    let mut rng = StdRng::seed_from_u64(72);
    for _ in 0..500 {
        let direction = Vector3::random_vec(Fixed::from_int(-1), Fixed::from_int(1), &mut rng);
        let ray = Ray { origin: at(0, 0, 0), direction };
        let colour = ray_color(ray, &scene, 8, &mut rng);
        for channel in [colour.x, colour.y, colour.z].iter() {
            assert!(0 <= channel.raw && channel.raw <= SCALE, "{:?} {:?}", ray, colour);
        }
    }
}
