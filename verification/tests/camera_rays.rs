use rand::rngs::StdRng;
use rand::SeedableRng;
use raytracer::fixed::{Fixed, SCALE};
use raytracer::geometry::vector3::Vector3;
use raytracer::scene::camera::Camera;

fn place(x: i64, y: i64, z: i64) -> Vector3 {
    Vector3::new(Fixed::from_int(x), Fixed::from_int(y), Fixed::from_int(z))
}

fn raw_place(x: i64, y: i64, z: i64) -> Vector3 {
    Vector3::new(Fixed::from_raw(x), Fixed::from_raw(y), Fixed::from_raw(z))
}

fn pinhole() -> Camera {
    Camera::new(
        place(0, 0, 0),
        place(0, 0, -1),
        place(0, 1, 0),
        Fixed::from_int(2),
        Fixed::one(),
        Fixed::zero(),
        Fixed::one(),
    )
}

fn with_lens() -> Camera {
    Camera::new(
        place(3, 3, 2),
        place(0, 0, -1),
        place(0, 1, 0),
        Fixed::from_ratio(16, 9),
        Fixed::from_raw(757318613),
        Fixed::from_ratio(1, 10),
        Fixed::from_int(27).sqrt(),
    )
}

#[test]
fn camera_along_the_axis_has_the_axes_of_the_world() {
    let camera = pinhole();
    assert_eq!(camera.origin, place(0, 0, 0));
    assert_eq!(camera.side, place(1, 0, 0));
    assert_eq!(camera.up, place(0, 1, 0));
    assert_eq!(camera.forward, place(0, 0, 1));
    assert_eq!(camera.horizontal, place(4, 0, 0));
    assert_eq!(camera.vertical, place(0, -2, 0));
    assert_eq!(camera.lens_radius, Fixed::zero());
}

#[test]
fn camera_with_a_lens_has_exact_values() {
    let camera = with_lens();
    assert_eq!(camera.origin, place(3, 3, 2));
    assert_eq!(camera.side, raw_place(3037000499, 0, -3037000499));
    assert_eq!(camera.up, raw_place(-1753413055, 3506826110, -1753413055));
    assert_eq!(camera.forward, raw_place(12884901885, 12884901885, 12884901885));
    assert_eq!(camera.horizontal, raw_place(9893568922, 0, -9893568922));
    assert_eq!(camera.vertical, raw_place(3213030754, -6426061513, 3213030754));
    assert_eq!(camera.lens_radius.raw, 214748364);
}

#[test]
fn camera_axes_are_at_right_angles() {
    let camera = with_lens();
    let forward = camera.forward.unit();
    assert!(Vector3::dot(&camera.side, &camera.up).raw.abs() <= 8);
    assert!(Vector3::dot(&camera.side, &forward).raw.abs() <= 8);
    assert!(Vector3::dot(&camera.up, &forward).raw.abs() <= 8);
    assert!((camera.side.len().raw - SCALE).abs() <= 8);
    assert!((camera.up.len().raw - SCALE).abs() <= 8);
}

#[test]
fn ray_through_the_middle_looks_at_the_target() {
    let camera = pinhole();
    let half = Fixed::from_ratio(1, 2);
    let ray = camera.ray_through(half, half, place(0, 0, 0));
    assert_eq!(ray.origin, place(0, 0, 0));
    assert_eq!(ray.direction, place(0, 0, -1));
}

#[test]
fn rays_through_the_corners_span_the_picture_from_the_top_left() {
    let camera = pinhole();
    let first = camera.ray_through(Fixed::zero(), Fixed::zero(), place(0, 0, 0));
    assert_eq!(first.direction, place(-2, 1, -1));
    let nearly_one = Fixed::from_raw(SCALE - 1);
    let last = camera.ray_through(nearly_one, nearly_one, place(0, 0, 0));
    assert_eq!(last.direction, raw_place(8589934588, -4294967294, -4294967296));
}

#[test]
fn lens_point_moves_the_origin_and_keeps_the_target() {
    let camera = with_lens();
    let lens = Vector3::new(Fixed::from_ratio(1, 2), Fixed::from_ratio(1, 4), Fixed::zero());
    let half = Fixed::from_ratio(1, 2);
    let ray = camera.ray_through(half, half, lens);
    assert_eq!(ray.origin, raw_place(12938909237, 12928737214, 8492091917));
    assert_eq!(ray.direction, raw_place(-12938909234, -12928737211, -12787059210));
    let central = camera.ray_through(Fixed::from_ratio(1, 4), Fixed::from_ratio(3, 4), place(0, 0, 0));
    assert_eq!(central.origin, place(3, 3, 2));
    assert_eq!(central.direction, raw_place(-14555036428, -14491417263, -9608251966));
}

#[test]
fn pinhole_camera_gives_the_same_ray_whatever_is_drawn() {
    let camera = pinhole();
    let u = Fixed::from_ratio(1, 3);
    let v = Fixed::from_ratio(2, 3);
    let expected = camera.ray_through(u, v, place(0, 0, 0));
    for seed in 0..20 {
        let mut rng = StdRng::seed_from_u64(seed);
        assert_eq!(camera.get_ray(u, v, &mut rng), expected);
    }
}

#[test]
fn lens_camera_starts_its_rays_on_the_lens() {
    let camera = with_lens();
    let half = Fixed::from_ratio(1, 2);
    let mut origins_differ = false;
    let mut rng = StdRng::seed_from_u64(21);
    let first = camera.get_ray(half, half, &mut rng);
    for _ in 0..50 {
        let ray = camera.get_ray(half, half, &mut rng);
        let offset = ray.origin.sub(camera.origin);
        assert!(offset.len().raw <= camera.lens_radius.raw + 8);
        let target = ray.origin.add(ray.direction);
        let central = camera.ray_through(half, half, place(0, 0, 0));
        let aim = central.origin.add(central.direction);
        let miss = target.sub(aim);
        assert!(miss.x.raw.abs() <= 8 && miss.y.raw.abs() <= 8 && miss.z.raw.abs() <= 8);
        origins_differ = origins_differ || ray.origin != first.origin;
    }
    assert!(origins_differ);
}

#[test]
fn rays_from_every_point_of_the_lens_meet_in_the_plane_in_focus() {
    let camera = with_lens();
    let mut rng = StdRng::seed_from_u64(22);
    let places = [(1, 4), (1, 2), (3, 4), (0, 1), (1, 1)];
    for (num, den) in places.iter() {
        let u = Fixed::from_ratio(*num, *den);
        let v = Fixed::from_ratio(*den - *num, *den);
        let central = camera.ray_through(u, v, place(0, 0, 0));
        let target = central.at(Fixed::one());
        for _ in 0..20 {
            let ray = camera.get_ray(u, v, &mut rng);
            assert_eq!(ray.at(Fixed::one()), target);
        }
    }
}

#[test]
fn camera_axes_are_unit_vectors_at_right_angles_within_the_bounds() {
    let mut rng = StdRng::seed_from_u64(23);
    let mut tried = 0;
    for _ in 0..300 {
        let origin = Vector3::random_vec(Fixed::from_int(-100), Fixed::from_int(100), &mut rng);
        let look_at = Vector3::random_vec(Fixed::from_int(-100), Fixed::from_int(100), &mut rng);
        let view_up = Vector3::random_vec(Fixed::from_int(-4), Fixed::from_int(4), &mut rng);
        let ahead = origin.sub(look_at).unit();
        let across = view_up.cross(&ahead);
        if origin.sub(look_at).len().raw < SCALE / 2 || across.len().raw < SCALE / 2 {
            continue;
        }
        tried += 1;
        let camera = Camera::new(
            origin,
            look_at,
            view_up,
            Fixed::from_ratio(16, 9),
            Fixed::from_ratio(1, 2),
            Fixed::from_ratio(1, 10),
            Fixed::from_int(3),
        );
        assert_eq!(camera.up, ahead.cross(&camera.side));
        assert!((camera.side.len().raw - SCALE).abs() <= 8);
        assert!((ahead.len().raw - SCALE).abs() <= 8);
        assert!(Vector3::dot(&camera.side, &ahead).raw.abs() <= 30);
        assert!(Vector3::dot(&camera.up, &ahead).raw.abs() <= 9);
        assert!(Vector3::dot(&camera.up, &camera.side).raw.abs() <= 9);
        let up_squared = camera.up.len_sq().raw;
        assert!(SCALE - 37 <= up_squared && up_squared <= SCALE + 54);
    }
    assert!(tried > 200);
}
