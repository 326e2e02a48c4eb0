use rand::rngs::StdRng;
use rand::SeedableRng;
use raytracer::fixed::{Fixed, SCALE};
use raytracer::geometry::ray::Ray;
use raytracer::geometry::vector3::Vector3;

fn whole(x: i64, y: i64, z: i64) -> Vector3 {
    Vector3::new(Fixed::from_int(x), Fixed::from_int(y), Fixed::from_int(z))
}

fn raw(x: i64, y: i64, z: i64) -> Vector3 {
    Vector3::new(Fixed::from_raw(x), Fixed::from_raw(y), Fixed::from_raw(z))
}

fn decimal(x: f64, y: f64, z: f64) -> Vector3 {
    raw(
        (x * 4294967296.0).round() as i64,
        (y * 4294967296.0).round() as i64,
        (z * 4294967296.0).round() as i64,
    )
}

#[test]
fn new_keeps_the_components() {
    let v = Vector3::new(Fixed::from_int(1), Fixed::from_int(2), Fixed::from_int(3));
    assert_eq!(v.x, Fixed::from_int(1));
    assert_eq!(v.y, Fixed::from_int(2));
    assert_eq!(v.z, Fixed::from_int(3));
}

#[test]
fn sums_differences_and_scalings_go_by_component() {
    let a = whole(1, 2, 3);
    let b = whole(4, -5, 6);
    assert_eq!(a.add(b), whole(5, -3, 9));
    assert_eq!(a.sub(b), whole(-3, 7, -3));
    assert_eq!(a.neg(), whole(-1, -2, -3));
    assert_eq!(a.scale(Fixed::from_int(-2)), whole(-2, -4, -6));
    assert_eq!(b.div(Fixed::from_int(2)), decimal(2.0, -2.5, 3.0));
    assert_eq!(a.modulate(b), whole(4, -10, 18));
}

#[test]
fn dot_product_of_whole_vectors() {
    assert_eq!(Vector3::dot(&whole(1, 2, 3), &whole(4, -5, 6)), Fixed::from_int(12));
    assert_eq!(Vector3::dot(&whole(1, 0, 0), &whole(0, 1, 0)), Fixed::zero());
}

#[test]
fn cross_product_of_whole_vectors() {
    assert_eq!(whole(1, 2, 3).cross(&whole(4, -5, 6)), whole(27, 6, -13));
    assert_eq!(whole(1, 0, 0).cross(&whole(0, 1, 0)), whole(0, 0, 1));
    assert_eq!(whole(0, 1, 0).cross(&whole(1, 0, 0)), whole(0, 0, -1));
}

#[test]
fn length_and_squared_length() {
    assert_eq!(whole(3, 4, 0).len_sq(), Fixed::from_int(25));
    assert_eq!(whole(3, 4, 0).len(), Fixed::from_int(5));
    assert_eq!(whole(0, 0, 0).len(), Fixed::zero());
    assert_eq!(whole(1, 1, 1).len().raw, 7439101573);
}

#[test]
fn unit_vector_has_exact_components() {
    assert_eq!(whole(3, 4, 0).unit(), raw(2576980377, 3435973836, 0));
    assert_eq!(whole(1, 2, 3).unit(), raw(1147878293, 2295756587, 3443634880));
    assert_eq!(whole(0, 0, -7).unit(), whole(0, 0, -1));
}

#[test]
fn unit_vector_has_length_one_within_tolerance() {
    let vectors = [
        whole(3, 4, 0),
        whole(1, 1, 1),
        whole(3, 4, 5),
        whole(1000, -2000, 500),
        decimal(0.3, -0.9, 12.5),
        decimal(-0.25, 0.5, 0.125),
        whole(0, -1, 0),
    ];
    for v in vectors.iter() {
        let length = v.unit().len().raw;
        assert!((length - SCALE).abs() <= 4, "length {} for {:?}", length, v);
    }
}

#[test]
fn unit_of_the_zero_vector_is_the_zero_vector() {
    assert_eq!(whole(0, 0, 0).unit(), whole(0, 0, 0));
}

#[test]
fn reflect_at_normal_incidence_returns_the_opposite() {
    let n = whole(0, 1, 0);
    let v = whole(0, -3, 0);
    assert_eq!(v.reflect(&n), v.neg());
    let m = whole(-1, 0, 0);
    let w = decimal(0.625, 0.0, 0.0);
    assert_eq!(w.reflect(&m), w.neg());
}

#[test]
fn reflect_at_normal_incidence_on_a_slanted_normal_is_close_to_the_opposite() {
    let n = whole(3, 4, 0).unit();
    let v = n.neg();
    let mirrored = v.reflect(&n);
    assert_eq!(mirrored, raw(2576980373, 3435973831, 0));
    assert!((mirrored.x.raw - v.neg().x.raw).abs() <= 8);
    assert!((mirrored.y.raw - v.neg().y.raw).abs() <= 8);
    assert_eq!(mirrored.z, Fixed::zero());
}

#[test]
fn reflect_turns_the_part_along_the_normal() {
    assert_eq!(whole(1, -1, 0).reflect(&whole(0, 1, 0)), whole(1, 1, 0));
    assert_eq!(whole(2, 3, -4).reflect(&whole(0, 0, 1)), whole(2, 3, 4));
    assert_eq!(whole(5, 0, 0).reflect(&whole(0, 1, 0)), whole(5, 0, 0));
}

#[test]
fn refract_at_normal_incidence_goes_straight_on() {
    let down = whole(0, 0, -1);
    let normal = whole(0, 0, 1);
    assert_eq!(Vector3::refract(&down, &normal, Fixed::one()), down);
    assert_eq!(Vector3::refract(&down, &normal, Fixed::from_ratio(2, 3)), down);
}

#[test]
fn refract_bends_toward_the_normal_in_the_denser_medium() {
    let incoming = whole(1, -1, 0).unit();
    assert_eq!(incoming, raw(3037000500, -3037000500, 0));
    let bent = Vector3::refract(&incoming, &whole(0, 1, 0), Fixed::from_ratio(2, 3));
    assert_eq!(bent, raw(2024666999, -3787805119, 0));
}

#[test]
fn lerp_mixes_two_vectors() {
    let white = whole(1, 1, 1);
    let blue = Vector3::new(Fixed::from_ratio(1, 2), Fixed::from_ratio(7, 10), Fixed::one());
    assert_eq!(Vector3::lerp(&white, &blue, Fixed::zero()), white);
    assert_eq!(Vector3::lerp(&white, &blue, Fixed::one()), blue);
    assert_eq!(
        Vector3::lerp(&white, &blue, Fixed::from_ratio(1, 4)),
        raw(3758096384, 3972844748, 4294967296)
    );
    assert_eq!(
        Vector3::lerp(&whole(0, 0, 0), &whole(10, 20, -30), Fixed::from_ratio(1, 2)),
        whole(5, 10, -15)
    );
}

#[test]
fn near_zero_compares_every_component_with_the_bound() {
    assert!(Vector3::near_zero(&raw(0, 0, 0)));
    assert!(Vector3::near_zero(&raw(42, -42, 42)));
    assert!(!Vector3::near_zero(&raw(43, 0, 0)));
    assert!(!Vector3::near_zero(&raw(0, -43, 0)));
    assert!(!Vector3::near_zero(&raw(0, 0, 43)));
    assert!(!Vector3::near_zero(&raw(42, 42, -43)));
    assert!(!Vector3::near_zero(&whole(0, 0, 1)));
    assert!(!Vector3::near_zero(&raw(i64::MIN, 0, 0)));
}

#[test]
fn square_root_in_place_goes_by_component() {
    let mut colour = Vector3::new(Fixed::from_ratio(1, 4), Fixed::from_int(9), Fixed::zero());
    colour.sqrt();
    assert_eq!(colour, Vector3::new(Fixed::from_ratio(1, 2), Fixed::from_int(3), Fixed::zero()));
    let mut dark = whole(-1, 0, 4);
    dark.sqrt();
    assert_eq!(dark, whole(0, 0, 2));
}

#[test]
fn between_places_samples_in_the_box() {
    let low = Fixed::from_int(2);
    let high = Fixed::from_int(5);
    let picked = Vector3::between(
        low,
        high,
        Fixed::zero(),
        Fixed::from_ratio(1, 2),
        Fixed::from_raw(SCALE - 1),
    );
    assert_eq!(picked, raw(8589934592, 15032385536, 21474836477));
}

#[test]
fn sphere_point_accepts_points_of_the_ball_only() {
    let half = Fixed::from_ratio(1, 2);
    let three_quarters = Fixed::from_ratio(3, 4);
    assert_eq!(Vector3::sphere_point(half, half, three_quarters), Some(whole(0, 0, 1)));
    assert_eq!(
        Vector3::sphere_point(three_quarters, three_quarters, half),
        Some(raw(3037000499, 3037000499, 0))
    );
    assert_eq!(Vector3::sphere_point(Fixed::zero(), half, half), Some(whole(-1, 0, 0)));
    assert_eq!(Vector3::sphere_point(Fixed::zero(), Fixed::zero(), Fixed::zero()), None);
    assert_eq!(Vector3::sphere_point(Fixed::from_raw(SCALE - 1), half, half), Some(whole(1, 0, 0)));
}

#[test]
fn sphere_point_rejects_the_centre_of_the_ball() {
    let half = Fixed::from_ratio(1, 2);
    assert_eq!(Vector3::sphere_point(half, half, half), None);
    let next = Fixed::from_raw(SCALE / 2 + 1);
    assert_eq!(Vector3::sphere_point(half, next, half), Some(whole(0, 1, 0)));
    assert_eq!(Vector3::sphere_point(half, half, Fixed::from_raw(SCALE / 2 - 1)), Some(whole(0, 0, -1)));
}

#[test]
fn disk_point_accepts_points_of_the_disk_only() {
    let half = Fixed::from_ratio(1, 2);
    let three_quarters = Fixed::from_ratio(3, 4);
    assert_eq!(Vector3::disk_point(half, half), Some(whole(0, 0, 0)));
    assert_eq!(Vector3::disk_point(three_quarters, half), Some(decimal(0.5, 0.0, 0.0)));
    assert_eq!(Vector3::disk_point(Fixed::zero(), half), Some(whole(-1, 0, 0)));
    assert_eq!(Vector3::disk_point(Fixed::zero(), Fixed::zero()), None);
    assert_eq!(Vector3::disk_point(Fixed::from_raw(SCALE - 1), Fixed::from_raw(SCALE - 1)), None);
}

#[test]
fn random_vec_stays_in_its_box() {
    let mut rng = StdRng::seed_from_u64(11);
    let low = Fixed::from_int(-3);
    let high = Fixed::from_int(2);
    for _ in 0..200 {
        let v = Vector3::random_vec(low, high, &mut rng);
        for c in [v.x, v.y, v.z].iter() {
            assert!(low.raw <= c.raw && c.raw < high.raw);
        }
    }
}

#[test]
fn random_vec_disk_stays_in_the_unit_disk() {
    let mut rng = StdRng::seed_from_u64(12);
    let mut left = false;
    let mut right = false;
    let mut above = false;
    let mut below = false;
    for _ in 0..200 {
        let v = Vector3::random_vec_disk(&mut rng);
        assert_eq!(v.z, Fixed::zero());
        assert!(v.len().raw <= SCALE);
        left = left || v.x.raw < 0;
        right = right || v.x.raw > 0;
        below = below || v.y.raw < 0;
        above = above || v.y.raw > 0;
    }
    assert!(left && right && above && below);
}

#[test]
fn random_vec_sphere_has_unit_length() {
    let mut rng = StdRng::seed_from_u64(13);
    for _ in 0..200 {
        let v = Vector3::random_vec_sphere(&mut rng);
        let length = v.len().raw;
        assert!(SCALE - 4 <= length && length <= SCALE, "{:?}", v);
    }
}

#[test]
fn random_vectors_repeat_for_the_same_seed() {
    let mut first = StdRng::seed_from_u64(99);
    let mut second = StdRng::seed_from_u64(99);
    let mut other = StdRng::seed_from_u64(100);
    let a = Vector3::random_vec_sphere(&mut first);
    let b = Vector3::random_vec_sphere(&mut second);
    let c = Vector3::random_vec_sphere(&mut other);
    assert_eq!(a, b);
    assert_ne!(a, c);
}

#[test]
fn ray_at_walks_along_the_direction() {
    let ray = Ray { origin: whole(1, 2, 3), direction: whole(0, 0, -2) };
    assert_eq!(ray.at(Fixed::zero()), whole(1, 2, 3));
    assert_eq!(ray.at(Fixed::from_int(2)), whole(1, 2, -1));
    assert_eq!(ray.at(Fixed::from_ratio(-1, 2)), whole(1, 2, 4));
}

#[test]
fn mirror_image_along_a_unit_normal_is_close_to_the_opposite() {
    let mut rng = StdRng::seed_from_u64(31);
    let lengths = [
        (Fixed::zero(), 1),
        (Fixed::from_raw(1), 1),
        (Fixed::from_ratio(1, 3), 1),
        (Fixed::from_ratio(9, 10), 1),
        (Fixed::one(), 1),
        (Fixed::from_ratio(7, 2), 4),
        (Fixed::from_int(100), 100),
        (Fixed::from_int(4096), 4096),
    ];
    for _ in 0..200 {
        let normal = Vector3::random_vec(Fixed::from_int(-40), Fixed::from_int(40), &mut rng);
        if normal == whole(0, 0, 0) {
            continue;
        }
        let normal = normal.unit();
        for (length, bound) in lengths.iter() {
            let along = normal.scale(*length);
            let mirrored = along.neg().reflect(&normal);
            let tolerance = 42 * bound + 17;
            assert!((mirrored.x.raw - along.x.raw).abs() <= tolerance);
            assert!((mirrored.y.raw - along.y.raw).abs() <= tolerance);
            assert!((mirrored.z.raw - along.z.raw).abs() <= tolerance);
        }
    }
}

#[test]
fn unit_vectors_of_random_vectors_have_length_one_within_the_proved_bounds() {
    let mut rng = StdRng::seed_from_u64(32);
    let reaches = [
        Fixed::from_raw(1),
        Fixed::from_raw(100),
        Fixed::from_raw(1 << 20),
        Fixed::one(),
        Fixed::from_int(16384),
        Fixed::from_int(1 << 28),
        Fixed::max(),
    ];
    let mut tried = 0;
    for reach in reaches.iter() {
        for _ in 0..200 {
            let v = Vector3::random_vec(reach.neg(), *reach, &mut rng);
            if v == whole(0, 0, 0) {
                continue;
            }
            tried += 1;
            let unit = v.unit();
            let length = unit.len().raw;
            assert!(SCALE - 4 <= length && length <= SCALE, "{:?}", v);
            assert!(unit.x.raw.abs() <= SCALE);
            assert!(unit.y.raw.abs() <= SCALE);
            assert!(unit.z.raw.abs() <= SCALE);
            assert!(unit.x.raw.signum() * v.x.raw.signum() >= 0);
            let squared = unit.len_sq().raw;
            assert!(SCALE - 11 <= squared && squared <= SCALE + 18);
        }
    }
    assert!(tried > 1000);
}

#[test]
fn short_vectors_are_scaled_to_unit_length_too() {
    let tiny = raw(3, 0, 0);
    assert_eq!(tiny.len(), Fixed::from_raw(3));
    assert_eq!(tiny.unit(), whole(1, 0, 0));
    assert_eq!(raw(98304, 0, 0).unit(), whole(1, 0, 0));
    assert_eq!(raw(0, 1, 0).unit(), whole(0, 1, 0));
    assert_eq!(raw(0, -50, 0).unit(), whole(0, -1, 0));
    assert_eq!(raw(1, 1, 0).unit(), raw(3037000500, 3037000500, 0));
    let small = decimal(0.001, -0.002, 0.0005);
    assert_eq!(small.unit(), raw(1874477216, -3748954870, 937238826));
    assert_eq!(small.unit().len().raw, SCALE - 1);
}

#[test]
fn long_vectors_are_scaled_to_unit_length_too() {
    let far = Vector3::new(Fixed::max(), Fixed::max().neg(), Fixed::max());
    assert_eq!(far.unit(), raw(2479700524, -2479700524, 2479700524));
    assert_eq!(far.len(), Fixed::max());
    let lowest = raw(i64::MIN, 0, 0);
    assert_eq!(lowest.unit(), whole(-1, 0, 0));
}

#[test]
fn length_is_taken_from_the_exact_squares() {
    assert_eq!(raw(3, 4, 0).len(), Fixed::from_raw(5));
    assert_eq!(raw(1, 1, 1).len(), Fixed::from_raw(1));
    assert_eq!(raw(0, 0, -7).len(), Fixed::from_raw(7));
    assert_eq!(decimal(0.5, 0.0, 0.0).len(), Fixed::from_ratio(1, 2));
}

#[test]
fn axis_vectors_are_exact_unit_vectors() {
    for axis in [whole(1, 0, 0), whole(-1, 0, 0), whole(0, 1, 0), whole(0, -1, 0), whole(0, 0, 1), whole(0, 0, -1)].iter() {
        assert_eq!(axis.len(), Fixed::one());
        assert_eq!(axis.unit(), *axis);
    }
}

#[test]
fn vectors_are_written_with_ten_decimal_places() {
    assert_eq!(whole(1, -2, 0).to_text(), "1.0000000000 -2.0000000000 0.0000000000");
    let mixed = Vector3::new(Fixed::from_ratio(-5, 2), Fixed::from_ratio(1, 3), Fixed::from_raw(-1));
    assert_eq!(mixed.to_text(), "-2.5000000000 0.3333333332 -0.0000000002");
    let widest = raw(i64::MAX, i64::MIN, 3006477107);
    assert_eq!(widest.to_text(), "2147483647.9999999997 -2147483648.0000000000 0.6999999999");
}

#[test]
fn numbers_are_split_into_sign_whole_part_and_fraction() {
    assert_eq!(Fixed::from_int(7).decimal_parts(), (false, 7, 0));
    assert_eq!(Fixed::from_ratio(-5, 2).decimal_parts(), (true, 2, 5000000000));
    assert_eq!(Fixed::from_raw(1431655765).decimal_parts(), (false, 0, 3333333332));
    assert_eq!(Fixed::from_raw(-1).decimal_parts(), (true, 0, 2));
    assert_eq!(Fixed::from_raw(i64::MIN).decimal_parts(), (true, 2147483648, 0));
    assert_eq!(Fixed::from_raw(429497).to_text(), "0.0001000000");
    assert_eq!(Fixed::from_raw(429496).to_text(), "0.0000999998");
}
