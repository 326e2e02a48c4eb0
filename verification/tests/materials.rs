use rand::rngs::StdRng;
use rand::SeedableRng;
use raytracer::fixed::{Fixed, SCALE};
use raytracer::geometry::hittable::HitResult;
use raytracer::geometry::ray::Ray;
use raytracer::geometry::vector3::Vector3;
use raytracer::material::dielectric::{reflectance, Dielectric};
use raytracer::material::lambertian::Lambertian;
use raytracer::material::metal::Metal;
use raytracer::material::{Material, MaterialKind};

fn vector(x: i64, y: i64, z: i64) -> Vector3 {
    Vector3::new(Fixed::from_int(x), Fixed::from_int(y), Fixed::from_int(z))
}

fn raw_vector(x: i64, y: i64, z: i64) -> Vector3 {
    Vector3::new(Fixed::from_raw(x), Fixed::from_raw(y), Fixed::from_raw(z))
}

fn grey() -> Vector3 {
    Vector3::new(Fixed::from_ratio(1, 2), Fixed::from_ratio(1, 2), Fixed::from_ratio(1, 2))
}

fn floor_hit<'a>() -> HitResult<'a> {
    HitResult {
        point: vector(0, 0, -2),
        t: Fixed::from_int(2),
        normal: vector(0, 0, 1),
        front_face: true,
        material: None,
    }
}

fn wall_hit<'a>(front_face: bool) -> HitResult<'a> {
    HitResult {
        point: vector(0, 0, 0),
        t: Fixed::from_int(1),
        normal: vector(0, 1, 0),
        front_face,
        material: None,
    }
}

fn falling() -> Ray {
    Ray { origin: vector(0, 0, 0), direction: vector(0, 0, -1) }
}

fn cosine_of(unit: &Vector3, normal: &Vector3) -> Fixed {
    Vector3::dot(&unit.neg(), normal).min(Fixed::one())
}

fn slanting() -> Ray {
    Ray { origin: vector(-1, 0, 0), direction: vector(1, 0, -1) }
}

#[test]
fn lambertian_scatters_along_normal_plus_sample() {
    let matte = Lambertian { albedo: grey() };
    let (attenuation, scattered) = matte.scatter_toward(&floor_hit(), vector(0, 1, 0));
    assert_eq!(attenuation, grey());
    assert_eq!(scattered.origin, vector(0, 0, -2));
    assert_eq!(scattered.direction, vector(0, 1, 1));
}

#[test]
fn lambertian_falls_back_to_the_normal_where_the_sample_cancels_it() {
    let matte = Lambertian { albedo: grey() };
    let (_, scattered) = matte.scatter_toward(&floor_hit(), vector(0, 0, -1));
    assert_eq!(scattered.direction, vector(0, 0, 1));
    let close = raw_vector(42, -42, 42 - SCALE);
    let (_, scattered) = matte.scatter_toward(&floor_hit(), close);
    assert_eq!(scattered.direction, vector(0, 0, 1));
    let apart = raw_vector(43, 0, -SCALE);
    let (_, scattered) = matte.scatter_toward(&floor_hit(), apart);
    assert_eq!(scattered.direction, raw_vector(43, 0, 0));
    assert_eq!(scattered.direction.unit(), vector(1, 0, 0));
}

#[test]
fn lambertian_always_scatters() {
    let matte = Lambertian { albedo: grey() };
    let hits = [floor_hit(), wall_hit(true), wall_hit(false)];
    for seed in 0..50 {
        let mut rng = StdRng::seed_from_u64(seed);
        for hit in hits.iter() {
            let (attenuation, scattered) = matte.scatter(&falling(), hit, &mut rng).unwrap();
            assert_eq!(attenuation, grey());
            assert_eq!(scattered.origin, hit.point);
            assert!(!Vector3::near_zero(&scattered.direction));
            assert!(Vector3::dot(&scattered.direction, &hit.normal).raw >= 0);
        }
    }
}

#[test]
fn polished_metal_mirrors_exactly() {
    let mirror = Metal { albedo: grey(), fuzz: Fixed::zero() };
    let expected = slanting().direction.reflect(&floor_hit().normal);
    assert_eq!(expected, vector(1, 0, 1));
    for seed in 0..20 {
        let mut rng = StdRng::seed_from_u64(seed);
        let (attenuation, scattered) = mirror.scatter(&slanting(), &floor_hit(), &mut rng).unwrap();
        assert_eq!(attenuation, grey());
        assert_eq!(scattered.origin, vector(0, 0, -2));
        assert_eq!(scattered.direction, expected);
    }
}

#[test]
fn metal_adds_fuzz_times_the_sample() {
    let rough = Metal { albedo: vector(1, 1, 1), fuzz: Fixed::from_ratio(1, 2) };
    let (attenuation, scattered) =
        rough.scatter_toward(&slanting(), &floor_hit(), vector(0, 1, 0)).unwrap();
    assert_eq!(attenuation, vector(1, 1, 1));
    assert_eq!(scattered.origin, vector(0, 0, -2));
    assert_eq!(
        scattered.direction,
        Vector3::new(Fixed::one(), Fixed::from_ratio(1, 2), Fixed::one())
    );
}

#[test]
fn metal_swallows_rays_that_point_into_the_surface() {
    let rough = Metal { albedo: vector(1, 1, 1), fuzz: Fixed::from_int(2) };
    assert!(rough.scatter_toward(&slanting(), &floor_hit(), vector(0, 0, -1)).is_none());
    let grazing = Metal { albedo: vector(1, 1, 1), fuzz: Fixed::one() };
    let (_, along) = grazing.scatter_toward(&slanting(), &floor_hit(), vector(0, 0, -1)).unwrap();
    assert_eq!(along.direction, vector(1, 0, 0));
}

#[test]
fn rough_metal_depends_on_what_is_drawn() {
    let rough = Metal { albedo: vector(1, 1, 1), fuzz: Fixed::from_ratio(1, 2) };
    let mut first = StdRng::seed_from_u64(1);
    let mut again = StdRng::seed_from_u64(1);
    let mut other = StdRng::seed_from_u64(2);
    let a = rough.scatter(&slanting(), &floor_hit(), &mut first).unwrap();
    let b = rough.scatter(&slanting(), &floor_hit(), &mut again).unwrap();
    let c = rough.scatter(&slanting(), &floor_hit(), &mut other).unwrap();
    assert_eq!(a, b);
    assert_ne!(a.1.direction, c.1.direction);
}

#[test]
fn reflectance_follows_schlick() {
    let glass = Fixed::from_ratio(3, 2);
    assert_eq!(reflectance(Fixed::one(), glass).raw, 171798691);
    assert_eq!(reflectance(Fixed::zero(), glass), Fixed::one());
    assert_eq!(reflectance(Fixed::from_ratio(1, 2), glass).raw, 300647709);
    assert_eq!(reflectance(Fixed::one(), Fixed::one()), Fixed::zero());
}

#[test]
fn matched_index_lets_a_ray_at_normal_incidence_pass_unchanged() {
    let air = Dielectric { ir: Fixed::one() };
    for draw in [0, 1, SCALE / 2, SCALE - 1].iter() {
        let (attenuation, scattered) =
            air.scatter_by(&falling(), &floor_hit(), Fixed::from_raw(*draw));
        assert_eq!(attenuation, vector(1, 1, 1));
        assert_eq!(scattered.origin, vector(0, 0, -2));
        assert_eq!(scattered.direction, falling().direction);
    }
    let mut rng = StdRng::seed_from_u64(5);
    let (_, scattered) = air.scatter(&falling(), &floor_hit(), &mut rng).unwrap();
    assert_eq!(scattered.direction, falling().direction);
}

#[test]
fn matched_index_at_a_grazing_angle_mirrors_or_bends_slightly() {
    let air = Dielectric { ir: Fixed::one() };
    let grazing = Ray { origin: vector(0, 0, 0), direction: vector(10, -1, 0) };
    let unit = grazing.direction.unit();
    let (_, mirrored) = air.scatter_by(&grazing, &wall_hit(true), Fixed::zero());
    assert_eq!(mirrored.direction, raw_vector(4273652190, 427365219, 0));
    let (_, passed) = air.scatter_by(&grazing, &wall_hit(true), Fixed::from_raw(SCALE - 1));
    assert_eq!(passed.direction, raw_vector(4273652190, -427365225, 0));
    assert!((passed.direction.y.raw - unit.y.raw).abs() <= 8);
    assert_eq!(passed.direction.x, unit.x);
}

#[test]
fn glass_mirrors_or_bends_by_the_number_drawn() {
    let glass = Dielectric { ir: Fixed::from_ratio(3, 2) };
    let (_, mirrored) = glass.scatter_by(&falling(), &floor_hit(), Fixed::zero());
    assert_eq!(mirrored.direction, vector(0, 0, 1));
    let (_, still_mirrored) = glass.scatter_by(&falling(), &floor_hit(), Fixed::from_raw(171798690));
    assert_eq!(still_mirrored.direction, vector(0, 0, 1));
    let (_, bent) = glass.scatter_by(&falling(), &floor_hit(), Fixed::from_raw(171798691));
    assert_eq!(bent.direction, vector(0, 0, -1));
}

#[test]
fn glass_takes_the_unit_direction_of_the_ray() {
    let glass = Dielectric { ir: Fixed::from_ratio(3, 2) };
    let fast = Ray { origin: vector(0, 0, 0), direction: vector(0, 0, -2) };
    let (attenuation, bent) = glass.scatter_by(&fast, &floor_hit(), Fixed::from_ratio(1, 2));
    assert_eq!(attenuation, vector(1, 1, 1));
    assert_eq!(bent.origin, vector(0, 0, -2));
    assert_eq!(bent.direction, vector(0, 0, -1));
}

#[test]
fn glass_bends_a_slanted_ray_on_the_way_in() {
    let glass = Dielectric { ir: Fixed::from_ratio(3, 2) };
    let ray = Ray { origin: vector(-1, 1, 0), direction: vector(1, -1, 0) };
    let (_, bent) = glass.scatter_by(&ray, &wall_hit(true), Fixed::from_ratio(9, 10));
    assert_eq!(bent.direction, raw_vector(2024666999, -3787805119, 0));
    let (_, mirrored) = glass.scatter_by(&ray, &wall_hit(true), Fixed::zero());
    assert_eq!(mirrored.direction, raw_vector(3037000500, 3037000500, 0));
}

#[test]
fn glass_mirrors_all_light_past_the_critical_angle() {
    let glass = Dielectric { ir: Fixed::from_ratio(3, 2) };
    let ray = Ray { origin: vector(-1, 1, 0), direction: vector(1, -1, 0) };
    let (attenuation, mirrored) =
        glass.scatter_by(&ray, &wall_hit(false), Fixed::from_raw(SCALE - 1));
    assert_eq!(attenuation, vector(1, 1, 1));
    assert_eq!(mirrored.direction, raw_vector(3037000500, 3037000500, 0));
}

#[test]
fn dielectric_always_scatters_and_keeps_all_light() {
    let glass = Dielectric { ir: Fixed::from_ratio(3, 2) };
    for seed in 0..50 {
        let mut rng = StdRng::seed_from_u64(seed);
        for hit in [floor_hit(), wall_hit(true), wall_hit(false)].iter() {
            let (attenuation, scattered) = glass.scatter(&slanting(), hit, &mut rng).unwrap();
            assert_eq!(attenuation, vector(1, 1, 1));
            assert_eq!(scattered.origin, hit.point);
        }
    }
}

#[test]
fn material_kind_scatters_as_its_material_does() {
    let hit = floor_hit();
    let mirror = Metal { albedo: grey(), fuzz: Fixed::zero() };
    let mut rng = StdRng::seed_from_u64(3);
    let by_kind = MaterialKind::Metal(mirror).scatter(&slanting(), &hit, &mut rng);
    assert_eq!(by_kind, mirror.scatter_toward(&slanting(), &hit, vector(0, 0, 0)));

    let matte = Lambertian { albedo: grey() };
    let mut first = StdRng::seed_from_u64(4);
    let mut second = StdRng::seed_from_u64(4);
    assert_eq!(
        MaterialKind::Lambertian(matte).scatter(&slanting(), &hit, &mut first),
        matte.scatter(&slanting(), &hit, &mut second)
    );

    let glass = Dielectric { ir: Fixed::from_ratio(3, 2) };
    let mut first = StdRng::seed_from_u64(4);
    let mut second = StdRng::seed_from_u64(4);
    assert_eq!(
        MaterialKind::Dielectric(glass).scatter(&slanting(), &hit, &mut first),
        glass.scatter(&slanting(), &hit, &mut second)
    );
}

#[test]
fn matched_index_passes_unmirrored_rays_within_the_bounds() {
    let air = Dielectric { ir: Fixed::one() };
    let mut rng = StdRng::seed_from_u64(51);
    let mut passed = 0;
    let reaches = [Fixed::from_raw(1000), Fixed::from_ratio(1, 100), Fixed::from_int(50)];
    for round in 0..2000 {
        let reach = reaches[round % 3];
        let direction = Vector3::random_vec(reach.neg(), reach, &mut rng);
        let mut normal = Vector3::random_vec(Fixed::from_int(-50), Fixed::from_int(50), &mut rng);
        if direction == vector(0, 0, 0) || normal == vector(0, 0, 0) {
            continue;
        }
        normal = normal.unit();
        let unit = direction.unit();
        if Vector3::dot(&unit.neg(), &normal).raw < 0 {
            normal = normal.neg();
        }
        let cosine = Vector3::dot(&unit.neg(), &normal).raw;
        let mut steep = 2;
        while steep < 4096 && cosine * steep < SCALE {
            steep *= 2;
        }
        let tolerance = if cosine * steep < SCALE { 693584 } else { 112 * steep + 3 };
        let hit = HitResult {
            point: vector(1, 2, 3),
            t: Fixed::one(),
            normal,
            front_face: passed % 2 == 0,
            material: None,
        };
        let ray = Ray { origin: vector(0, 0, 0), direction };
        let (_, out) = air.scatter_by(&ray, &hit, Fixed::from_raw(SCALE - 1));
        if Fixed::one().sub(cosine_of(&unit, &normal)).powi(5).raw > SCALE - 1 {
            continue;
        }
        passed += 1;
        assert!((out.direction.x.raw - unit.x.raw).abs() <= tolerance);
        assert!((out.direction.y.raw - unit.y.raw).abs() <= tolerance);
        assert!((out.direction.z.raw - unit.z.raw).abs() <= tolerance);
    }
    assert!(passed > 1000);
}

#[test]
fn matched_index_mirrors_by_the_fifth_power_of_one_less_the_cosine() {
    let air = Dielectric { ir: Fixed::one() };
    let slanted = Ray { origin: vector(0, 0, 0), direction: vector(3, -4, 0) };
    let hit = wall_hit(true);
    let cos = Vector3::dot(&slanted.direction.unit().neg(), &hit.normal);
    let share = Fixed::one().sub(cos).powi(5);
    assert_eq!(reflectance(cos, Fixed::one()), share);
    assert!(share.raw > 1);
    let (_, bent) = air.scatter_by(&slanted, &hit, share);
    assert!((bent.direction.y.raw - slanted.direction.unit().y.raw).abs() <= 227);
    assert!(bent.direction.y.raw < 0);
    let (_, mirrored) = air.scatter_by(&slanted, &hit, Fixed::from_raw(share.raw - 1));
    assert!(mirrored.direction.y.raw > 0);
}

#[test]
fn mirrored_rays_leave_a_clear_surface_with_unit_length() {
    let glass = Dielectric { ir: Fixed::from_ratio(3, 2) };
    let mut rng = StdRng::seed_from_u64(52);
    let reaches = [Fixed::from_raw(1000), Fixed::one(), Fixed::from_int(1000)];
    let mut mirrored = 0;
    for round in 0..3000 {
        let reach = reaches[round % 3];
        let direction = Vector3::random_vec(reach.neg(), reach, &mut rng);
        let normal = Vector3::random_vec(Fixed::from_int(-5), Fixed::from_int(5), &mut rng);
        if direction == vector(0, 0, 0) || normal == vector(0, 0, 0) {
            continue;
        }
        let hit = HitResult {
            point: vector(1, 2, 3),
            t: Fixed::one(),
            normal: normal.unit(),
            front_face: round % 2 == 0,
            material: None,
        };
        let ray = Ray { origin: vector(0, 0, 0), direction };
        let (_, out) = glass.scatter_by(&ray, &hit, Fixed::zero());
        if out.direction != direction.unit().reflect(&hit.normal) {
            continue;
        }
        mirrored += 1;
        let squared = out.direction.len_sq().raw;
        assert!(SCALE - 129 <= squared && squared <= SCALE + 136, "{:?} {:?}", ray, hit);
    }
    assert!(mirrored > 1000);
}

#[test]
fn matched_index_passes_grazing_rays_nearly_straight() {
    let air = Dielectric { ir: Fixed::one() };
    let normal = vector(0, 1, 0);
    let mut passed = 0;
    for step in 1..2000i64 {
        let direction = raw_vector(SCALE, -step * step * 7, step);
        let unit = direction.unit();
        let hit = HitResult {
            point: vector(0, 0, 0),
            t: Fixed::one(),
            normal,
            front_face: true,
            material: None,
        };
        let ray = Ray { origin: vector(0, 1, 0), direction };
        let (_, out) = air.scatter_by(&ray, &hit, Fixed::from_raw(SCALE - 1));
        if out.direction == unit.reflect(&normal) {
            continue;
        }
        passed += 1;
        assert!((out.direction.x.raw - unit.x.raw).abs() <= 693584, "{:?}", direction);
        assert!((out.direction.y.raw - unit.y.raw).abs() <= 693584, "{:?}", direction);
        assert!((out.direction.z.raw - unit.z.raw).abs() <= 693584, "{:?}", direction);
    }
    assert!(passed > 1000);
}

#[test]
fn every_ray_leaves_a_clear_surface_with_unit_length() {
    let materials = [
        Dielectric { ir: Fixed::from_ratio(3, 2) },
        Dielectric { ir: Fixed::one() },
        Dielectric { ir: Fixed::from_ratio(1, 4) },
        Dielectric { ir: Fixed::from_int(4) },
        Dielectric { ir: Fixed::from_ratio(4, 3) },
    ];
    let draws = [Fixed::zero(), Fixed::from_ratio(1, 2), Fixed::from_raw(SCALE - 1)];
    let mut rng = StdRng::seed_from_u64(53);
    let reaches = [Fixed::from_raw(1000), Fixed::one(), Fixed::from_int(1000)];
    let mut bent = 0;
    let mut mirrored = 0;
    for round in 0..6000 {
        let reach = reaches[round % 3];
        let direction = Vector3::random_vec(reach.neg(), reach, &mut rng);
        let mut normal = Vector3::random_vec(Fixed::from_int(-5), Fixed::from_int(5), &mut rng);
        if direction == vector(0, 0, 0) || normal == vector(0, 0, 0) {
            continue;
        }
        normal = normal.unit();
        let unit = direction.unit();
        if Vector3::dot(&unit.neg(), &normal).raw < 0 {
            normal = normal.neg();
        }
        if Vector3::dot(&unit.neg(), &normal).raw < 0 {
            continue;
        }
        let hit = HitResult {
            point: vector(1, 2, 3),
            t: Fixed::one(),
            normal,
            front_face: round % 2 == 0,
            material: None,
        };
        let ray = Ray { origin: vector(0, 0, 0), direction };
        let (_, out) = materials[round % 5].scatter_by(&ray, &hit, draws[round % 3]);
        let squared = out.direction.len_sq().raw;
        assert!(SCALE - 517 <= squared && squared <= SCALE + 1803, "{:?} {:?}", ray, hit);
        if out.direction == unit.reflect(&normal) {
            mirrored += 1;
            assert!(SCALE - 129 <= squared && squared <= SCALE + 136);
        } else {
            bent += 1;
        }
    }
    assert!(bent > 1000 && mirrored > 1000);
}
