use raytracer::fixed::Fixed;
use raytracer::geometry::hittable::Hittable;
use raytracer::geometry::ray::Ray;
use raytracer::geometry::sphere::Sphere;
use raytracer::geometry::vector3::Vector3;
use raytracer::geometry::Geometry;
use raytracer::material::dielectric::Dielectric;
use raytracer::material::lambertian::Lambertian;
use raytracer::material::metal::Metal;
use raytracer::material::MaterialKind;
use raytracer::scene::Scene;
use rand::rngs::StdRng;
use rand::SeedableRng;

fn point(x: i64, y: i64, z: i64) -> Vector3 {
    Vector3::new(Fixed::from_int(x), Fixed::from_int(y), Fixed::from_int(z))
}

fn raw_point(x: i64, y: i64, z: i64) -> Vector3 {
    Vector3::new(Fixed::from_raw(x), Fixed::from_raw(y), Fixed::from_raw(z))
}

fn lower() -> Fixed {
    Fixed::from_ratio(1, 10_000)
}

fn down_z() -> Ray {
    Ray { origin: point(0, 0, 0), direction: point(0, 0, -1) }
}

fn ball(z_tenths: i64, radius: i64) -> Geometry {
    Geometry::Sphere(Sphere::new(
        Vector3::new(Fixed::zero(), Fixed::zero(), Fixed::from_ratio(z_tenths, 10)),
        Fixed::from_int(radius),
    ))
}

fn matte() -> MaterialKind {
    MaterialKind::Lambertian(Lambertian { albedo: point(1, 1, 1) })
}

fn mirror() -> MaterialKind {
    MaterialKind::Metal(Metal { albedo: point(1, 1, 1), fuzz: Fixed::zero() })
}

fn glass() -> MaterialKind {
    MaterialKind::Dielectric(Dielectric { ir: Fixed::from_ratio(3, 2) })
}

#[test]
fn sphere_new_keeps_centre_and_radius() {
    let sphere = Sphere::new(point(1, 2, 3), Fixed::from_int(4));
    assert_eq!(sphere.origin, point(1, 2, 3));
    assert_eq!(sphere.radius, Fixed::from_int(4));
}

#[test]
fn ray_through_the_centre_hits_at_the_distance_to_the_surface() {
    let sphere = Sphere::new(point(0, 0, -3), Fixed::from_int(1));
    let hit = sphere.hit(&down_z(), lower(), Fixed::max()).unwrap();
    assert_eq!(hit.t, Fixed::from_int(2));
    assert_eq!(hit.point, point(0, 0, -2));
    assert_eq!(hit.normal, point(0, 0, 1));
    assert_eq!(hit.normal, down_z().direction.neg());
    assert!(hit.front_face);
    assert!(hit.material.is_none());
}

#[test]
fn slanted_ray_through_the_centre_has_a_normal_along_the_ray() {
    let direction = point(1, 2, 2).unit();
    assert_eq!(direction, raw_point(1431655765, 2863311530, 2863311530));
    let sphere = Sphere::new(point(3, 6, 6), Fixed::from_int(3));
    let ray = Ray { origin: point(0, 0, 0), direction };
    let hit = sphere.hit(&ray, lower(), Fixed::max()).unwrap();
    assert_eq!(hit.t.raw, 25769803770);
    assert_eq!(hit.point, raw_point(8589934588, 17179869176, 17179869176));
    assert_eq!(hit.normal, raw_point(-1431655765, -2863311530, -2863311530));
    assert_eq!(hit.normal, direction.neg());
    assert!(hit.front_face);
    let across = hit.normal.cross(&direction);
    assert!(across.x.raw.abs() <= 8 && across.y.raw.abs() <= 8 && across.z.raw.abs() <= 8);
}

#[test]
fn the_parameter_counts_in_units_of_the_direction() {
    let sphere = Sphere::new(point(0, 0, -3), Fixed::from_int(1));
    let ray = Ray { origin: point(0, 0, 0), direction: point(0, 0, -2) };
    let hit = sphere.hit(&ray, lower(), Fixed::max()).unwrap();
    assert_eq!(hit.t, Fixed::from_int(1));
    assert_eq!(hit.point, point(0, 0, -2));
    assert_eq!(hit.normal, point(0, 0, 1));
}

#[test]
fn ray_from_inside_hits_the_back_face() {
    let sphere = Sphere::new(point(0, 0, -3), Fixed::from_int(1));
    let ray = Ray { origin: point(0, 0, -3), direction: point(0, 0, -1) };
    let hit = sphere.hit(&ray, lower(), Fixed::max()).unwrap();
    assert_eq!(hit.t, Fixed::from_int(1));
    assert_eq!(hit.point, point(0, 0, -4));
    assert_eq!(hit.normal, point(0, 0, 1));
    assert!(!hit.front_face);
}

#[test]
fn negative_radius_turns_the_surface_inside_out() {
    let sphere = Sphere::new(point(0, 0, -3), Fixed::from_int(-1));
    let hit = sphere.hit(&down_z(), lower(), Fixed::max()).unwrap();
    assert_eq!(hit.t, Fixed::from_int(2));
    assert_eq!(hit.point, point(0, 0, -2));
    assert_eq!(hit.normal, point(0, 0, 1));
    assert!(!hit.front_face);
}

#[test]
fn rays_that_pass_by_or_point_away_miss() {
    let sphere = Sphere::new(point(0, 0, -3), Fixed::from_int(1));
    let up = Ray { origin: point(0, 0, 0), direction: point(0, 1, 0) };
    assert!(sphere.hit(&up, lower(), Fixed::max()).is_none());
    let behind = Sphere::new(point(0, 0, 3), Fixed::from_int(1));
    assert!(behind.hit(&down_z(), lower(), Fixed::max()).is_none());
    let still = Ray { origin: point(0, 0, 0), direction: point(0, 0, 0) };
    assert!(sphere.hit(&still, lower(), Fixed::max()).is_none());
}

#[test]
fn the_interval_selects_the_root() {
    let sphere = Sphere::new(point(0, 0, -3), Fixed::from_int(1));
    let ray = down_z();
    assert!(sphere.hit(&ray, lower(), Fixed::from_ratio(3, 2)).is_none());
    let far = sphere.hit(&ray, Fixed::from_ratio(5, 2), Fixed::from_int(10)).unwrap();
    assert_eq!(far.t, Fixed::from_int(4));
    assert_eq!(far.point, point(0, 0, -4));
    assert_eq!(far.normal, point(0, 0, 1));
    assert!(!far.front_face);
    assert!(sphere.hit(&ray, Fixed::from_ratio(9, 2), Fixed::from_int(10)).is_none());
    assert!(sphere.hit(&ray, Fixed::from_int(3), Fixed::from_ratio(7, 2)).is_none());
}

#[test]
fn both_ends_of_the_interval_count() {
    let sphere = Sphere::new(point(0, 0, -3), Fixed::from_int(1));
    let ray = down_z();
    let at_upper = sphere.hit(&ray, lower(), Fixed::from_int(2)).unwrap();
    assert_eq!(at_upper.t, Fixed::from_int(2));
    let at_lower = sphere.hit(&ray, Fixed::from_int(2), Fixed::from_int(3)).unwrap();
    assert_eq!(at_lower.t, Fixed::from_int(2));
    let past = Fixed::from_int(2).add(Fixed::from_raw(1));
    let next = sphere.hit(&ray, past, Fixed::from_int(10)).unwrap();
    assert_eq!(next.t, Fixed::from_int(4));
}

#[test]
fn oblique_hit_has_exact_values() {
    let sphere = Sphere::new(point(0, 0, -1), Fixed::from_ratio(1, 2));
    let ray = Ray {
        origin: point(0, 0, 0),
        direction: Vector3::new(Fixed::from_ratio(1, 4), Fixed::zero(), Fixed::from_int(-1)),
    };
    let hit = sphere.hit(&ray, lower(), Fixed::max()).unwrap();
    assert_eq!(hit.t.raw, 2220472183);
    assert_eq!(hit.point, raw_point(555118045, 0, -2220472183));
    assert_eq!(hit.normal, raw_point(1110236090, 0, 4148990226));
    assert!(hit.front_face);
    assert!(Vector3::dot(&ray.direction, &hit.normal).raw <= 0);
}

#[test]
fn geometry_hits_as_its_sphere_does() {
    let sphere = Sphere::new(point(0, 0, -3), Fixed::from_int(1));
    let geometry = Geometry::Sphere(sphere);
    let hit = geometry.hit(&down_z(), lower(), Fixed::max()).unwrap();
    assert_eq!(hit.t, Fixed::from_int(2));
    assert!(hit.material.is_none());
    let up = Ray { origin: point(0, 0, 0), direction: point(0, 1, 0) };
    assert!(geometry.hit(&up, lower(), Fixed::max()).is_none());
}

#[test]
fn add_appends_objects_in_order() {
    let mut scene = Scene { objects: vec![] };
    scene.add(ball(-30, 1), matte());
    scene.add(ball(-60, 2), mirror());
    assert_eq!(scene.objects.len(), 2);
    assert_eq!(scene.objects[0].geometry, ball(-30, 1));
    assert_eq!(scene.objects[0].material, matte());
    assert_eq!(scene.objects[1].geometry, ball(-60, 2));
    assert_eq!(scene.objects[1].material, mirror());
}

#[test]
fn object_hit_carries_its_material() {
    let mut scene = Scene { objects: vec![] };
    scene.add(ball(-30, 1), glass());
    let hit = scene.objects[0].hit(&down_z(), lower(), Fixed::max()).unwrap();
    assert_eq!(hit.t, Fixed::from_int(2));
    assert_eq!(hit.material, Some(&glass()));
}

#[test]
fn empty_scene_is_never_hit() {
    let scene = Scene { objects: vec![] };
    assert!(scene.hit(&down_z(), lower(), Fixed::max()).is_none());
}

#[test]
fn scene_returns_the_closer_of_two_overlapping_spheres() {
    let mut scene = Scene { objects: vec![] };
    scene.add(ball(-35, 1), matte());
    scene.add(ball(-30, 1), mirror());
    let hit = scene.hit(&down_z(), lower(), Fixed::max()).unwrap();
    assert_eq!(hit.t, Fixed::from_int(2));
    assert_eq!(hit.material, Some(&mirror()));

    let mut swapped = Scene { objects: vec![] };
    swapped.add(ball(-30, 1), mirror());
    swapped.add(ball(-35, 1), matte());
    let hit = swapped.hit(&down_z(), lower(), Fixed::max()).unwrap();
    assert_eq!(hit.t, Fixed::from_int(2));
    assert_eq!(hit.point, point(0, 0, -2));
    assert_eq!(hit.material, Some(&mirror()));
}

#[test]
fn scene_returns_the_nearest_of_many() {
    let mut scene = Scene { objects: vec![] };
    scene.add(ball(-90, 1), matte());
    scene.add(ball(50, 1), matte());
    scene.add(ball(-60, 1), glass());
    scene.add(ball(-30, 1), mirror());
    scene.add(ball(-120, 2), matte());
    let hit = scene.hit(&down_z(), lower(), Fixed::max()).unwrap();
    assert_eq!(hit.t, Fixed::from_int(2));
    assert_eq!(hit.material, Some(&mirror()));
    let further = scene.hit(&down_z(), Fixed::from_ratio(9, 2), Fixed::max()).unwrap();
    assert_eq!(further.t, Fixed::from_int(5));
    assert_eq!(further.material, Some(&glass()));
    assert!(scene.hit(&down_z(), lower(), Fixed::from_int(1)).is_none());
}

#[test]
fn of_two_hits_at_the_same_distance_the_later_object_stands() {
    let mut scene = Scene { objects: vec![] };
    scene.add(ball(-30, 1), matte());
    scene.add(ball(-30, 1), glass());
    let hit = scene.hit(&down_z(), lower(), Fixed::max()).unwrap();
    assert_eq!(hit.t, Fixed::from_int(2));
    assert_eq!(hit.material, Some(&glass()));
}

#[test]
fn scene_hit_has_a_normal_against_the_ray() {
    let mut scene = Scene { objects: vec![] };
    scene.add(ball(-30, 1), matte());
    scene.add(ball(-30, -2), glass());
    let rays = [
        down_z(),
        Ray { origin: point(0, 0, -3), direction: point(1, 1, 1) },
        Ray { origin: point(5, 0, -3), direction: point(-1, 0, 0) },
        Ray { origin: point(0, 0, -10), direction: point(0, 0, 1) },
    ];
    for ray in rays.iter() {
        let hit = scene.hit(ray, lower(), Fixed::max()).unwrap();
        assert!(Vector3::dot(&ray.direction, &hit.normal).raw <= 0);
        assert!(lower().raw <= hit.t.raw);
        assert_eq!(hit.point, ray.at(hit.t));
    }
}

#[test]
fn axis_rays_through_the_centre_hit_exactly() {
    let axes = [point(1, 0, 0), point(-1, 0, 0), point(0, 1, 0), point(0, -1, 0), point(0, 0, 1), point(0, 0, -1)];
    let origin = Vector3::new(Fixed::from_ratio(7, 3), Fixed::from_int(-20), Fixed::from_ratio(1, 7));
    let distance = Fixed::from_ratio(100, 3);
    let radius = Fixed::from_raw(3 * 65536 * 4099);
    for direction in axes.iter() {
        let sphere = Sphere::new(origin.add(direction.scale(distance)), radius);
        let ray = Ray { origin, direction: *direction };
        let hit = sphere.hit(&ray, lower(), Fixed::max()).unwrap();
        assert_eq!(hit.t, distance.sub(radius));
        assert_eq!(hit.point, origin.add(direction.scale(distance.sub(radius))));
        assert_eq!(hit.normal, direction.neg());
        assert!(hit.front_face);
    }
}

#[test]
fn hit_normals_have_unit_length_within_tolerance() {
    let sphere = Sphere::new(point(1, -2, -9), Fixed::from_ratio(7, 2));
    let targets = [point(1, -2, -9), point(2, -1, -8), point(0, 0, -7), point(3, -4, -10), point(1, 1, -9)];
    for target in targets.iter() {
        let ray = Ray { origin: point(0, 0, 0), direction: *target };
        let hit = sphere.hit(&ray, lower(), Fixed::max()).unwrap();
        let length = hit.normal.len().raw;
        assert!(4294967296 - 4 <= length && length <= 4294967296, "{}", length);
    }
}

#[test]
fn hit_points_lie_on_the_sphere_within_the_bounds() {
    let mut rng = StdRng::seed_from_u64(41);
    let mut hits = 0;
    for _ in 0..4000 {
        let centre = Vector3::random_vec(Fixed::from_int(-32), Fixed::from_int(32), &mut rng);
        let origin = Vector3::random_vec(Fixed::from_int(-32), Fixed::from_int(32), &mut rng);
        let radius = Vector3::random_vec(Fixed::from_ratio(1, 4), Fixed::from_int(32), &mut rng).x;
        let aim = Vector3::random_vec(Fixed::from_int(-1), Fixed::from_int(1), &mut rng);
        let target = centre.add(aim.scale(radius));
        let direction = target.sub(origin).unit();
        if direction.len_sq().raw * 4 < 4294967296 {
            continue;
        }
        let sphere = Sphere::new(centre, radius);
        let ray = Ray { origin, direction };
        if let Some(hit) = sphere.hit(&ray, lower(), Fixed::from_int(128)) {
            hits += 1;
            let distance_sq = hit.point.sub(centre).len_sq().raw;
            let radius_sq = radius.mul(radius).raw;
            assert!((distance_sq - radius_sq).abs() <= 58672, "{:?} {:?}", sphere, ray);
            let length = hit.normal.len().raw;
            assert!(4294967296 - 4 <= length && length <= 4294967296);
            assert!(Vector3::dot(&ray.direction, &hit.normal).raw <= 0);
        }
    }
    assert!(hits > 1000);
}

fn centre_tolerance(reach: i64) -> i64 {
    72 * reach * reach + 60 * reach + 62
}

fn check_rays_through_the_centre(seed: u64, reach: i64) -> usize {
    let mut rng = StdRng::seed_from_u64(seed);
    let tolerance = centre_tolerance(reach);
    let bound = Fixed::from_int(reach);
    let mut tried = 0;
    for _ in 0..3000 {
        let aim = Vector3::random_vec(Fixed::from_int(-8), Fixed::from_int(8), &mut rng);
        if aim == point(0, 0, 0) {
            continue;
        }
        let direction = aim.unit();
        let origin = Vector3::random_vec(bound.neg(), bound, &mut rng);
        let radius = Vector3::random_vec(Fixed::from_ratio(1, 4), bound, &mut rng).x;
        let beyond = Vector3::random_vec(Fixed::zero(), bound.sub(radius), &mut rng).y;
        let distance = radius.add(beyond);
        let sphere = Sphere::new(origin.add(direction.scale(distance)), radius);
        let ray = Ray { origin, direction };
        let expected = distance.sub(radius);
        let hit = sphere
            .hit(
                &ray,
                expected.sub(Fixed::from_raw(tolerance)),
                expected.add(Fixed::from_raw(tolerance)),
            )
            .unwrap();
        tried += 1;
        assert!((hit.t.raw - expected.raw).abs() <= tolerance);
        assert!((hit.normal.x.raw + direction.x.raw).abs() <= 193);
        assert!((hit.normal.y.raw + direction.y.raw).abs() <= 193);
        assert!((hit.normal.z.raw + direction.z.raw).abs() <= 193);
        assert!(hit.front_face);
    }
    tried
}

#[test]
fn rays_through_the_centre_hit_at_the_distance_to_the_surface_within_the_bounds() {
    assert_eq!(centre_tolerance(1), 194);
    assert_eq!(centre_tolerance(16), 19454);
    assert!(check_rays_through_the_centre(42, 1) > 2000);
    assert!(check_rays_through_the_centre(44, 16) > 2000);
}

#[test]
fn far_rays_through_the_centre_hit_within_bounds_that_grow_with_the_distance() {
    assert_eq!(centre_tolerance(128), 1187390);
    assert!(check_rays_through_the_centre(45, 128) > 2000);
    let ground = Sphere::new(point(0, -101, 0), Fixed::from_int(100));
    let ray = Ray { origin: point(0, 0, 0), direction: point(0, -1, 0) };
    let hit = ground.hit(&ray, lower(), Fixed::max()).unwrap();
    assert_eq!(hit.t, Fixed::one());
    assert_eq!(hit.normal, point(0, 1, 0));
}

#[test]
fn normals_of_large_and_of_inverted_spheres_have_unit_length() {
    let mut rng = StdRng::seed_from_u64(43);
    let radii = [
        Fixed::from_int(100),
        Fixed::from_int(-100),
        Fixed::from_ratio(-1, 2),
        Fixed::from_ratio(1, 1000),
        Fixed::from_int(2000),
    ];
    let mut hits = 0;
    for round in 0..2000 {
        let radius = radii[round % 5];
        let centre = Vector3::random_vec(Fixed::from_int(-200), Fixed::from_int(200), &mut rng);
        let origin = Vector3::random_vec(Fixed::from_int(-200), Fixed::from_int(200), &mut rng);
        let aim = Vector3::random_vec(Fixed::from_int(-1), Fixed::from_int(1), &mut rng);
        let direction = centre.add(aim.scale(radius)).sub(origin).unit();
        let ray = Ray { origin, direction };
        let sphere = Sphere::new(centre, radius);
        if let Some(hit) = sphere.hit(&ray, lower(), Fixed::max()) {
            if hit.point.sub(centre).div(radius) == point(0, 0, 0) {
                continue;
            }
            hits += 1;
            let length = hit.normal.len().raw;
            assert!(4294967296 - 4 <= length && length <= 4294967296, "{:?} {:?}", sphere, ray);
            assert!(Vector3::dot(&ray.direction, &hit.normal).raw <= 0);
        }
    }
    assert!(hits > 500);
}

#[test]
fn inverted_sphere_has_its_normal_turned_round() {
    let shell = Sphere::new(point(0, 0, -3), Fixed::from_int(-1));
    let hit = shell.hit(&down_z(), lower(), Fixed::max()).unwrap();
    assert_eq!(hit.t, Fixed::from_int(2));
    assert_eq!(hit.point, point(0, 0, -2));
    assert_eq!(hit.normal, point(0, 0, 1));
    assert!(!hit.front_face);
}

#[test]
fn smallest_parameter_is_not_below_a_ten_thousandth() {
    assert_eq!(raytracer::raytracer::MIN_T_RAW, 429497);
    assert!(429497.0 / 4294967296.0 >= 1e-4);
    assert!(429496.0 / 4294967296.0 < 1e-4);
}
