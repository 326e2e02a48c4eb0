//! The path tracer: the colour that arrives along a ray, and the picture
//! made of many such rays.
use crate::fixed::{lemma_mul_of_shares, lemma_mul_whole, lemma_zero_div_sqrt, Fixed, SCALE};
use crate::geometry::accuracy::{lemma_lost, lemma_unit_length};
use crate::geometry::hittable::Hittable;
use crate::geometry::ray::Ray;
use crate::geometry::vector3::{
    lemma_axis_is_unit, lemma_modulate_keeps_shade, lemma_zero_norm, Color, Vector3,
};
use crate::material::{lemma_passive_share, Material};
use crate::random::unit_sample;
use crate::scene::camera::Camera;
use crate::scene::{lemma_scene_hit_is_nearest, Scene};
use rand::rngs::StdRng;
use vstd::prelude::*;

verus! {

/// The raw value of the smallest parameter at which a hit counts, `10^-4`
/// rounded up. A ray that leaves a surface must not hit that surface again
/// at once.
pub const MIN_T_RAW: i64 = 429497;

/// The raw value of 1/2.
pub const HALF_RAW: i64 = 2147483648;

/// The raw value of 7/10 rounded down, the green share of the sky's blue.
pub const SKY_GREEN_RAW: i64 = 3006477107;

/// No light.
pub open spec fn spec_black() -> Color {
    Vector3 { x: Fixed::zero(), y: Fixed::zero(), z: Fixed::zero() }
}

/// No light.
#[verifier::when_used_as_spec(spec_black)]
pub fn black() -> (r: Color)
    ensures
        r == spec_black(),
{
    Vector3::new(Fixed::zero(), Fixed::zero(), Fixed::zero())
}

/// The colour of the sky in the direction of `ray`: white at the bottom, the
/// blue `(1/2, 7/10, 1)` at the top, and between them in proportion to the
/// height `(y + 1) / 2` of the unit direction.
pub open spec fn spec_background(ray: &Ray) -> Color {
    let t = Fixed { raw: HALF_RAW }.mul(ray.direction.unit().y.add(Fixed::one()));
    Vector3::lerp(
        &Vector3 { x: Fixed::one(), y: Fixed::one(), z: Fixed::one() },
        &Vector3 { x: Fixed { raw: HALF_RAW }, y: Fixed { raw: SKY_GREEN_RAW }, z: Fixed::one() },
        t,
    )
}

/// The colour of the sky in the direction of `ray`: white at the bottom, the
/// blue `(1/2, 7/10, 1)` at the top, and between them in proportion to the
/// height `(y + 1) / 2` of the unit direction.
///
/// Whatever the direction, red lies between 1/2 and 1, green between 7/10
/// and 1, and blue is 1.
#[verifier::when_used_as_spec(spec_background)]
pub fn background(ray: &Ray) -> (r: Color)
    ensures
        r == spec_background(ray),
        is_sky(r),
{
    proof {
        lemma_sky_range(*ray);
    }
    let unit_direction = ray.direction.unit();
    let t = Fixed::from_raw(HALF_RAW).mul(unit_direction.y.add(Fixed::one()));
    Vector3::lerp(
        &Vector3::new(Fixed::one(), Fixed::one(), Fixed::one()),
        &Vector3::new(Fixed::from_raw(HALF_RAW), Fixed::from_raw(SKY_GREEN_RAW), Fixed::one()),
        t,
    )
}

/// Whether `color` lies between white and the blue of the sky: red between
/// 1/2 and 1, green between 7/10 and 1, and blue 1.
pub open spec fn is_sky(color: Color) -> bool {
    &&& HALF_RAW <= color.x.raw <= SCALE
    &&& SKY_GREEN_RAW <= color.y.raw <= SCALE
    &&& color.z.raw == SCALE
}

/// No component of the unit direction of a ray lies outside the interval
/// from -1 to 1, whatever the direction.
pub proof fn lemma_unit_direction_range(direction: Vector3)
    ensures
        -SCALE <= direction.unit().x.raw <= SCALE,
        -SCALE <= direction.unit().y.raw <= SCALE,
        -SCALE <= direction.unit().z.raw <= SCALE,
{
    lemma_zero_norm(direction);
    if direction.norm() > 0 {
        lemma_unit_length(direction);
    } else {
        reveal(Vector3::spec_unit);
    }
}

/// The colour of the sky lies between white and the blue of the sky in
/// every direction.
pub proof fn lemma_sky_range(ray: Ray)
    ensures
        is_sky(background(&ray)),
        background(&ray).is_shade(),
{
    let s = SCALE as int;
    let one = Fixed::one();
    let half = Fixed { raw: HALF_RAW };
    let green = Fixed { raw: SKY_GREEN_RAW };
    lemma_unit_direction_range(ray.direction);
    let height = ray.direction.unit().y.add(one);
    assert(0 <= height.raw <= 2 * s);
    let t = half.mul(height);
    lemma_mul_whole(2i64, half);
    assert(0 <= t.raw <= s && 2 * t.raw <= height.raw) by {
        reveal(Fixed::spec_mul);
        let p = HALF_RAW * height.raw;
        assert(2 * p == s * height.raw);
        lemma_lost(p, s);
    }
    let rest = one.sub(t);
    assert(rest.raw == s - t.raw);
    lemma_mul_whole(1i64, rest);
    lemma_mul_whole(1i64, t);
    lemma_mul_of_shares(half, t);
    lemma_mul_of_shares(green, t);
    let red = half.mul(t).raw as int;
    let grn = green.mul(t).raw as int;
    vstd::arithmetic::div_mod::lemma_fundamental_div_mod(HALF_RAW * t.raw, s);
    vstd::arithmetic::div_mod::lemma_mod_bound(HALF_RAW * t.raw, s);
    vstd::arithmetic::div_mod::lemma_fundamental_div_mod(SKY_GREEN_RAW * t.raw, s);
    vstd::arithmetic::div_mod::lemma_mod_bound(SKY_GREEN_RAW * t.raw, s);
    assert(s - t.raw + red >= HALF_RAW) by (nonlinear_arith)
        requires
            HALF_RAW * t.raw == s * red + (HALF_RAW * t.raw) % s,
            0 <= (HALF_RAW * t.raw) % s < s,
            0 <= t.raw <= s,
            2 * HALF_RAW == s,
            s == 0x1_0000_0000,
    {
        assert(s * (s - t.raw + red) == s * s - s * t.raw + s * red);
        assert(2 * (s * red) > s * t.raw - 2 * s);
        if s - t.raw + red < HALF_RAW {
            assert(s * (s - t.raw + red) <= s * (HALF_RAW - 1));
        }
    }
    assert(s - t.raw + grn >= SKY_GREEN_RAW) by (nonlinear_arith)
        requires
            SKY_GREEN_RAW * t.raw == s * grn + (SKY_GREEN_RAW * t.raw) % s,
            0 <= (SKY_GREEN_RAW * t.raw) % s < s,
            0 <= t.raw <= s,
            0 <= SKY_GREEN_RAW <= s,
            s == 0x1_0000_0000,
    {
        assert(s * (s - t.raw + grn) == s * s - s * t.raw + s * grn);
        assert((s - SKY_GREEN_RAW) * t.raw <= (s - SKY_GREEN_RAW) * s);
        assert(s * grn > SKY_GREEN_RAW * t.raw - s);
        if s - t.raw + grn < SKY_GREEN_RAW {
            assert(s * (s - t.raw + grn) <= s * (SKY_GREEN_RAW - 1));
        }
    }
}

/// Straight up the sky is the blue `(1/2, 7/10, 1)`, and straight down it is
/// white: for every ray whose unit direction has the height 1 or -1, and so
/// for the rays along the vertical axis.
pub proof fn lemma_sky_above_and_below(ray: Ray)
    ensures
        ray.direction.unit().y.raw == SCALE ==> background(&ray) == (Vector3 {
            x: Fixed { raw: HALF_RAW },
            y: Fixed { raw: SKY_GREEN_RAW },
            z: Fixed::one(),
        }),
        ray.direction.unit().y.raw == -SCALE ==> background(&ray) == (Vector3 {
            x: Fixed::one(),
            y: Fixed::one(),
            z: Fixed::one(),
        }),
        ray.direction.is_axis() ==> ray.direction.unit() == ray.direction,
{
    if ray.direction.is_axis() {
        lemma_axis_is_unit(ray.direction);
    }
    let half = Fixed { raw: HALF_RAW };
    let green = Fixed { raw: SKY_GREEN_RAW };
    lemma_mul_whole(2i64, half);
    lemma_mul_whole(0i64, half);
    lemma_mul_whole(0i64, green);
    lemma_mul_whole(0i64, Fixed::one());
    lemma_mul_whole(1i64, half);
    lemma_mul_whole(1i64, green);
    lemma_mul_whole(1i64, Fixed::one());
}

/// Whether `ray_color` may return `color`: whether some outcome of the random
/// draws along the path leads to it.
///
/// A path that may bounce no more brings no light. A ray that hits nothing
/// brings the colour of the sky. A ray that hits a surface brings what the
/// scattered ray brings, each channel reduced to the share that the material
/// keeps, or no light where the material swallows the ray.
pub open spec fn may_color(scene: &Scene, ray: Ray, depth: nat, color: Color) -> bool
    decreases depth,
{
    if depth == 0 {
        color == black()
    } else {
        match scene.spec_hit(&ray, Fixed { raw: MIN_T_RAW }, Fixed::max()) {
            None => color == background(&ray),
            Some(hit) => match hit.material {
                None => color == black(),
                Some(material) => exists|out: Option<(Color, Ray)>| #[trigger]
                    material.may_scatter(&ray, &hit, out) && match out {
                        None => color == black(),
                        Some((attenuation, scattered)) => exists|inner: Color|
                            may_color(scene, scattered, (depth - 1) as nat, inner) && color
                                == #[trigger] inner.modulate(attenuation),
                    },
            },
        }
    }
}

/// Where no surface of the scene gives back more light than falls on it,
/// every channel of a colour that `ray_color` may return lies between 0 and
/// 1.
pub proof fn lemma_color_in_range(scene: &Scene, ray: Ray, depth: nat, color: Color)
    requires
        scene.is_passive(),
        may_color(scene, ray, depth, color),
    ensures
        color.is_shade(),
    decreases depth,
{
    if depth > 0 {
        match scene.spec_hit(&ray, Fixed { raw: MIN_T_RAW }, Fixed::max()) {
            None => {
                lemma_sky_range(ray);
            },
            Some(hit) => {
                lemma_scene_hit_is_nearest(*scene, ray, Fixed { raw: MIN_T_RAW }, Fixed::max());
                if let Some(material) = hit.material {
                    let out = choose|out: Option<(Color, Ray)>| #[trigger]
                        material.may_scatter(&ray, &hit, out) && match out {
                            None => color == black(),
                            Some((attenuation, scattered)) => exists|inner: Color|
                                may_color(scene, scattered, (depth - 1) as nat, inner) && color
                                    == #[trigger] inner.modulate(attenuation),
                        };
                    lemma_passive_share(*material, ray, hit, out);
                    if let Some((attenuation, scattered)) = out {
                        let inner = choose|inner: Color|
                            may_color(scene, scattered, (depth - 1) as nat, inner) && color
                                == #[trigger] inner.modulate(attenuation);
                        lemma_color_in_range(scene, scattered, (depth - 1) as nat, inner);
                        lemma_modulate_keeps_shade(inner, attenuation);
                    }
                }
            },
        }
    }
}

/// The colour that arrives along `r`, followed through at most `depth`
/// surfaces: no light where the path may bounce no more, the colour of the
/// sky where the ray hits nothing. Where no surface of the scene gives back
/// more light than falls on it, every channel lies between 0 and 1.
pub fn ray_color(r: Ray, scene: &Scene, depth: usize, rng: &mut StdRng) -> (color: Color)
    ensures
        may_color(scene, r, depth as nat, color),
        depth == 0 ==> color == black(),
        depth > 0 && scene.spec_hit(&r, Fixed { raw: MIN_T_RAW }, Fixed::max()) is None ==> color
            == background(&r) && is_sky(color),
        scene.is_passive() ==> color.is_shade(),
    decreases depth,
{
    proof {
        if scene.is_passive() {
            assert forall|c: Color| may_color(scene, r, depth as nat, c) implies c.is_shade() by {
                lemma_color_in_range(scene, r, depth as nat, c);
            }
        }
    }
    if depth == 0 {
        return black();
    }
    if let Some(hit) = scene.hit(&r, Fixed::from_raw(MIN_T_RAW), Fixed::max()) {
        if let Some(material) = hit.material {
            let scattered = material.scatter(&r, &hit, rng);
            if let Some((attenuation, scatter_ray)) = scattered {
                let inner = ray_color(scatter_ray, scene, depth - 1, rng);
                let color = inner.modulate(attenuation);
                assert(material.may_scatter(&r, &hit, scattered));
                return color;
            }
        }
        return black();
    }
    background(&r)
}

/// How far across the picture the point lies that is `jitter` of a pixel
/// past the start of pixel `index`, where `size` pixels span the picture.
pub open spec fn spec_coordinate(jitter: Fixed, index: usize, size: usize) -> Fixed {
    jitter.add(Fixed::from_count(index)).div(Fixed::from_count(size))
}

/// How far across the picture the point lies that is `jitter` of a pixel
/// past the start of pixel `index`, where `size` pixels span the picture.
#[verifier::when_used_as_spec(spec_coordinate)]
pub fn coordinate(jitter: Fixed, index: usize, size: usize) -> (r: Fixed)
    ensures
        r == spec_coordinate(jitter, index, size),
{
    jitter.add(Fixed::from_count(index)).div(Fixed::from_count(size))
}

/// The red, green and blue bytes for a pixel whose `samples` samples add up
/// to `sum`: the mean of the samples, its square root for the display, and
/// that scaled to 255, cut to a whole number and clamped to `0 ..= 255`.
pub open spec fn spec_quantize(sum: Color, samples: usize) -> (u8, u8, u8) {
    let shown = sum.div(Fixed::from_count(samples)).spec_sqrt().scale(Fixed::from_int(255i64));
    (shown.x.to_byte(), shown.y.to_byte(), shown.z.to_byte())
}

/// The red, green and blue bytes for a pixel whose `samples` samples add up
/// to `sum`: the mean of the samples, its square root for the display, and
/// that scaled to 255, cut to a whole number and clamped to `0 ..= 255`.
#[verifier::when_used_as_spec(spec_quantize)]
pub fn quantize(sum: Color, samples: usize) -> (r: (u8, u8, u8))
    ensures
        r == spec_quantize(sum, samples),
{
    let mut pixel = sum.div(Fixed::from_count(samples));
    pixel.sqrt();
    let shown = pixel.scale(Fixed::from_int(255));
    (shown.x.to_byte(), shown.y.to_byte(), shown.z.to_byte())
}

/// Whether one sample of the pixel in column `x` and row `y` may have the
/// colour `color`: whether a ray that the camera may send through a point of
/// that pixel may bring it.
pub open spec fn may_sample(
    scene: &Scene,
    camera: &Camera,
    x: usize,
    y: usize,
    image_width: usize,
    image_height: usize,
    max_depth: usize,
    color: Color,
) -> bool {
    exists|ju: Fixed, jv: Fixed, ray: Ray|
        ju.in_unit_interval() && jv.in_unit_interval() && #[trigger] camera.may_ray(
            coordinate(ju, x, image_width),
            coordinate(jv, y, image_height),
            ray,
        ) && may_color(scene, ray, max_depth as nat, color)
}

/// Whether `samples` samples of that pixel may add up to `sum`.
pub open spec fn may_sum(
    scene: &Scene,
    camera: &Camera,
    x: usize,
    y: usize,
    image_width: usize,
    image_height: usize,
    max_depth: usize,
    samples: nat,
    sum: Color,
) -> bool
    decreases samples,
{
    if samples == 0 {
        sum == black()
    } else {
        exists|before: Color, color: Color|
            may_sum(
                scene,
                camera,
                x,
                y,
                image_width,
                image_height,
                max_depth,
                (samples - 1) as nat,
                before,
            ) && may_sample(scene, camera, x, y, image_width, image_height, max_depth, color)
                && sum == #[trigger] before.add(color)
    }
}

/// Whether the four bytes `pixel` may stand for that pixel in the picture.
pub open spec fn may_show(
    scene: &Scene,
    camera: &Camera,
    x: usize,
    y: usize,
    image_width: usize,
    image_height: usize,
    samples_per_pixel: usize,
    max_depth: usize,
    pixel: (u8, u8, u8, u8),
) -> bool {
    exists|sum: Color|
        may_sum(
            scene,
            camera,
            x,
            y,
            image_width,
            image_height,
            max_depth,
            samples_per_pixel as nat,
            sum,
        ) && pixel == (
            (#[trigger] quantize(sum, samples_per_pixel)).0,
            quantize(sum, samples_per_pixel).1,
            quantize(sum, samples_per_pixel).2,
            255u8,
        )
}

/// The place of the pixel in column `x` and row `y` in a picture that is
/// `image_width` pixels wide, rows from the top.
pub open spec fn pixel_index(x: int, y: int, image_width: int) -> int {
    y * image_width + x
}

/// The four bytes of the pixel at the place `index` of `buffer`.
pub open spec fn pixel_at(buffer: Seq<u8>, index: int) -> (u8, u8, u8, u8) {
    (buffer[4 * index], buffer[4 * index + 1], buffer[4 * index + 2], buffer[4 * index + 3])
}

/// Renders the scene as the camera sees it: `image_height` rows of
/// `image_width` pixels from the top row down, four bytes to a pixel, red,
/// green, blue and the opacity 255. Every pixel is the mean of
/// `samples_per_pixel` samples, each the colour along a ray through a random
/// point of the pixel, followed through at most `max_depth` surfaces.
pub fn render(
    scene: &Scene,
    camera: &Camera,
    image_width: usize,
    image_height: usize,
    samples_per_pixel: usize,
    max_depth: usize,
    rng: &mut StdRng,
) -> (buffer: Vec<u8>)
    requires
        4 * image_width * image_height <= usize::MAX,
    ensures
        buffer@.len() == 4 * image_width * image_height,
        forall|x: usize, y: usize|
            x < image_width && y < image_height ==> may_show(
                scene,
                camera,
                x,
                y,
                image_width,
                image_height,
                samples_per_pixel,
                max_depth,
                #[trigger] pixel_at(buffer@, pixel_index(x as int, y as int, image_width as int)),
            ),
        max_depth == 0 ==> forall|i: int|
            0 <= i < buffer@.len() ==> #[trigger] buffer@[i] == if i % 4 == 3 {
                255u8
            } else {
                0u8
            },
{
    let mut buffer: Vec<u8> = Vec::new();
    let mut y: usize = 0;
    while y < image_height
        invariant
            y <= image_height,
            4 * image_width * image_height <= usize::MAX,
            buffer@.len() == 4 * pixel_index(0, y as int, image_width as int),
            forall|px: usize, py: usize|
                px < image_width && py < y ==> may_show(
                    scene,
                    camera,
                    px,
                    py,
                    image_width,
                    image_height,
                    samples_per_pixel,
                    max_depth,
                    #[trigger] pixel_at(
                        buffer@,
                        pixel_index(px as int, py as int, image_width as int),
                    ),
                ),
            max_depth == 0 ==> forall|i: int|
                0 <= i < buffer@.len() ==> #[trigger] buffer@[i] == if i % 4 == 3 {
                    255u8
                } else {
                    0u8
                },
        decreases image_height - y,
    {
        let mut x: usize = 0;
        while x < image_width
            invariant
                x <= image_width,
                y < image_height,
                4 * image_width * image_height <= usize::MAX,
                buffer@.len() == 4 * pixel_index(x as int, y as int, image_width as int),
                forall|px: usize, py: usize|
                    px < image_width && (py < y || (py == y && px < x)) ==> may_show(
                        scene,
                        camera,
                        px,
                        py,
                        image_width,
                        image_height,
                        samples_per_pixel,
                        max_depth,
                        #[trigger] pixel_at(
                            buffer@,
                            pixel_index(px as int, py as int, image_width as int),
                        ),
                    ),
                max_depth == 0 ==> forall|i: int|
                    0 <= i < buffer@.len() ==> #[trigger] buffer@[i] == if i % 4 == 3 {
                        255u8
                    } else {
                        0u8
                    },
            decreases image_width - x,
        {
            let mut pixel = Vector3::new(Fixed::zero(), Fixed::zero(), Fixed::zero());
            let mut taken: usize = 0;
            while taken < samples_per_pixel
                invariant
                    taken <= samples_per_pixel,
                    may_sum(
                        scene,
                        camera,
                        x,
                        y,
                        image_width,
                        image_height,
                        max_depth,
                        taken as nat,
                        pixel,
                    ),
                    max_depth == 0 ==> pixel == black(),
                decreases samples_per_pixel - taken,
            {
                let ju = unit_sample(rng);
                let jv = unit_sample(rng);
                let u = coordinate(ju, x, image_width);
                let v = coordinate(jv, y, image_height);
                let ray = camera.get_ray(u, v, rng);
                let color = ray_color(ray, scene, max_depth, rng);
                assert(may_sample(
                    scene,
                    camera,
                    x,
                    y,
                    image_width,
                    image_height,
                    max_depth,
                    color,
                ));
                let ghost before = pixel;
                pixel = pixel.add(color);
                taken = taken + 1;
                assert(pixel == before.add(color));
            }
            let (red, green, blue) = quantize(pixel, samples_per_pixel);
            let ghost earlier = buffer@;
            proof {
                lemma_pixel_places(
                    x as int,
                    y as int,
                    image_width as int,
                    image_height as int,
                );
                if max_depth == 0 {
                    lemma_black_pixel(samples_per_pixel);
                }
            }
            buffer.push(red);
            buffer.push(green);
            buffer.push(blue);
            buffer.push(255u8);
            proof {
                let here = pixel_index(x as int, y as int, image_width as int);
                assert(buffer@ == earlier + seq![red, green, blue, 255u8]);
                assert(pixel_at(buffer@, here) == (red, green, blue, 255u8));
                assert forall|px: usize, py: usize|
                    px < image_width && (py < y || (py == y && px < x + 1)) implies may_show(
                    scene,
                    camera,
                    px,
                    py,
                    image_width,
                    image_height,
                    samples_per_pixel,
                    max_depth,
                    #[trigger] pixel_at(
                        buffer@,
                        pixel_index(px as int, py as int, image_width as int),
                    ),
                ) by {
                    let there = pixel_index(px as int, py as int, image_width as int);
                    lemma_pixel_order(
                        px as int,
                        py as int,
                        x as int,
                        y as int,
                        image_width as int,
                    );
                    if py == y && px == x {
                    } else {
                        assert(0 <= there < here);
                        assert(pixel_at(buffer@, there) == pixel_at(earlier, there));
                    }
                }
            }
            x = x + 1;
        }
        proof {
            assert(pixel_index(x as int, y as int, image_width as int) == pixel_index(
                0,
                y as int + 1,
                image_width as int,
            )) by (nonlinear_arith)
                requires
                    x == image_width,
            ;
        }
        y = y + 1;
    }
    proof {
        assert(4 * pixel_index(0, y as int, image_width as int) == 4 * image_width
            * image_height) by (nonlinear_arith)
            requires
                y == image_height,
        ;
    }
    buffer
}

/// The places of the pixels of a picture lie in the picture.
pub proof fn lemma_pixel_places(x: int, y: int, image_width: int, image_height: int)
    by (nonlinear_arith)
    requires
        0 <= x < image_width,
        0 <= y < image_height,
    ensures
        0 <= pixel_index(x, y, image_width) < image_width * image_height,
        pixel_index(x, y, image_width) + 1 == pixel_index(x + 1, y, image_width),
{
    assert((y + 1) * image_width <= image_height * image_width);
}

/// Pixels lie in the buffer row by row, and in each row from left to right.
pub proof fn lemma_pixel_order(px: int, py: int, x: int, y: int, image_width: int)
    by (nonlinear_arith)
    requires
        0 <= px < image_width,
        0 <= x < image_width,
        0 <= py,
        0 <= y,
    ensures
        0 <= pixel_index(px, py, image_width),
        (py < y || (py == y && px < x)) ==> pixel_index(px, py, image_width) < pixel_index(
            x,
            y,
            image_width,
        ),
        pixel_index(px, py, image_width) == pixel_index(x, y, image_width) ==> px == x && py == y,
{
    if py < y {
        assert((py + 1) * image_width <= y * image_width);
    } else if y < py {
        assert((y + 1) * image_width <= py * image_width);
    }
}

/// A pixel whose samples add up to no light is black.
pub proof fn lemma_black_pixel(samples: usize)
    ensures
        quantize(black(), samples) == (0u8, 0u8, 0u8),
{
    lemma_zero_div_sqrt(Fixed::from_count(samples));
    lemma_mul_whole(255i64, Fixed::zero());
}

} // verus!
