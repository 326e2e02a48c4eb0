use rand::rngs::StdRng;
use rand::SeedableRng;
use raytracer::fixed::Fixed;
use raytracer::geometry::sphere::Sphere;
use raytracer::geometry::vector3::Vector3;
use raytracer::geometry::Geometry;
use raytracer::image::{encode_png, encoded, ImageError};
use raytracer::material::lambertian::Lambertian;
use raytracer::material::MaterialKind;
use raytracer::raytracer::render;
use raytracer::scene::camera::Camera;
use raytracer::scene::Scene;

fn decode(file: &[u8]) -> (u32, u32, Vec<u8>) {
    let decoder = png::Decoder::new(file);
    let (info, mut reader) = decoder.read_info().unwrap();
    assert_eq!(info.color_type, png::ColorType::RGBA);
    assert_eq!(info.bit_depth, png::BitDepth::Eight);
    let mut pixels = vec![0; info.buffer_size()];
    reader.next_frame(&mut pixels).unwrap();
    (info.width, info.height, pixels)
}

#[test]
fn png_file_decodes_to_the_pixels() {
    let pixels: Vec<u8> = vec![
        255, 0, 0, 255, 0, 255, 0, 255, 0, 0, 255, 255, //
        10, 20, 30, 255, 40, 50, 60, 255, 70, 80, 90, 255,
    ];
    let file = encode_png(3, 2, &pixels).unwrap();
    assert_eq!(&file[..8], &[137, 80, 78, 71, 13, 10, 26, 10]);
    assert_ne!(file, pixels);
    assert_eq!(decode(&file), (3, 2, pixels));
}

#[test]
fn png_file_is_the_same_for_the_same_picture() {
    let pixels: Vec<u8> = (0..64).collect();
    let one = encode_png(4, 4, &pixels).unwrap();
    let two = encode_png(4, 4, &pixels).unwrap();
    assert_eq!(one, two);
    let tall = encode_png(2, 8, &pixels).unwrap();
    assert_ne!(one, tall);
    assert_eq!(decode(&tall), (2, 8, pixels));
}

#[test]
fn picture_without_pixels_is_refused() {
    assert_eq!(encode_png(0, 2, &vec![]), Err(ImageError::Empty));
    assert_eq!(encode_png(2, 0, &vec![]), Err(ImageError::Empty));
    assert_eq!(encode_png(0, 0, &vec![1, 2, 3, 4]), Err(ImageError::Empty));
}

#[test]
fn buffer_of_the_wrong_size_is_refused() {
    assert_eq!(encode_png(1, 1, &vec![]), Err(ImageError::WrongSize));
    assert_eq!(encode_png(1, 1, &vec![1, 2, 3]), Err(ImageError::WrongSize));
    assert_eq!(encode_png(2, 2, &vec![0; 15]), Err(ImageError::WrongSize));
    assert_eq!(encode_png(2, 2, &vec![0; 17]), Err(ImageError::WrongSize));
    assert_eq!(encode_png(u32::MAX, u32::MAX, &vec![0; 16]), Err(ImageError::WrongSize));
}

#[test]
fn encoder_failure_becomes_an_image_error() {
    let failed: Result<Vec<u8>, png::EncodingError> =
        Err(png::EncodingError::Format("no room".into()));
    assert_eq!(encoded(failed), Err(ImageError::Encoder));
    assert_eq!(encoded(Ok(vec![1, 2, 3])), Ok(vec![1, 2, 3]));
}

#[test]
fn rendered_picture_survives_the_file() {
    let mut scene = Scene { objects: vec![] };
    scene.add(
        Geometry::Sphere(Sphere::new(
            Vector3::new(Fixed::zero(), Fixed::zero(), Fixed::from_int(-1)),
            Fixed::from_ratio(1, 2),
        )),
        MaterialKind::Lambertian(Lambertian {
            albedo: Vector3::new(Fixed::from_ratio(1, 2), Fixed::from_ratio(1, 2), Fixed::from_ratio(1, 2)),
        }),
    );
    let camera = Camera::new(
        Vector3::new(Fixed::zero(), Fixed::zero(), Fixed::zero()),
        Vector3::new(Fixed::zero(), Fixed::zero(), Fixed::from_int(-1)),
        Vector3::new(Fixed::zero(), Fixed::one(), Fixed::zero()),
        Fixed::from_int(2),
        Fixed::one(),
        Fixed::zero(),
        Fixed::one(),
    );
    let mut rng = StdRng::seed_from_u64(77);
    let pixels = render(&scene, &camera, 12, 6, 2, 4, &mut rng);
    let file = encode_png(12, 6, &pixels).unwrap();
    assert_eq!(decode(&file), (12, 6, pixels));
}
