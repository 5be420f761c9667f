use polaris::error::PError;
use polaris::text::u64_to_decimal;
use polaris::thumbnails::{cache_filename, hash, plan_thumbnail, render_thumbnail, Options, Plan,
    ResizeMode};

fn png_bytes(img: image::DynamicImage) -> Vec<u8> {
    let mut cursor = std::io::Cursor::new(Vec::new());
    img.write_to(&mut cursor, image::ImageOutputFormat::Png).unwrap();
    cursor.into_inner()
}

fn solid_rgb(width: u32, height: u32, rgb: [u8; 3]) -> Vec<u8> {
    let buf = image::ImageBuffer::from_pixel(width, height, image::Rgb(rgb));
    png_bytes(image::DynamicImage::ImageRgb8(buf))
}

fn decode(bytes: &[u8]) -> image::DynamicImage {
    image::load_from_memory(bytes).unwrap()
}

#[test]
fn default_options_are_the_400_pixel_square() {
    let o = Options::default();
    assert_eq!(o.max_dimension, 400);
    assert!(o.resize_if_almost_square);
    assert!(o.pad_to_square);
}

#[test]
fn u64_to_decimal_renders_exact_digits() {
    assert_eq!(u64_to_decimal(0), "0");
    assert_eq!(u64_to_decimal(7), "7");
    assert_eq!(u64_to_decimal(1234567890), "1234567890");
    assert_eq!(u64_to_decimal(u64::MAX), "18446744073709551615");
}

#[test]
fn cache_filename_is_the_decimal_hash_with_jpg() {
    let path = "/srv/media/cover.png".to_string();
    let o = Options::default();
    let h = hash(&path, &o);
    assert_eq!(cache_filename(&path, &o), format!("{}.jpg", u64_to_decimal(h)));
}

#[test]
fn cache_filename_is_deterministic() {
    let path = "/srv/media/cover.png".to_string();
    let o = Options::default();
    assert_eq!(cache_filename(&path, &o), cache_filename(&path, &o));
    assert_eq!(hash(&path, &o), hash(&path, &o));
}

#[test]
fn cache_filename_depends_on_path_and_options() {
    let a = "/srv/media/a.png".to_string();
    let b = "/srv/media/b.png".to_string();
    let o = Options::default();
    let mut small = Options::default();
    small.max_dimension = 120;
    assert_ne!(cache_filename(&a, &o), cache_filename(&b, &o));
    assert_ne!(cache_filename(&a, &o), cache_filename(&a, &small));
}

#[test]
fn plan_caps_at_max_dimension() {
    let o = Options { max_dimension: 400, resize_if_almost_square: false, pad_to_square: true };
    let p: Plan = plan_thumbnail(2000, 1000, &o);
    assert_eq!(p.out_dimension, 400);
    assert_eq!(p.mode, ResizeMode::PadToSquare);
}

#[test]
fn plan_never_upscales_past_the_source() {
    let o = Options { max_dimension: 400, resize_if_almost_square: false, pad_to_square: false };
    let p = plan_thumbnail(100, 80, &o);
    assert_eq!(p.out_dimension, 100);
    assert_eq!(p.mode, ResizeMode::PreserveAspect);
}

#[test]
fn plan_squares_almost_square_sources() {
    let o = Options { max_dimension: 400, resize_if_almost_square: true, pad_to_square: false };
    // 110/100 = 1.1 is strictly between 0.8 and 1.2.
    assert_eq!(plan_thumbnail(110, 100, &o).mode, ResizeMode::ExactSquare);
    // 125/100 = 1.25 is not.
    assert_eq!(plan_thumbnail(125, 100, &o).mode, ResizeMode::PreserveAspect);
    // The bounds are strict: exactly 1.2 is not almost square.
    assert_eq!(plan_thumbnail(120, 100, &o).mode, ResizeMode::PreserveAspect);
    assert_eq!(plan_thumbnail(80, 100, &o).mode, ResizeMode::PreserveAspect);
}

#[test]
fn pad_to_square_centers_on_white() {
    // A 2000x1000 red source with max_dimension 400 and pad_to_square:
    // the output is exactly 400x400, the scaled 400x200 red band centered,
    // the rest white.
    let src = solid_rgb(2000, 1000, [200, 20, 20]);
    let o = Options { max_dimension: 400, resize_if_almost_square: false, pad_to_square: true };
    let t = render_thumbnail(&src, &o).unwrap();
    assert_eq!((t.width, t.height), (400, 400));
    let img = decode(&t.jpeg);
    assert_eq!(image::GenericImageView::dimensions(&img), (400, 400));
    // Top and bottom bands are white (JPEG keeps flat white nearly exact).
    let top = image::GenericImageView::get_pixel(&img, 200, 40);
    assert!(top.0[0] > 240 && top.0[1] > 240 && top.0[2] > 240);
    let bottom = image::GenericImageView::get_pixel(&img, 200, 360);
    assert!(bottom.0[0] > 240 && bottom.0[1] > 240 && bottom.0[2] > 240);
    // The centered band is red-ish.
    let center = image::GenericImageView::get_pixel(&img, 200, 200);
    assert!(center.0[0] > 150 && center.0[1] < 90 && center.0[2] < 90);
}

#[test]
fn thumbnail_never_upscales() {
    // A 100x80 source with max_dimension 400: the output's larger
    // dimension is 100, not 400.
    let src = solid_rgb(100, 80, [10, 10, 200]);
    let o = Options { max_dimension: 400, resize_if_almost_square: false, pad_to_square: false };
    let t = render_thumbnail(&src, &o).unwrap();
    assert_eq!((t.width, t.height), (100, 80));
    let img = decode(&t.jpeg);
    assert_eq!(image::GenericImageView::dimensions(&img), (100, 80));
}

#[test]
fn almost_square_sources_become_exact_squares() {
    let src = solid_rgb(1100, 1000, [30, 160, 30]);
    let o = Options { max_dimension: 400, resize_if_almost_square: true, pad_to_square: false };
    let t = render_thumbnail(&src, &o).unwrap();
    assert_eq!((t.width, t.height), (400, 400));
}

#[test]
fn preserve_aspect_keeps_the_natural_ratio() {
    let src = solid_rgb(2000, 1000, [200, 20, 20]);
    let o = Options { max_dimension: 400, resize_if_almost_square: false, pad_to_square: false };
    let t = render_thumbnail(&src, &o).unwrap();
    assert_eq!((t.width, t.height), (400, 200));
}

#[test]
fn rendering_is_deterministic() {
    // The no-re-encoding guarantee of the cache rests on the name being a
    // pure function of the request and the rendering of one request being
    // stable.
    let src = solid_rgb(640, 480, [90, 90, 90]);
    let o = Options::default();
    let a = render_thumbnail(&src, &o).unwrap();
    let b = render_thumbnail(&src, &o).unwrap();
    assert_eq!(a.jpeg, b.jpeg);
}

#[test]
fn garbage_bytes_are_a_decode_error() {
    let src = vec![1u8, 2, 3, 4, 5, 6, 7, 8];
    let o = Options::default();
    let r = render_thumbnail(&src, &o);
    assert_eq!(r.err(), Some(PError::ImageDecodeError));
}

#[test]
fn sixteen_bit_color_is_an_encode_error() {
    // The JPEG encoder takes 8-bit samples only; a 16-bit source decodes
    // but cannot be encoded.
    let buf: image::ImageBuffer<image::Rgb<u16>, Vec<u16>> =
        image::ImageBuffer::from_pixel(50, 40, image::Rgb([65535u16, 0, 0]));
    let src = png_bytes(image::DynamicImage::ImageRgb16(buf));
    let o = Options { max_dimension: 400, resize_if_almost_square: false, pad_to_square: false };
    let r = render_thumbnail(&src, &o);
    assert_eq!(r.err(), Some(PError::ImageEncodeError));
}
