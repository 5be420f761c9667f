//! The content-addressed thumbnail cache's core: the cache key and file
//! name for a request, and the derivation of a bounded-size JPEG from a
//! decoded source image. Pixel work (decode, resize, encode) is delegated
//! to the image crate behind trusted wrappers; every decision — the output
//! dimension, the three-way resize policy, the centering offsets — is
//! verified here. Reading the source bytes and writing the cache file are
//! the embedding's concern.

use vstd::prelude::*;
use vstd::string::*;
use crate::error::PError;
use crate::text::{decimal_of, u64_to_decimal};

verus! {

/// Resize options. Together with the source path they fully determine the
/// output pixel content, and they enter the cache key.
#[derive(Clone, Copy, Debug, Hash, PartialEq, Eq, Structural)]
pub struct Options {
    pub max_dimension: u32,
    pub resize_if_almost_square: bool,
    pub pad_to_square: bool,
}

impl Options {
    /// The maximum dimension is a positive integer.
    pub open spec fn wf(self) -> bool {
        self.max_dimension >= 1
    }
}

impl Default for Options {
    /// The default request: a 400-pixel square, squaring almost-square
    /// covers and padding the rest.
    fn default() -> (r: Options)
        ensures
            r.max_dimension == 400,
            r.resize_if_almost_square,
            r.pad_to_square,
            r.wf(),
    {
        Options { max_dimension: 400, resize_if_almost_square: true, pad_to_square: true }
    }
}

/// The 64-bit cache key of a request. It is a function of the real source
/// path and the options alone: the same request hashes to the same key in
/// every process, which is what makes the key usable as an on-disk name.
pub uninterp spec fn hash_key(
    path: Seq<char>,
    max_dimension: u32,
    resize_if_almost_square: bool,
    pad_to_square: bool,
) -> u64;

/// Relies on std's `DefaultHasher` (fixed-key SipHash, deterministic
/// across processes), `Path::hash` and the derived `Hash` of `Options`:
/// the result depends on the path text and the option fields alone.
#[verifier::external_body]
fn hash_impl(real_path: &String, options: &Options) -> (r: u64)
    ensures
        r == hash_key(
            real_path@,
            options.max_dimension,
            options.resize_if_almost_square,
            options.pad_to_square,
        ),
{
    let mut hasher = std::collections::hash_map::DefaultHasher::new();
    std::hash::Hash::hash(std::path::Path::new(real_path.as_str()), &mut hasher);
    std::hash::Hash::hash(options, &mut hasher);
    std::hash::Hasher::finish(&hasher)
}

/// The 64-bit cache key of a request: a function of the real source path
/// and the options alone.
pub fn hash(real_path: &String, options: &Options) -> (r: u64)
    ensures
        r == hash_key(
            real_path@,
            options.max_dimension,
            options.resize_if_almost_square,
            options.pad_to_square,
        ),
{
    hash_impl(real_path, options)
}

/// The cache entry's file name: the decimal cache key with a `.jpg`
/// extension. This naming is part of the on-disk contract.
pub open spec fn cache_name_spec(path: Seq<char>, o: Options) -> Seq<char> {
    decimal_of(
        hash_key(path, o.max_dimension, o.resize_if_almost_square, o.pad_to_square) as nat,
    ) + ".jpg"@
}

/// The name of the cache file for a request. Requests with the same path
/// and options always name the same file.
pub fn cache_filename(real_path: &String, options: &Options) -> (r: String)
    ensures
        r@ == cache_name_spec(real_path@, *options),
{
    let h = hash(real_path, options);
    let mut name = u64_to_decimal(h);
    name.append(".jpg");
    name
}

/// Two requests for the same path and options name the same cache file:
/// the name is a function of the pair, so the second request reuses the
/// first one's entry.
pub proof fn lemma_cache_name_deterministic(a: Seq<char>, b: Seq<char>, oa: Options, ob: Options)
    requires
        a == b,
        oa == ob,
    ensures
        cache_name_spec(a, oa) == cache_name_spec(b, ob),
{
}

/// How one request is resized.
#[derive(Clone, Copy, Debug, PartialEq, Eq, Structural)]
pub enum ResizeMode {
    /// Distort an almost-square source directly to a square.
    ExactSquare,
    /// Fit the source, then center it on a white square canvas.
    PadToSquare,
    /// Fit the source; the output keeps its natural aspect ratio.
    PreserveAspect,
}

/// Aspect ratio strictly between 0.8 and 1.2, in exact integer
/// arithmetic: 4h < 5w and 5w < 6h.
pub open spec fn almost_square(w: int, h: int) -> bool {
    5 * w > 4 * h && 5 * w < 6 * h
}

/// The output dimension: capped by the configured maximum and by the
/// source's own largest dimension — never upscale beyond the source.
pub open spec fn out_dimension_spec(w: int, h: int, o: Options) -> int {
    let largest = if w >= h {
        w
    } else {
        h
    };
    if o.max_dimension <= largest {
        o.max_dimension as int
    } else {
        largest
    }
}

/// The three-way resize policy of one request.
pub open spec fn mode_spec(w: int, h: int, o: Options) -> ResizeMode {
    if almost_square(w, h) && o.resize_if_almost_square {
        ResizeMode::ExactSquare
    } else if o.pad_to_square {
        ResizeMode::PadToSquare
    } else {
        ResizeMode::PreserveAspect
    }
}

/// The decisions for one request: how large the output is and how the
/// source is resized onto it.
pub struct Plan {
    pub out_dimension: u32,
    pub mode: ResizeMode,
}

/// Chooses the output dimension and resize mode for a source image. The
/// output dimension never exceeds the configured maximum and never
/// exceeds the source's largest dimension.
pub fn plan_thumbnail(source_width: u32, source_height: u32, options: &Options) -> (r: Plan)
    ensures
        r.out_dimension == out_dimension_spec(source_width as int, source_height as int, *options),
        r.out_dimension <= options.max_dimension,
        source_width >= source_height ==> r.out_dimension <= source_width,
        source_height >= source_width ==> r.out_dimension <= source_height,
        r.mode == mode_spec(source_width as int, source_height as int, *options),
{
    let largest = if source_width >= source_height {
        source_width
    } else {
        source_height
    };
    let out_dimension = if options.max_dimension <= largest {
        options.max_dimension
    } else {
        largest
    };
    let w = source_width as u64;
    let h = source_height as u64;
    let is_almost = 5 * w > 4 * h && 5 * w < 6 * h;
    let mode = if is_almost && options.resize_if_almost_square {
        ResizeMode::ExactSquare
    } else if options.pad_to_square {
        ResizeMode::PadToSquare
    } else {
        ResizeMode::PreserveAspect
    };
    Plan { out_dimension, mode }
}

/// The opaque decoded-image type of the image crate, declared so that a
/// value of it can live in a field.
#[verifier::external_type_specification]
#[verifier::external_body]
pub struct ExDynamicImage(image::DynamicImage);

/// A decoded raster image together with its pixel dimensions. The
/// dimension fields mirror the image's actual dimensions; only the
/// constructors in this module build values of this type, and each sets
/// them from the image itself.
pub struct Bitmap {
    img: image::DynamicImage,
    pub width: u32,
    pub height: u32,
}

/// Whether the image crate can decode these bytes: decoding is a
/// function of the bytes alone.
pub uninterp spec fn decode_ok(bytes: Seq<u8>) -> bool;

/// The pixel width of the image decoded from these bytes (meaningful
/// when they decode).
pub uninterp spec fn decoded_w(bytes: Seq<u8>) -> u32;

/// The pixel height of the image decoded from these bytes (meaningful
/// when they decode).
pub uninterp spec fn decoded_h(bytes: Seq<u8>) -> u32;

/// Relies on `image::load_from_memory`: decodes any supported raster
/// format from bytes and fails on unsupported or corrupt input; whether
/// it succeeds, and with what dimensions, depends on the bytes alone.
#[verifier::external_body]
fn decode_bitmap(bytes: &Vec<u8>) -> (r: Result<Bitmap, PError>)
    ensures
        r is Ok <==> decode_ok(bytes@),
        r matches Ok(b) ==> b.width == decoded_w(bytes@) && b.height == decoded_h(bytes@),
        r matches Err(e) ==> e == PError::ImageDecodeError,
{
    match image::load_from_memory(bytes.as_slice()) {
        Ok(img) => {
            let (w, h) = image::GenericImageView::dimensions(&img);
            Ok(Bitmap { img, width: w, height: h })
        },
        Err(_) => Err(PError::ImageDecodeError),
    }
}

/// Relies on `DynamicImage::resize_exact`: the result has exactly the
/// requested dimensions (aspect ratio not preserved), Lanczos3 filter.
#[verifier::external_body]
fn resize_exact_bitmap(src: &Bitmap, nwidth: u32, nheight: u32) -> (r: Bitmap)
    requires
        nwidth >= 1,
        nheight >= 1,
    ensures
        r.width == nwidth,
        r.height == nheight,
{
    let img = src.img.resize_exact(nwidth, nheight, image::imageops::FilterType::Lanczos3);
    let (w, h) = image::GenericImageView::dimensions(&img);
    Bitmap { img, width: w, height: h }
}

/// Relies on `DynamicImage::resize` and its `resize_dimensions`: the
/// result preserves aspect ratio and is the largest size that fits within
/// the square bound — both dimensions are between 1 and the bound, and
/// one of them reaches the bound.
#[verifier::external_body]
fn resize_fit_bitmap(src: &Bitmap, bound: u32) -> (r: Bitmap)
    requires
        bound >= 1,
        src.width >= 1,
        src.height >= 1,
    ensures
        1 <= r.width <= bound,
        1 <= r.height <= bound,
        r.width == bound || r.height == bound,
{
    let img = src.img.resize(bound, bound, image::imageops::FilterType::Lanczos3);
    let (w, h) = image::GenericImageView::dimensions(&img);
    Bitmap { img, width: w, height: h }
}

/// Relies on `ImageBuffer::from_pixel`: an opaque-white RGB canvas of the
/// given square dimension.
#[verifier::external_body]
fn white_canvas(dim: u32) -> (r: Bitmap)
    requires
        1 <= dim <= 65500,
    ensures
        r.width == dim,
        r.height == dim,
{
    let buf = image::ImageBuffer::from_pixel(dim, dim, image::Rgb([255u8, 255u8, 255u8]));
    let img = image::DynamicImage::ImageRgb8(buf);
    Bitmap { img, width: dim, height: dim }
}

/// Relies on `GenericImage::copy_from`: copies `src` into `dst` at the
/// given offset, in place; per its source it fails exactly when the copy
/// would not fit, so under the stated bounds it succeeds.
#[verifier::external_body]
fn copy_onto(dst: &mut Bitmap, src: &Bitmap, x: u32, y: u32) -> (r: Result<(), PError>)
    requires
        x + src.width <= old(dst).width,
        y + src.height <= old(dst).height,
    ensures
        r is Ok,
        final(dst).width == old(dst).width,
        final(dst).height == old(dst).height,
{
    match image::GenericImage::copy_from(&mut dst.img, &src.img, x, y) {
        Ok(()) => Ok(()),
        Err(_) => Err(PError::ImageEncodeError),
    }
}

/// Relies on `DynamicImage::write_to` with `ImageOutputFormat::Jpeg` at
/// the fixed quality 80.
#[verifier::external_body]
fn encode_jpeg(src: &Bitmap) -> (r: Result<Vec<u8>, PError>)
    ensures
        r matches Err(e) ==> e == PError::ImageEncodeError,
{
    let mut cursor = std::io::Cursor::new(Vec::new());
    match src.img.write_to(&mut cursor, image::ImageOutputFormat::Jpeg(80)) {
        Ok(()) => Ok(cursor.into_inner()),
        Err(_) => Err(PError::ImageEncodeError),
    }
}

/// The rendered derivative: JPEG bytes and their pixel dimensions.
pub struct Thumbnail {
    pub jpeg: Vec<u8>,
    pub width: u32,
    pub height: u32,
}

/// Whether `tw`×`th` is the planned output shape for a `w`×`h` source.
pub open spec fn output_shape_ok(w: int, h: int, o: Options, tw: int, th: int) -> bool {
    let out = out_dimension_spec(w, h, o);
    match mode_spec(w, h, o) {
        ResizeMode::ExactSquare => tw == out && th == out,
        ResizeMode::PadToSquare => tw == out && th == out,
        ResizeMode::PreserveAspect => 1 <= tw <= out && 1 <= th <= out && (tw == out || th == out),
    }
}

/// Renders the bounded-size JPEG derivative of a source image, decoding
/// it from bytes and applying the three-way policy: an almost-square
/// source may be squared directly, otherwise the source is fitted and
/// optionally centered on a white square canvas. An undecodable (or
/// zero-sized) source fails with exactly the decode error; whether
/// encoding succeeds is the image crate's decision; and the shape of
/// every successful output is pinned against the decoded source's own
/// dimensions.
pub fn render_thumbnail(source: &Vec<u8>, options: &Options) -> (r: Result<Thumbnail, PError>)
    requires
        options.wf(),
    ensures
        r == Err::<Thumbnail, PError>(PError::ImageDecodeError) <==> (!decode_ok(source@)
            || decoded_w(source@) == 0 || decoded_h(source@) == 0),
        r matches Ok(t) ==> output_shape_ok(
            decoded_w(source@) as int,
            decoded_h(source@) as int,
            *options,
            t.width as int,
            t.height as int,
        ),
        r matches Ok(t) ==> 1 <= t.width <= options.max_dimension,
        r matches Ok(t) ==> 1 <= t.height <= options.max_dimension,
        r matches Ok(t) ==> t.width as int <= out_dimension_spec(
            decoded_w(source@) as int,
            decoded_h(source@) as int,
            *options,
        ) && t.height as int <= out_dimension_spec(
            decoded_w(source@) as int,
            decoded_h(source@) as int,
            *options,
        ),
        r matches Ok(t) ==> (options.pad_to_square ==> t.width == t.height),
        r matches Err(e) ==> e == PError::ImageDecodeError || e == PError::ImageEncodeError,
{
    let bm = match decode_bitmap(source) {
        Ok(b) => b,
        Err(e) => {
            return Err(e);
        },
    };
    if bm.width == 0 || bm.height == 0 {
        return Err(PError::ImageDecodeError);
    }
    let plan = plan_thumbnail(bm.width, bm.height, options);
    let out = plan.out_dimension;
    if out > 65500 {
        // The JPEG format cannot carry such a dimension; encoding would
        // fail anyway.
        return Err(PError::ImageEncodeError);
    }
    assert(out >= 1);
    let fin: Bitmap;
    match plan.mode {
        ResizeMode::ExactSquare => {
            fin = resize_exact_bitmap(&bm, out, out);
        },
        ResizeMode::PadToSquare => {
            let scaled = resize_fit_bitmap(&bm, out);
            let mut canvas = white_canvas(out);
            let x = (out - scaled.width) / 2;
            let y = (out - scaled.height) / 2;
            assert(x + scaled.width <= canvas.width);
            assert(y + scaled.height <= canvas.height);
            match copy_onto(&mut canvas, &scaled, x, y) {
                Ok(()) => {},
                Err(_) => {
                    return Err(PError::ImageEncodeError);
                },
            }
            fin = canvas;
        },
        ResizeMode::PreserveAspect => {
            fin = resize_fit_bitmap(&bm, out);
        },
    }
    let bytes = match encode_jpeg(&fin) {
        Ok(b) => b,
        Err(e) => {
            return Err(e);
        },
    };
    proof {
        assert(output_shape_ok(
            bm.width as int,
            bm.height as int,
            *options,
            fin.width as int,
            fin.height as int,
        ));
    }
    Ok(Thumbnail { jpeg: bytes, width: fin.width, height: fin.height })
}

} // verus!
