//! The trusted boundary to the external format codecs: container sniffing,
//! decoding to RGBA pixels, PNG encoding and transform-based JPEG
//! re-encoding.  Every function here is an `external_body` wrapper around
//! one outside codec operation; the rest of the library is verified
//! against the contracts stated here.

use vstd::prelude::*;
use lodepng::Error as LodepngFailure;

use crate::color::Color;

verus! {

#[verifier::external_type_specification]
#[verifier::external_body]
pub struct ExImghdrType(imghdr::Type);

#[verifier::external_type_specification]
#[verifier::external_body]
pub struct ExImageError(image::ImageError);

#[verifier::external_type_specification]
#[verifier::external_body]
pub struct ExLodepngError(LodepngFailure);

/// What container sniffing saw in the buffer's leading bytes.
pub enum Sniffed {
    /// The PNG signature: the palette path.
    Png,
    /// A JPEG JFIF or Exif header: the transform path.
    Jpeg,
    /// A recognized but unsupported container.
    Other(imghdr::Type),
    /// No recognized container.
    NoMatch,
}

/// What `imghdr::from_bytes` answers for a buffer: a pure function of the
/// bytes alone.
pub uninterp spec fn sniff_of(bytes: Seq<u8>) -> Sniffed;

/// The eight-byte PNG signature.
pub open spec fn is_png_header(b: Seq<u8>) -> bool {
    b.len() >= 8 && b[0] == 0x89u8 && b[1] == 0x50u8 && b[2] == 0x4eu8 && b[3] == 0x47u8 && b[4]
        == 0x0du8 && b[5] == 0x0au8 && b[6] == 0x1au8 && b[7] == 0x0au8
}

/// A JFIF or Exif marker at offset six, as the sniffer checks it.
pub open spec fn is_jpeg_header(b: Seq<u8>) -> bool {
    b.len() >= 10 && ((b[6] == 0x4au8 && b[7] == 0x46u8 && b[8] == 0x49u8 && b[9] == 0x46u8) || (
    b[6] == 0x45u8 && b[7] == 0x78u8 && b[8] == 0x69u8 && b[9] == 0x66u8))
}

/// Relies on imghdr::from_bytes: recognizes a container from at most the
/// first twelve bytes (it indexes that far unchecked, hence the length
/// bound); PNG is checked first, then the JPEG marker at offset six.
#[verifier::external_body]
pub(crate) fn sniff(buf: &[u8]) -> (out: Sniffed)
    requires
        buf@.len() >= 12,
    ensures
        out == sniff_of(buf@),
        out is Png <==> is_png_header(buf@),
        out is Jpeg <==> (!is_png_header(buf@) && is_jpeg_header(buf@)),
{
    match imghdr::from_bytes(buf) {
        Some(imghdr::Type::Png) => Sniffed::Png,
        Some(imghdr::Type::Jpeg) => Sniffed::Jpeg,
        Some(t) => Sniffed::Other(t),
        None => Sniffed::NoMatch,
    }
}

/// A decoded image: dimensions and RGBA pixels, row-major.
pub struct Decoded {
    pub width: u32,
    pub height: u32,
    pub pixels: Vec<Color>,
}

/// What decoding a buffer yields, as width, height and row-major RGBA
/// pixels: a pure function of the bytes and the chosen format (`true` for
/// PNG, `false` for JPEG); `None` when decoding fails.
pub uninterp spec fn decoded_of(bytes: Seq<u8>, png: bool) -> Option<(u32, u32, Seq<Color>)>;

/// Relies on image::load_from_memory_with_format: decodes the buffer as
/// PNG or JPEG; the pixel buffer holds exactly width * height pixels,
/// both formats reject zero dimensions, and a Rust allocation is capped
/// at isize::MAX bytes, so four-byte pixels number at most usize::MAX / 8.
#[verifier::external_body]
pub(crate) fn decode_image(buf: &[u8], png: bool) -> (out: Result<Decoded, image::ImageError>)
    ensures
        out is Ok <==> decoded_of(buf@, png) is Some,
        out matches Ok(d) ==> decoded_of(buf@, png) matches Some(t) && d.width == t.0 && d.height
            == t.1 && d.pixels@ == t.2,
        out matches Ok(d) ==> d.pixels@.len() == d.width * d.height && 1 <= d.width && 1 <= d.height
            && d.pixels@.len() <= usize::MAX / 8,
{
    let format = if png { image::ImageFormat::Png } else { image::ImageFormat::Jpeg };
    match image::load_from_memory_with_format(buf, format) {
        Ok(img) => {
            let rgba = img.to_rgba8();
            let (width, height) = rgba.dimensions();
            let px = rgba.pixels().map(|p| Color { r: p.0[0], g: p.0[1], b: p.0[2], a: p.0[3] });
            Ok(Decoded { width, height, pixels: px.collect() })
        },
        Err(e) => Err(e),
    }
}

/// What PNG-encoding an RGBA buffer yields: a pure function of the bytes
/// and dimensions.
pub uninterp spec fn png_encoded_of(rgba: Seq<u8>, width: u32, height: u32) -> Seq<u8>;

/// Whether PNG-encoding the buffer succeeds: like the bytes produced,
/// a pure function of the arguments (the encoder is pure Rust and an
/// allocation failure aborts rather than returns).
pub uninterp spec fn png_encode_ok_of(rgba: Seq<u8>, width: u32, height: u32) -> bool;

/// Relies on lodepng::encode_memory: deterministic 8-bit RGBA PNG
/// encoding of a buffer of exactly width * height pixels.
#[verifier::external_body]
pub(crate) fn encode_png(rgba: &Vec<u8>, width: u32, height: u32) -> (out: Result<
    Vec<u8>,
    lodepng::Error,
>)
    requires
        rgba@.len() == 4 * width * height,
    ensures
        out is Ok <==> png_encode_ok_of(rgba@, width, height),
        out matches Ok(v) ==> v@ == png_encoded_of(rgba@, width, height),
{
    lodepng::encode_memory(
        rgba.as_slice(),
        width as usize,
        height as usize,
        lodepng::ColorType::RGBA,
        8,
    )
}

/// What JPEG re-encoding yields for RGB scanlines, dimensions and a
/// whole-number quality: a pure function of its arguments.
pub uninterp spec fn jpeg_encoded_of(rgb: Seq<u8>, width: u32, height: u32, quality: u16) -> Seq<
    u8,
>;

/// Whether JPEG re-encoding succeeds: a pure function of the arguments
/// (no randomness or threading on this path; out-of-memory unwinds
/// rather than returns).
pub uninterp spec fn jpeg_encode_ok_of(rgb: Seq<u8>, width: u32, height: u32, quality: u16) -> bool;

/// Relies on mozjpeg's Compress: re-encodes RGB scanlines at the given
/// quality (its own setter truncates quality to a whole number).  The
/// dimension bounds are libjpeg's limit; the buffer must hold exactly the
/// scanlines promised, or finishing would fail.
#[verifier::external_body]
pub(crate) fn encode_jpeg(rgb: &Vec<u8>, width: u32, height: u32, quality: u16) -> (out: Option<
    Vec<u8>,
>)
    requires
        1 <= width <= 65500,
        1 <= height <= 65500,
        rgb@.len() == 3 * width * height,
        quality <= 100,
    ensures
        out is Some <==> jpeg_encode_ok_of(rgb@, width, height, quality),
        out matches Some(v) ==> v@ == jpeg_encoded_of(rgb@, width, height, quality),
{
    let mut comp = mozjpeg::Compress::new(mozjpeg::ColorSpace::JCS_RGB);
    comp.set_size(width as usize, height as usize);
    comp.set_quality(quality.into());
    let mut started = match comp.start_compress(Vec::new()) {
        Ok(s) => s,
        Err(_) => return None,
    };
    if started.write_scanlines(rgb.as_slice()).is_err() {
        return None;
    }
    match started.finish() {
        Ok(v) => Some(v),
        Err(_) => None,
    }
}

} // verus!
