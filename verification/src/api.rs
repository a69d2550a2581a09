//! The top-level operation: validate the quality, sniff the container,
//! route to the palette path (PNG) or the transform path (JPEG), and
//! return the re-encoded bytes or a typed error.

use vstd::prelude::*;
use vstd::arithmetic::div_mod::lemma_div_is_ordered;

use crate::color::Color;
use crate::palette::build_palette;
use crate::palette::build_palette_spec;
use crate::palette::lemma_build_palette_len;
use crate::dither::dither;
use crate::dither::dither_spec;
use crate::dither::expand_palette;
use crate::dither::expand_spec;
use crate::codec::Sniffed;
use crate::codec::decode_image;
use crate::codec::decoded_of;
use crate::codec::encode_jpeg;
use crate::codec::encode_png;
use crate::codec::jpeg_encode_ok_of;
use crate::codec::jpeg_encoded_of;
use crate::codec::png_encode_ok_of;
use crate::codec::png_encoded_of;
use crate::codec::sniff;
use crate::codec::sniff_of;

verus! {

/// Why an operation failed.  Decode and PNG-encode failures carry the
/// external codec's error through unchanged.
#[derive(Debug)]
pub enum Error {
    /// The quality was outside [0, 100].
    QualityOutOfRange,
    /// No recognized container in the buffer's header.
    UnexpectedImageType,
    /// A recognized container that is neither PNG nor JPEG.
    UnsupportedImageType(imghdr::Type),
    /// The decoder rejected the buffer.
    ImageError(image::ImageError),
    /// The PNG encoder failed.
    LodepngError(lodepng::Error),
    /// The JPEG encoder failed, or the image exceeds its dimension limit.
    MozjpegError,
}

/// The palette budget for a quality given in hundredths of a percent:
/// floor(quality / 100 * 256), clamped to at least one entry.
pub open spec fn palette_size_spec(q: int) -> int {
    let k = q * 256 / 10000;
    if k < 1 {
        1
    } else {
        k
    }
}

/// Computes the palette budget; it always lies in [1, 256], and full
/// quality asks for the container maximum of 256.
pub fn palette_size(quality: i64) -> (k: usize)
    requires
        0 <= quality <= 10000,
    ensures
        k == palette_size_spec(quality as int),
        1 <= k <= 256,
        quality == 10000 ==> k == 256,
{
    proof {
        lemma_div_is_ordered((quality as int) * 256, 2560000, 10000);
    }
    let k = (quality as u64) * 256 / 10000;
    if k < 1 {
        1
    } else {
        k as usize
    }
}

/// The pixels of `s` flattened to RGB bytes, the alpha channel dropped.
pub open spec fn rgb_of(s: Seq<Color>) -> Seq<u8>
    decreases s.len(),
{
    if s.len() == 0 {
        Seq::empty()
    } else {
        rgb_of(s.drop_last()) + seq![s.last().r, s.last().g, s.last().b]
    }
}

/// Flattens RGBA pixels to the RGB scanlines the transform encoder takes.
pub fn rgba_to_rgb(px: &Vec<Color>) -> (out: Vec<u8>)
    ensures
        out@ == rgb_of(px@),
        out@.len() == 3 * px@.len(),
{
    let mut out: Vec<u8> = Vec::new();
    let mut i: usize = 0;
    proof {
        assert(px@.take(0) =~= Seq::<Color>::empty());
    }
    while i < px.len()
        invariant
            0 <= i <= px@.len(),
            out@ == rgb_of(px@.take(i as int)),
            out@.len() == 3 * i,
        decreases px@.len() - i,
    {
        let c = px[i];
        out.push(c.r);
        out.push(c.g);
        out.push(c.b);
        proof {
            assert(px@.take(i as int + 1).drop_last() =~= px@.take(i as int));
            assert(px@.take(i as int + 1).last() == px@[i as int]);
            assert(out@ =~= rgb_of(px@.take(i as int)) + seq![c.r, c.g, c.b]);
        }
        i = i + 1;
    }
    proof {
        assert(px@.take(px@.len() as int) =~= px@);
    }
    out
}

/// The quantized image body for the palette path: the palette clustered
/// at budget `k`, the dithered index stream, and the indices expanded
/// back to RGBA bytes.
pub open spec fn quantized_image_spec(px: Seq<Color>, w: int, k: int) -> Seq<u8> {
    if px.len() == 0 {
        Seq::empty()
    } else {
        expand_spec(build_palette_spec(px, k), dither_spec(px, build_palette_spec(px, k), w))
    }
}

/// For every valid quality and nonempty image, the palette holds at least
/// one entry and no more than the budget floor(quality / 100 * 256); when
/// that floor is at least one, the palette stays within it exactly.
pub proof fn lemma_palette_within_budget(s: Seq<Color>, q: int)
    requires
        0 <= q <= 10000,
        s.len() >= 1,
    ensures
        1 <= build_palette_spec(s, palette_size_spec(q)).len(),
        build_palette_spec(s, palette_size_spec(q)).len() <= palette_size_spec(q),
        q * 256 / 10000 >= 1 ==> build_palette_spec(s, palette_size_spec(q)).len() <= q * 256
            / 10000,
{
    lemma_build_palette_len(s, palette_size_spec(q));
}

/// Everything the recompression operation promises of its result, for a
/// given input buffer and quality (in hundredths of a percent).
///
/// Each error kind is stated if-and-only-if, success is stated
/// if-and-only-if through the encoders' named success conditions, and
/// every successful output equals a pure function of the input bytes and
/// quality — so the whole outcome, except the opaque payload carried by
/// a decode or encode error, is a function of the input.
pub open spec fn tinify_post(bytes: Seq<u8>, quality: int, out: Result<Vec<u8>, Error>) -> bool {
    &&& ((out matches Err(e) && e is QualityOutOfRange) <==> !(0 <= quality <= 10000))
    &&& (0 <= quality <= 10000 ==> ((out matches Err(e) && e is UnexpectedImageType) <==> (
    bytes.len() < 12 || sniff_of(bytes) is NoMatch)))
    &&& (0 <= quality <= 10000 ==> ((out matches Err(e) && e is UnsupportedImageType) <==> (
    bytes.len() >= 12 && sniff_of(bytes) is Other)))
    &&& (out matches Err(e) ==> (e matches Error::UnsupportedImageType(tag) ==> sniff_of(bytes)
        == Sniffed::Other(tag)))
    &&& (0 <= quality <= 10000 && bytes.len() >= 12 && sniff_of(bytes) is Png ==> {
        &&& ((out matches Err(e) && e is ImageError) <==> decoded_of(bytes, true) is None)
        &&& (decoded_of(bytes, true) matches Some(t) ==> {
            &&& (out is Ok <==> png_encode_ok_of(
                quantized_image_spec(t.2, t.0 as int, palette_size_spec(quality)),
                t.0,
                t.1,
            ))
            &&& (out matches Ok(v) ==> v@ == png_encoded_of(
                quantized_image_spec(t.2, t.0 as int, palette_size_spec(quality)),
                t.0,
                t.1,
            ))
            &&& (out matches Err(e) ==> e is LodepngError)
        })
    })
    &&& (0 <= quality <= 10000 && bytes.len() >= 12 && sniff_of(bytes) is Jpeg ==> {
        &&& ((out matches Err(e) && e is ImageError) <==> decoded_of(bytes, false) is None)
        &&& (decoded_of(bytes, false) matches Some(t) ==> {
            &&& (out is Ok <==> (t.0 <= 65500 && t.1 <= 65500 && jpeg_encode_ok_of(
                rgb_of(t.2),
                t.0,
                t.1,
                (quality / 100) as u16,
            )))
            &&& (out matches Ok(v) ==> v@ == jpeg_encoded_of(
                rgb_of(t.2),
                t.0,
                t.1,
                (quality / 100) as u16,
            ))
            &&& (out matches Err(e) ==> e is MozjpegError)
        })
    })
}

/// Recompresses an encoded image at the given quality, in hundredths of
/// a percent (7000 stands for quality 70).
///
/// PNG goes through the palette path: a clustered palette of at most
/// floor(quality / 100 * 256) colors (at least one), error-diffusion
/// dithering, and a deterministic re-encode.  JPEG goes through the
/// external transform encoder at the same quality.  The contract pins
/// the outcome to pure functions of the input bytes and quality; see
/// `tinify_post` and `lemma_deterministic`.
pub fn tinify(buf: &[u8], quality: i64) -> (out: Result<Vec<u8>, Error>)
    ensures
        tinify_post(buf@, quality as int, out),
{
    if quality < 0 || quality > 10000 {
        return Err(Error::QualityOutOfRange);
    }
    if buf.len() < 12 {
        return Err(Error::UnexpectedImageType);
    }
    let sniffed = sniff(buf);
    let png: bool = match sniffed {
        Sniffed::Png => true,
        Sniffed::Jpeg => false,
        Sniffed::NoMatch => {
            return Err(Error::UnexpectedImageType);
        },
        Sniffed::Other(t) => {
            return Err(Error::UnsupportedImageType(t));
        },
    };
    let dec = match decode_image(buf, png) {
        Ok(d) => d,
        Err(e) => {
            return Err(Error::ImageError(e));
        },
    };
    if png {
        let k = palette_size(quality);
        proof {
            assert(dec.pixels@.len() >= 1 && dec.width >= 1) by (nonlinear_arith)
                requires
                    dec.pixels@.len() == dec.width * dec.height,
                    dec.width >= 1,
                    dec.height >= 1,
            ;
            assert(dec.width <= dec.pixels@.len()) by (nonlinear_arith)
                requires
                    dec.pixels@.len() == dec.width * dec.height,
                    dec.height >= 1,
            ;
        }
        let pal = build_palette(&dec.pixels, k);
        let idx = dither(&dec.pixels, &pal, dec.width as usize);
        let rgba = expand_palette(&pal, &idx);
        proof {
            assert(4 * ((dec.width as int) * (dec.height as int)) == 4 * (dec.width as int) * (
            dec.height as int)) by (nonlinear_arith);
        }
        match encode_png(&rgba, dec.width, dec.height) {
            Ok(v) => Ok(v),
            Err(e) => Err(Error::LodepngError(e)),
        }
    } else {
        let rgb = rgba_to_rgb(&dec.pixels);
        if dec.width > 65500 || dec.height > 65500 {
            return Err(Error::MozjpegError);
        }
        let q100 = ((quality as u64) / 100) as u16;
        proof {
            assert(3 * ((dec.width as int) * (dec.height as int)) == 3 * (dec.width as int) * (
            dec.height as int)) by (nonlinear_arith);
        }
        match encode_jpeg(&rgb, dec.width, dec.height, q100) {
            Some(v) => Ok(v),
            None => Err(Error::MozjpegError),
        }
    }
}

/// Determinism: the contract pins, for every input, whether the
/// operation succeeds and, on success, the exact output bytes.  Any two
/// results it admits for byte-identical input and the same quality agree:
/// both succeed or both fail, successful outputs are byte-identical, and
/// failures carry the same error kind (and the same format tag on an
/// unsupported format).  Only the opaque payload inside a decode or
/// PNG-encode error is not pinned.
pub proof fn lemma_deterministic(
    bytes: Seq<u8>,
    quality: int,
    r1: Result<Vec<u8>, Error>,
    r2: Result<Vec<u8>, Error>,
)
    requires
        tinify_post(bytes, quality, r1),
        tinify_post(bytes, quality, r2),
    ensures
        r1 is Ok <==> r2 is Ok,
        (r1 matches Ok(a) ==> (r2 matches Ok(b) ==> a@ == b@)),
        (r1 matches Err(a) ==> (r2 matches Err(b) ==> {
            &&& (a is QualityOutOfRange <==> b is QualityOutOfRange)
            &&& (a is UnexpectedImageType <==> b is UnexpectedImageType)
            &&& (a is UnsupportedImageType <==> b is UnsupportedImageType)
            &&& (a is ImageError <==> b is ImageError)
            &&& (a is LodepngError <==> b is LodepngError)
            &&& (a is MozjpegError <==> b is MozjpegError)
        })),
        (r1 matches Err(a) ==> (r2 matches Err(b) ==> (a matches Error::UnsupportedImageType(
            t1,
        ) ==> (b matches Error::UnsupportedImageType(t2) ==> t1 == t2)))),
{
    if 0 <= quality <= 10000 && bytes.len() >= 12 {
        let s = sniff_of(bytes);
        if s is Png {
            if decoded_of(bytes, true) matches Some(t) {
                assert(r1 is Ok <==> r2 is Ok);
            }
        } else if s is Jpeg {
            if decoded_of(bytes, false) matches Some(t) {
                assert(r1 is Ok <==> r2 is Ok);
            }
        }
    }
}

} // verus!
