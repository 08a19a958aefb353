//! Thumbnail generation: decode image bytes to a canonical RGBA raster,
//! compute bounded preview dimensions that preserve the aspect ratio without
//! upscaling, resample when needed, and re-encode as base64 PNG text.
//!
//! The raster operations themselves are the image crate's; each one is named
//! and called through one trusted wrapper over plain byte buffers, and every
//! decision between them is verified.

use vstd::prelude::*;
use vstd::arithmetic::div_mod::{lemma_div_pos_is_pos, lemma_multiply_divide_lt};
use base64::Engine;
use crate::MediaError;

verus! {

/// A generated thumbnail: the PNG bytes as base64 text, the thumbnail
/// dimensions, and the full dimensions of the source image.
#[derive(Debug)]
pub struct ThumbnailInfo {
    pub data_base64: String,
    pub thumb_width: u32,
    pub thumb_height: u32,
    pub full_width: u32,
    pub full_height: u32,
}

/// What decoding a byte buffer to a canonical RGBA raster yields, if it
/// decodes at all: the raw RGBA bytes, the width and the height. A pure
/// function of the bytes alone.
pub uninterp spec fn decoded_rgba(bytes: Seq<u8>) -> Option<(Seq<u8>, u32, u32)>;

/// What resampling an RGBA raster of dimensions `w` by `h` to `nw` by `nh`
/// with the Lanczos filter yields. A pure function of its arguments alone.
pub uninterp spec fn resized_rgba(raw: Seq<u8>, w: u32, h: u32, nw: u32, nh: u32) -> Seq<u8>;

/// What PNG-encoding an RGBA raster of dimensions `w` by `h` yields, or
/// `None` where the encoder refuses it. A pure function of its arguments
/// alone.
pub uninterp spec fn png_of(raw: Seq<u8>, w: u32, h: u32) -> Option<Seq<u8>>;

/// What standard base64 encoding of a byte buffer yields. A pure function of
/// the bytes alone.
pub uninterp spec fn b64_of(bytes: Seq<u8>) -> Seq<char>;

/// Relies on `image::load_from_memory` (format auto-detected from the bytes)
/// and `DynamicImage::to_rgba8`: decoding is deterministic in the bytes, and
/// the canonical RGBA buffer holds exactly `width * height * 4` bytes.
#[verifier::external_body]
fn decode_rgba_image(bytes: &[u8]) -> (r: Option<(Vec<u8>, u32, u32)>)
    ensures
        (r is Some) == (decoded_rgba(bytes@) is Some),
        r matches Some(t) ==> decoded_rgba(bytes@) == Some((t.0@, t.1, t.2)) && t.0@.len() == t.1
            * t.2 * 4,
{
    match image::load_from_memory(bytes) {
        Ok(img) => {
            let rgba = img.to_rgba8();
            let (w, h) = rgba.dimensions();
            Some((rgba.into_raw(), w, h))
        },
        Err(_) => None,
    }
}

/// Relies on `image::imageops::resize` with `FilterType::Lanczos3`: the
/// result is deterministic in its arguments and is an RGBA raster of exactly
/// the requested dimensions.
#[verifier::external_body]
fn resize_rgba_image(raw: Vec<u8>, w: u32, h: u32, nw: u32, nh: u32) -> (r: Vec<u8>)
    requires
        raw@.len() == w * h * 4,
    ensures
        r@ == resized_rgba(raw@, w, h, nw, nh),
        r@.len() == nw * nh * 4,
{
    let buf = image::RgbaImage::from_raw(w, h, raw).unwrap();
    let out = image::imageops::resize(&buf, nw, nh, image::imageops::FilterType::Lanczos3);
    out.into_raw()
}

/// Relies on `DynamicImage::write_to` with PNG output: the encoded bytes are
/// deterministic in the raster and its dimensions.
#[verifier::external_body]
fn encode_png_rgba(raw: Vec<u8>, w: u32, h: u32) -> (r: Option<Vec<u8>>)
    requires
        raw@.len() == w * h * 4,
    ensures
        (r is Some) == (png_of(raw@, w, h) is Some),
        r matches Some(b) ==> png_of(raw@, w, h) == Some(b@),
{
    let buf = image::RgbaImage::from_raw(w, h, raw).unwrap();
    let img = image::DynamicImage::ImageRgba8(buf);
    let mut out: Vec<u8> = Vec::new();
    let mut cursor = std::io::Cursor::new(&mut out);
    match img.write_to(&mut cursor, image::ImageOutputFormat::Png) {
        Ok(()) => Some(out),
        Err(_) => None,
    }
}

/// Relies on `base64::engine::general_purpose::STANDARD.encode`: standard
/// base64 text, deterministic in the bytes.
#[verifier::external_body]
fn base64_encode(bytes: &Vec<u8>) -> (r: String)
    ensures
        r@ == b64_of(bytes@),
{
    base64::engine::general_purpose::STANDARD.encode(bytes)
}

/// `round(a / b)` over the integers, halves rounding up, for `b > 0`.
pub open spec fn spec_round_div(a: int, b: int) -> int {
    (2 * a + b) / (2 * b)
}

/// The thumbnail dimensions for a source of `w` by `h`: scaled uniformly so
/// the larger dimension becomes 256, unchanged when both already fit, and
/// each dimension floored at 1.
pub open spec fn spec_thumb_dims(w: u32, h: u32) -> (u32, u32) {
    if w <= 256 && h <= 256 {
        ((if w == 0 { 1u32 } else { w }), (if h == 0 { 1u32 } else { h }))
    } else {
        let m = if w >= h { w as int } else { h as int };
        let tw = spec_round_div(w as int * 256, m);
        let th = spec_round_div(h as int * 256, m);
        (((if tw < 1 { 1int } else { tw }) as u32), ((if th < 1 { 1int } else { th }) as u32))
    }
}

proof fn lemma_round_div_le_256(v: int, m: int)
    requires
        0 <= v <= m,
        257 <= m,
    ensures
        0 <= spec_round_div(v * 256, m) <= 256,
{
    lemma_div_pos_is_pos(2 * (v * 256) + m, 2 * m);
    assert(2 * (v * 256) + m < (2 * m) * 257) by (nonlinear_arith)
        requires
            0 <= v <= m,
            257 <= m,
    ;
    lemma_multiply_divide_lt(2 * (v * 256) + m, 2 * m, 257);
}

/// Law: thumbnail dimensions always lie between 1 and 256, and a source that
/// already fits the bound keeps its dimensions exactly.
pub proof fn lemma_thumb_dims_bounds(w: u32, h: u32)
    ensures
        1 <= spec_thumb_dims(w, h).0 <= 256,
        1 <= spec_thumb_dims(w, h).1 <= 256,
        (1 <= w <= 256 && 1 <= h <= 256) ==> spec_thumb_dims(w, h) == (w, h),
{
    if !(w <= 256 && h <= 256) {
        let m = if w >= h { w as int } else { h as int };
        lemma_round_div_le_256(w as int, m);
        lemma_round_div_le_256(h as int, m);
    }
}

/// Computes the thumbnail dimensions for a source of `w` by `h`.
pub fn thumb_dims(w: u32, h: u32) -> (r: (u32, u32))
    ensures
        r == spec_thumb_dims(w, h),
{
    if w <= 256 && h <= 256 {
        (if w == 0 { 1 } else { w }, if h == 0 { 1 } else { h })
    } else {
        let m: u64 = if w >= h {
            w as u64
        } else {
            h as u64
        };
        let tw64: u64 = (2 * (w as u64) * 256 + m) / (2 * m);
        let th64: u64 = (2 * (h as u64) * 256 + m) / (2 * m);
        proof {
            lemma_round_div_le_256(w as int, m as int);
            lemma_round_div_le_256(h as int, m as int);
        }
        let tw: u32 = if tw64 < 1 {
            1
        } else {
            tw64 as u32
        };
        let th: u32 = if th64 < 1 {
            1
        } else {
            th64 as u32
        };
        (tw, th)
    }
}

/// The raster that is encoded for a decoded source `d`: the canonical RGBA
/// buffer itself when the source already fits the bound, otherwise its
/// Lanczos resample at the thumbnail dimensions.
pub open spec fn spec_thumb_raster(d: (Seq<u8>, u32, u32)) -> (Seq<u8>, u32, u32) {
    let (raw, fw, fh) = d;
    if fw <= 256 && fh <= 256 {
        d
    } else {
        let (tw, th) = spec_thumb_dims(fw, fh);
        (resized_rgba(raw, fw, fh, tw, th), tw, th)
    }
}

/// The PNG encoding of the thumbnail raster for a decoded source `d`, or
/// `None` where the encoder refuses it.
pub open spec fn spec_thumb_png(d: (Seq<u8>, u32, u32)) -> Option<Seq<u8>> {
    let (raw, w, h) = spec_thumb_raster(d);
    png_of(raw, w, h)
}

/// Generates a thumbnail from the raw bytes of an image file: decodes them
/// (rejecting undecodable bytes), computes the bounded dimensions, resamples
/// only when the source exceeds the bound, and returns the PNG as base64 text
/// with both dimension pairs.
pub fn get_thumbnail_from_bytes(bytes: &[u8]) -> (r: Result<ThumbnailInfo, MediaError>)
    ensures
        (r == Result::<ThumbnailInfo, MediaError>::Err(MediaError::DecodeError)) == (decoded_rgba(
            bytes@,
        ) is None),
        decoded_rgba(bytes@) matches Some(d) ==> {
            &&& (r is Ok) == (spec_thumb_png(d) is Some)
            &&& (spec_thumb_png(d) is None) ==> r == Result::<ThumbnailInfo, MediaError>::Err(
                MediaError::EncodeError,
            )
        },
        r matches Ok(t) ==> decoded_rgba(bytes@) matches Some(d) && {
            let (raw, fw, fh) = d;
            &&& t.full_width == fw
            &&& t.full_height == fh
            &&& (t.thumb_width, t.thumb_height) == spec_thumb_dims(fw, fh)
            &&& 1 <= t.thumb_width <= 256
            &&& 1 <= t.thumb_height <= 256
            &&& spec_thumb_png(d) matches Some(png) && t.data_base64@ == b64_of(png)
        },
{
    match decode_rgba_image(bytes) {
        None => Err(MediaError::DecodeError),
        Some((raw, fw, fh)) => {
            proof {
                lemma_thumb_dims_bounds(fw, fh);
            }
            let (tw, th) = thumb_dims(fw, fh);
            let (traw, ew, eh) = if fw <= 256 && fh <= 256 {
                (raw, fw, fh)
            } else {
                (resize_rgba_image(raw, fw, fh, tw, th), tw, th)
            };
            match encode_png_rgba(traw, ew, eh) {
                None => Err(MediaError::EncodeError),
                Some(png) => {
                    let b64 = base64_encode(&png);
                    Ok(
                        ThumbnailInfo {
                            data_base64: b64,
                            thumb_width: tw,
                            thumb_height: th,
                            full_width: fw,
                            full_height: fh,
                        },
                    )
                },
            }
        },
    }
}

} // verus!
