//! Encoding and decoding of tile images. The codecs themselves are outside
//! crates; what is decided here is which codec gets which bytes, and what
//! becomes of what they return.

use crate::args::Format;
use crate::raster::{
    all_opaque, alpha_of, compose_quadrants, join_alpha, joined, opaque_of, opaque_plane,
    split_alpha, Bands,
};
use image::codecs::jpeg::JpegDecoder;
use image::codecs::png::{CompressionType, FilterType, PngEncoder};
use image::imageops::{resize, FilterType as Kernel};
use image::{GrayAlphaImage, ImageDecoder, ImageEncoder, RgbaImage};
use std::io::Cursor;
use vstd::prelude::*;

verus! {

/// The error of the `image` crate's encoders and decoders; carried through,
/// never looked into.
#[verifier::external_type_specification]
#[verifier::external_body]
pub struct ExImageError(image::ImageError);

/// The error of the `jpeg_encoder` crate; carried through, never looked into.
#[verifier::external_type_specification]
#[verifier::external_body]
pub struct ExEncodingError(jpeg_encoder::EncodingError);

/// The error of std's readers and writers, which `zstd` returns; carried
/// through, never looked into.
#[verifier::external_type_specification]
#[verifier::external_body]
pub struct ExIoError(std::io::Error);

/// The JPEG stream that `jpeg_encoder` writes for a square image of `side`
/// pixels with `channels` bytes per pixel at the given quality.
pub uninterp spec fn jpeg_stream(pixels: Seq<u8>, side: int, quality: int, channels: int) -> Seq<u8>;

/// The PNG stream that `image` writes for a square image of `side` pixels
/// with `channels` bytes per pixel, at its best compression with the
/// adaptive filter.
pub uninterp spec fn png_stream(pixels: Seq<u8>, side: int, channels: int) -> Seq<u8>;

/// The zstd frame into which `zstd` packs the bytes at its default level,
/// or nothing where it fails to pack them.
pub uninterp spec fn zstd_frame(plain: Seq<u8>) -> Option<Seq<u8>>;

/// The bytes that `zstd` unpacks from a frame.
pub uninterp spec fn zstd_plain(frame: Seq<u8>) -> Seq<u8>;

/// What went wrong in a codec, or between two of them.
#[derive(Debug, Clone, Copy, PartialEq, Eq, Structural)]
pub enum CodecError {
    /// The JPEG encoder refused the colour bytes.
    JpegEncode,
    /// The PNG encoder refused the pixels.
    PngEncode,
    /// The alpha plane could not be packed.
    AlphaEncode,
    /// The stored image is not a JPEG that can be decoded.
    MainDecode,
    /// The stored alpha plane is not a frame that can be unpacked.
    AlphaDecode,
    /// The stored image or alpha plane does not have the size of a tile.
    Layout,
    /// The composed square could not be scaled down.
    Resize,
}

/// What the archive stores for one tile.
pub struct Encoded {
    pub main: Vec<u8>,
    pub alpha: Vec<u8>,
}

/// `jpeg_encoder::Encoder::new` on an empty vector, then `Encoder::encode`
/// with equal width and height, `ColorType::Luma` for one colour byte per
/// pixel and `ColorType::Rgb` for three. The encoder refuses a side of zero
/// and a buffer with fewer bytes than the pixels need, and nothing else: it
/// writes to a vector, which takes every byte. On success the vector holds
/// the JPEG stream, which depends on nothing but these arguments and begins
/// with the two bytes of the start-of-image marker.
#[verifier::external_body]
fn jpeg_encode(pixels: &Vec<u8>, side: u16, quality: u8, bands: Bands) -> (out: Result<
    Vec<u8>,
    jpeg_encoder::EncodingError,
>)
    ensures
        out is Ok <==> (side > 0 && pixels@.len() >= side * side * (bands.count() - 1)),
        out matches Ok(bytes) ==> bytes@ == jpeg_stream(
            pixels@,
            side as int,
            quality as int,
            bands.count() - 1,
        ),
        out matches Ok(bytes) ==> bytes@.len() >= 2,
{
    let mut encoded = Vec::new();
    let color_type = match bands {
        Bands::GrayAlpha => jpeg_encoder::ColorType::Luma,
        Bands::Rgba => jpeg_encoder::ColorType::Rgb,
    };
    jpeg_encoder::Encoder::new(&mut encoded, quality).encode(pixels, side, side, color_type)?;
    Ok(encoded)
}

/// `image::codecs::png::PngEncoder::new_with_quality` on an empty vector
/// with `CompressionType::Best` and `FilterType::Adaptive`, then
/// `ImageEncoder::write_image` with equal width and height, `La8` for two
/// bytes per pixel and `Rgba8` for four. It panics unless the buffer has
/// exactly one byte per band and pixel. For such a buffer the encoder
/// refuses a side of zero and nothing else: it writes to a vector, which
/// takes every byte. On success the vector holds the PNG stream, which
/// depends on nothing but these arguments and begins with the eight bytes
/// of the PNG signature.
#[verifier::external_body]
fn png_encode(pixels: &Vec<u8>, side: u32, bands: Bands) -> (out: Result<
    Vec<u8>,
    image::ImageError,
>)
    requires
        pixels@.len() == side * side * bands.count(),
    ensures
        out is Ok <==> (side > 0),
        out matches Ok(bytes) ==> bytes@ == png_stream(pixels@, side as int, bands.count()),
        out matches Ok(bytes) ==> bytes@.len() >= 8,
{
    let mut encoded = Vec::new();
    let color_type = match bands {
        Bands::GrayAlpha => image::ExtendedColorType::La8,
        Bands::Rgba => image::ExtendedColorType::Rgba8,
    };
    PngEncoder::new_with_quality(&mut encoded, CompressionType::Best, FilterType::Adaptive)
        .write_image(pixels, side, side, color_type)?;
    Ok(encoded)
}

/// `zstd::stream::encode_all` at level 0, zstd's default. Whether it
/// succeeds, and the frame where it does, depend on nothing but the bytes.
/// A frame begins with zstd's magic number of four bytes.
#[verifier::external_body]
fn zstd_pack(plain: &Vec<u8>) -> (out: Result<Vec<u8>, std::io::Error>)
    ensures
        match out {
            Ok(frame) => zstd_frame(plain@) == Some(frame@) && frame@.len() >= 4,
            Err(_) => zstd_frame(plain@) is None,
        },
{
    zstd::stream::encode_all(plain.as_slice(), 0)
}

/// What is stored for a tile in a PNG archive, given what the PNG encoder
/// returned: its stream and no alpha.
pub fn png_record(stream: Result<Vec<u8>, image::ImageError>) -> (out: Result<Encoded, CodecError>)
    ensures
        match stream {
            Ok(bytes) => out matches Ok(record) && record.main@ == bytes@ && record.alpha@.len()
                == 0,
            Err(_) => out == Err::<Encoded, CodecError>(CodecError::PngEncode),
        },
{
    match stream {
        Ok(main) => Ok(Encoded { main, alpha: Vec::new() }),
        Err(_) => Err(CodecError::PngEncode),
    }
}

/// What is stored for a tile in a JPEG archive, given what the JPEG encoder
/// returned for the colour bytes and, where the alpha plane had to be
/// packed, what zstd returned for it: the stream, and the frame or nothing.
pub fn jpeg_record(
    stream: Result<Vec<u8>, jpeg_encoder::EncodingError>,
    frame: Option<Result<Vec<u8>, std::io::Error>>,
) -> (out: Result<Encoded, CodecError>)
    ensures
        match (stream, frame) {
            (Err(_), _) => out == Err::<Encoded, CodecError>(CodecError::JpegEncode),
            (Ok(_), Some(Err(_))) => out == Err::<Encoded, CodecError>(CodecError::AlphaEncode),
            (Ok(bytes), Some(Ok(packed))) => out matches Ok(record) && record.main@ == bytes@
                && record.alpha@ == packed@,
            (Ok(bytes), None) => out matches Ok(record) && record.main@ == bytes@
                && record.alpha@.len() == 0,
        },
{
    let main = match stream {
        Ok(main) => main,
        Err(_) => {
            return Err(CodecError::JpegEncode);
        },
    };
    match frame {
        None => Ok(Encoded { main, alpha: Vec::new() }),
        Some(Ok(alpha)) => Ok(Encoded { main, alpha }),
        Some(Err(_)) => Err(CodecError::AlphaEncode),
    }
}

/// `main` and `alpha` are what the archive stores for the pixels: in a PNG
/// archive the PNG of the whole buffer and no alpha; in a JPEG archive the
/// JPEG of the colour bytes and the zstd frame of the alpha plane, or no
/// alpha where every pixel is fully opaque. The image is never empty, so
/// it is not taken for the mark of an empty tile; a frame is never empty,
/// so the alpha is empty for a fully opaque tile only.
pub open spec fn is_encoding(
    main: Seq<u8>,
    alpha: Seq<u8>,
    pixels: Seq<u8>,
    side: int,
    bands: Bands,
    format: Format,
    quality: int,
) -> bool {
    match format {
        Format::PNG => {
            &&& main == png_stream(pixels, side, bands.count())
            &&& main.len() >= 8
            &&& alpha.len() == 0
        },
        Format::JPEG => {
            &&& main == jpeg_stream(opaque_of(pixels, bands.count()), side, quality, bands.count() - 1)
            &&& main.len() >= 2
            &&& if all_opaque(alpha_of(pixels, bands.count())) {
                alpha.len() == 0
            } else {
                &&& zstd_frame(alpha_of(pixels, bands.count())) == Some(alpha)
                &&& alpha.len() >= 4
            }
        },
    }
}

/// Why the pixels of a tile cannot be encoded, if they cannot: an image
/// without pixels is refused by either encoder, and in a JPEG archive the
/// alpha plane of a tile that is not fully opaque has to be packed.
pub open spec fn encode_failure(pixels: Seq<u8>, side: int, bands: Bands, format: Format) -> Option<
    CodecError,
> {
    match format {
        Format::PNG => if side == 0 {
            Some(CodecError::PngEncode)
        } else {
            None
        },
        Format::JPEG => if side == 0 {
            Some(CodecError::JpegEncode)
        } else if !all_opaque(alpha_of(pixels, bands.count())) && zstd_frame(
            alpha_of(pixels, bands.count()),
        ) is None {
            Some(CodecError::AlphaEncode)
        } else {
            None
        },
    }
}

/// A buffer with one byte for each band of each pixel of a square holds
/// that many whole pixels.
pub proof fn lemma_square_pixels(pixels: Seq<u8>, side: int, bands: int)
    requires
        bands >= 2,
        side >= 0,
        pixels.len() == side * side * bands,
    ensures
        crate::raster::pixel_count(pixels, bands) == side * side,
        opaque_of(pixels, bands).len() == side * side * (bands - 1),
        alpha_of(pixels, bands).len() == side * side,
{
    assert(0 <= side * side) by (nonlinear_arith)
        requires
            side >= 0,
    ;
    vstd::arithmetic::div_mod::lemma_fundamental_div_mod_converse(
        side * side * bands,
        bands,
        side * side,
        0,
    );
    assert(0 <= side * side * (bands - 1)) by (nonlinear_arith)
        requires
            0 <= side * side,
            bands >= 2,
    ;
}

/// Encodes the pixels of a tile for the archive. A PNG archive gets the
/// whole buffer as one PNG. A JPEG archive gets the colour bytes as a JPEG
/// and, unless every pixel is fully opaque, the alpha plane as a zstd
/// frame; for a fully opaque tile the alpha is empty. It fails where
/// `encode_failure` says, and nowhere else.
pub fn encode_tile(pixels: &Vec<u8>, side: u16, bands: Bands, format: Format, quality: u8) -> (out:
    Result<Encoded, CodecError>)
    requires
        pixels@.len() == side * side * bands.count(),
    ensures
        match out {
            Ok(record) => {
                &&& encode_failure(pixels@, side as int, bands, format) is None
                &&& is_encoding(
                    record.main@,
                    record.alpha@,
                    pixels@,
                    side as int,
                    bands,
                    format,
                    quality as int,
                )
            },
            Err(e) => encode_failure(pixels@, side as int, bands, format) == Some(e),
        },
{
    match format {
        Format::PNG => png_record(png_encode(pixels, side as u32, bands)),
        Format::JPEG => {
            proof {
                lemma_square_pixels(pixels@, side as int, bands.count());
            }
            let (opaque, alpha, fully_opaque) = split_alpha(pixels, bands);
            let frame = if fully_opaque {
                None
            } else {
                Some(zstd_pack(&alpha))
            };
            proof {
                if side == 0 {
                    assert(all_opaque(alpha@));
                }
            }
            jpeg_record(jpeg_encode(&opaque, side, quality, bands), frame)
        },
    }
}

/// A decoded image: its width and height in pixels and its bytes.
pub struct Decoded {
    pub width: u32,
    pub height: u32,
    pub pixels: Vec<u8>,
}

/// `image::codecs::jpeg::JpegDecoder::new` on the bytes, then
/// `ImageDecoder::dimensions` and `ImageDecoder::read_image` into a buffer
/// of `ImageDecoder::total_bytes` bytes. Nothing is claimed of what comes
/// back: the bytes are a stranger's, and the decoder may round as the
/// machine likes.
#[verifier::external_body]
fn jpeg_decode(stream: &Vec<u8>) -> (out: Result<Decoded, image::ImageError>)
{
    let decoder = JpegDecoder::new(Cursor::new(stream))?;
    let (width, height) = decoder.dimensions();
    let mut pixels = vec![0u8; decoder.total_bytes() as usize];
    decoder.read_image(&mut pixels)?;
    Ok(Decoded { width, height, pixels })
}

/// `zstd::stream::decode_all`. On success the result is what the frame
/// holds, which depends on nothing but the frame. zstd is lossless: from a
/// frame that it packed itself it unpacks the bytes that were packed.
#[verifier::external_body]
fn zstd_unpack(frame: &Vec<u8>) -> (out: Result<Vec<u8>, std::io::Error>)
    ensures
        out matches Ok(plain) ==> plain@ == zstd_plain(frame@),
        out matches Ok(plain) ==> forall|source: Seq<u8>|
            #[trigger] zstd_frame(source) == Some(frame@) ==> plain@ == source,
{
    zstd::stream::decode_all(frame.as_slice())
}

/// `image::RgbaImage::from_vec`, then `image::imageops::resize` with
/// `FilterType::Lanczos3`, then `ImageBuffer::into_raw`. `from_vec` gives
/// nothing for a buffer too short for the square, and for no other; the
/// scaled image has four bytes for each of its pixels. The bytes themselves
/// come from floating point sums and are not claimed.
#[verifier::external_body]
fn resize_rgba(pixels: Vec<u8>, from_side: u32, to_side: u32) -> (out: Option<Vec<u8>>)
    requires
        0 < to_side < from_side,
        64 * from_side * from_side <= usize::MAX,
    ensures
        out is Some <==> (pixels@.len() >= from_side * from_side * 4),
        out matches Some(small) ==> small@.len() == to_side * to_side * 4,
{
    RgbaImage::from_vec(from_side, from_side, pixels).map(
        |image| resize(&image, to_side, to_side, Kernel::Lanczos3).into_raw(),
    )
}

/// `image::GrayAlphaImage::from_vec`, then `image::imageops::resize` with
/// `FilterType::Lanczos3`, then `ImageBuffer::into_raw`. `from_vec` gives
/// nothing for a buffer too short for the square, and for no other; the
/// scaled image has two bytes for each of its pixels. The bytes themselves
/// come from floating point sums and are not claimed.
#[verifier::external_body]
fn resize_gray_alpha(pixels: Vec<u8>, from_side: u32, to_side: u32) -> (out: Option<Vec<u8>>)
    requires
        0 < to_side < from_side,
        64 * from_side * from_side <= usize::MAX,
    ensures
        out is Some <==> (pixels@.len() >= from_side * from_side * 2),
        out matches Some(small) ==> small@.len() == to_side * to_side * 2,
{
    GrayAlphaImage::from_vec(from_side, from_side, pixels).map(
        |image| resize(&image, to_side, to_side, Kernel::Lanczos3).into_raw(),
    )
}

/// The pixels of a stored tile, given what the decoders made of its two
/// blobs: the decoded image woven with the alpha plane, where the stored
/// alpha was empty with a fully opaque plane. The image must be a tile:
/// `side` pixels wide and high, with one byte for each colour band.
pub fn restored_pixels(
    image: Result<Decoded, image::ImageError>,
    alpha: Option<Result<Vec<u8>, std::io::Error>>,
    side: u16,
    bands: Bands,
) -> (out: Result<Vec<u8>, CodecError>)
    requires
        side * side * bands.count() <= usize::MAX,
    ensures
        match (image, alpha) {
            (Err(_), _) => out == Err::<Vec<u8>, CodecError>(CodecError::MainDecode),
            (Ok(_), Some(Err(_))) => out == Err::<Vec<u8>, CodecError>(CodecError::AlphaDecode),
            (Ok(picture), Some(Ok(plane))) => if picture.width == side && picture.height == side
                && plane@.len() == side * side && picture.pixels@.len() == side * side * (
            bands.count() - 1) {
                out matches Ok(buf) && buf@ == joined(picture.pixels@, plane@, bands.count())
            } else {
                out == Err::<Vec<u8>, CodecError>(CodecError::Layout)
            },
            (Ok(picture), None) => if picture.width == side && picture.height == side
                && picture.pixels@.len() == side * side * (bands.count() - 1) {
                out matches Ok(buf) && buf@ == joined(
                    picture.pixels@,
                    Seq::new((side * side) as nat, |p: int| 255u8),
                    bands.count(),
                )
            } else {
                out == Err::<Vec<u8>, CodecError>(CodecError::Layout)
            },
        },
        out matches Ok(buf) ==> buf@.len() == side * side * bands.count(),
{
    let picture = match image {
        Ok(picture) => picture,
        Err(_) => {
            return Err(CodecError::MainDecode);
        },
    };
    let n = bands.channels();
    proof {
        assert(0 <= side * side <= side * side * n) by (nonlinear_arith)
            requires
                1 <= n,
                0 <= side,
        ;
    }
    let area = (side as usize) * (side as usize);
    let plane = match alpha {
        None => opaque_plane(side as usize),
        Some(Ok(plane)) => plane,
        Some(Err(_)) => {
            return Err(CodecError::AlphaDecode);
        },
    };
    if picture.width != side as u32 || picture.height != side as u32 || plane.len() != area {
        return Err(CodecError::Layout);
    }
    proof {
        if alpha is None {
            assert(plane@ =~= Seq::new((side * side) as nat, |p: int| 255u8));
        }
    }
    match join_alpha(&picture.pixels, &plane, bands) {
        Some(buf) => Ok(buf),
        None => Err(CodecError::Layout),
    }
}

/// Parting what was woven gives the two parts back.
pub proof fn lemma_split_of_joined(opaque: Seq<u8>, alpha: Seq<u8>, bands: int)
    requires
        bands >= 2,
        opaque.len() == alpha.len() * (bands - 1),
    ensures
        opaque_of(joined(opaque, alpha, bands), bands) == opaque,
        alpha_of(joined(opaque, alpha, bands), bands) == alpha,
{
    let whole = joined(opaque, alpha, bands);
    let count = alpha.len() as int;
    assert(0 <= count * bands) by (nonlinear_arith)
        requires
            0 <= count,
            0 <= bands,
    ;
    vstd::arithmetic::div_mod::lemma_fundamental_div_mod_converse(count * bands, bands, count, 0);
    assert(crate::raster::pixel_count(whole, bands) == count);
    assert forall|p: int| 0 <= p < count implies alpha_of(whole, bands)[p] == alpha[p] by {
        let at = p * bands + bands - 1;
        vstd::arithmetic::div_mod::lemma_fundamental_div_mod_converse(at, bands, p, bands - 1);
        assert(0 <= at < count * bands) by (nonlinear_arith)
            requires
                at == p * bands + bands - 1,
                0 <= p < count,
                bands >= 2,
        ;
    }
    assert(alpha_of(whole, bands) =~= alpha);
    assert forall|i: int| 0 <= i < opaque.len() implies opaque_of(whole, bands)[i] == opaque[i] by {
        let p = i / (bands - 1);
        let k = i % (bands - 1);
        vstd::arithmetic::div_mod::lemma_fundamental_div_mod(i, bands - 1);
        vstd::arithmetic::div_mod::lemma_mod_bound(i, bands - 1);
        assert(0 <= p < count) by (nonlinear_arith)
            requires
                i == (bands - 1) * p + k,
                0 <= k < bands - 1,
                0 <= i < count * (bands - 1),
        ;
        let at = p * bands + k;
        vstd::arithmetic::div_mod::lemma_fundamental_div_mod_converse(at, bands, p, k);
        assert(0 <= at < count * bands) by (nonlinear_arith)
            requires
                at == p * bands + k,
                0 <= p < count,
                0 <= k < bands - 1,
        ;
        assert(p * (bands - 1) + k == i) by (nonlinear_arith)
            requires
                i == (bands - 1) * p + k,
        ;
    }
    assert(opaque_of(whole, bands) =~= opaque);
}

/// `plane` is the alpha plane that a stored alpha stands for: fully opaque
/// where nothing is stored, else what zstd unpacks from it, which for a
/// frame that zstd packed is what was packed.
pub open spec fn restores_alpha(plane: Seq<u8>, stored: Seq<u8>, side: int) -> bool {
    if stored.len() == 0 {
        plane == Seq::new((side * side) as nat, |p: int| 255u8)
    } else {
        &&& plane == zstd_plain(stored)
        &&& forall|source: Seq<u8>| #[trigger] zstd_frame(source) == Some(stored) ==> plane == source
    }
}

/// What is stored for a tile in a JPEG archive gives its alpha plane back:
/// whatever buffer is restored from the stored alpha has the alpha bytes of
/// the pixels that were encoded, and the stored alpha is empty exactly for
/// a fully opaque tile.
pub proof fn lemma_alpha_kept(
    pixels: Seq<u8>,
    main: Seq<u8>,
    alpha: Seq<u8>,
    restored: Seq<u8>,
    side: int,
    bands: Bands,
    quality: int,
)
    requires
        side >= 0,
        pixels.len() == side * side * bands.count(),
        is_encoding(main, alpha, pixels, side, bands, Format::JPEG, quality),
        restores_alpha(alpha_of(restored, bands.count()), alpha, side),
    ensures
        alpha.len() == 0 <==> all_opaque(alpha_of(pixels, bands.count())),
        alpha_of(restored, bands.count()) == alpha_of(pixels, bands.count()),
{
    let plane = alpha_of(pixels, bands.count());
    lemma_square_pixels(pixels, side, bands.count());
    if all_opaque(plane) {
        assert(plane =~= Seq::new((side * side) as nat, |p: int| 255u8));
    }
}

/// Reads a stored tile back: decodes the image, unpacks the alpha plane
/// unless it is stored empty, and weaves the two. Which bytes the decoders
/// give is theirs to say; what is made of them is what `restored_pixels`
/// says.
pub fn decode_tile(main: &Vec<u8>, alpha: &Vec<u8>, side: u16, bands: Bands) -> (out: Result<
    Vec<u8>,
    CodecError,
>)
    requires
        side * side * bands.count() <= usize::MAX,
    ensures
        match out {
            Ok(buf) => {
                &&& buf@.len() == side * side * bands.count()
                &&& restores_alpha(alpha_of(buf@, bands.count()), alpha@, side as int)
            },
            Err(e) => e == CodecError::MainDecode || e == CodecError::Layout || (e
                == CodecError::AlphaDecode && alpha@.len() > 0),
        },
{
    let image = jpeg_decode(main);
    let plane = if alpha.len() == 0 {
        None
    } else {
        Some(zstd_unpack(alpha))
    };
    let ghost colours = match image {
        Ok(ref picture) => picture.pixels@,
        Err(_) => Seq::<u8>::empty(),
    };
    let ghost plain = match plane {
        Some(Ok(ref bytes)) => bytes@,
        _ => Seq::new((side * side) as nat, |p: int| 255u8),
    };
    let out = restored_pixels(image, plane, side, bands);
    proof {
        if out is Ok {
            lemma_split_of_joined(colours, plain, bands.count());
        }
    }
    out
}

/// The square of twice the side scaled down to a tile, given what the
/// outside scaler returned.
pub fn scaled_tile(small: Option<Vec<u8>>) -> (out: Result<Vec<u8>, CodecError>)
    ensures
        match small {
            Some(buf) => out == Ok::<Vec<u8>, CodecError>(buf),
            None => out == Err::<Vec<u8>, CodecError>(CodecError::Resize),
        },
{
    match small {
        Some(buf) => Ok(buf),
        None => Err(CodecError::Resize),
    }
}

/// Makes a tile from its four children: puts them side by side and scales
/// the square down to a tile with the Lanczos kernel. `None` when all four
/// children are missing. With children of the size of a tile it never
/// fails: the square has the length that the scaler asks for.
pub fn compose_tile(children: &Vec<Option<Vec<u8>>>, side: u16, bands: Bands) -> (out: Result<
    Option<Vec<u8>>,
    CodecError,
>)
    requires
        children@.len() == 4,
        forall|q: int|
            0 <= q < 4 ==> ((#[trigger] children@[q]) matches Some(buf) ==> buf@.len() == side
                * side * bands.count()),
        side > 0,
        256 * side * side <= usize::MAX,
    ensures
        match out {
            Ok(None) => forall|q: int| 0 <= q < 4 ==> (#[trigger] children@[q]) is None,
            Ok(Some(buf)) => {
                &&& exists|q: int| 0 <= q < 4 && (#[trigger] children@[q]) is Some
                &&& buf@.len() == side * side * bands.count()
            },
            Err(_) => false,
        },
{
    let ghost ts = side as int;
    proof {
        assert(2 * ts * (2 * ts) * bands.count() <= 256 * ts * ts && 64 * (2 * ts) * (2 * ts)
            == 256 * ts * ts) by (nonlinear_arith)
            requires
                0 <= ts,
                0 <= bands.count() <= 4,
        ;
    }
    let square = match compose_quadrants(children, side as usize, bands) {
        Some(square) => square,
        None => {
            return Ok(None);
        },
    };
    let from_side: u32 = 2 * (side as u32);
    proof {
        assert(square@.len() == from_side * from_side * bands.count()) by (nonlinear_arith)
            requires
                square@.len() == 2 * ts * (2 * ts) * bands.count(),
                from_side == 2 * ts,
        ;
    }
    let small = match bands {
        Bands::GrayAlpha => resize_gray_alpha(square, from_side, side as u32),
        Bands::Rgba => resize_rgba(square, from_side, side as u32),
    };
    match scaled_tile(small) {
        Ok(buf) => Ok(Some(buf)),
        Err(e) => Err(e),
    }
}

} // verus!
