use image::ImageDecoder;
use tile_pyramid::args::Format;
use tile_pyramid::codec::{
    compose_tile, decode_tile, encode_tile, jpeg_record, png_record, restored_pixels,
    scaled_tile, CodecError, Decoded,
};
use tile_pyramid::raster::Bands;

fn flat(side: usize, pixel: &[u8]) -> Vec<u8> {
    let mut out = vec![];
    for _ in 0..side * side {
        out.extend_from_slice(pixel);
    }
    out
}

fn decode_jpeg(bytes: &[u8]) -> (u32, u32, Vec<u8>) {
    let decoder = image::codecs::jpeg::JpegDecoder::new(std::io::Cursor::new(bytes)).unwrap();
    let (w, h) = decoder.dimensions();
    let mut pixels = vec![0u8; decoder.total_bytes() as usize];
    decoder.read_image(&mut pixels).unwrap();
    (w, h, pixels)
}

fn near(a: u8, b: u8, by: u8) -> bool {
    a.abs_diff(b) <= by
}

#[test]
fn opaque_tile_has_empty_alpha_and_decodes_to_its_colour() {
    let pixels = flat(16, &[200, 100, 50, 255]);
    let record = encode_tile(&pixels, 16, Bands::Rgba, Format::JPEG, 95).ok().unwrap();
    assert!(record.alpha.is_empty());
    assert!(!record.main.is_empty());
    let (w, h, rgb) = decode_jpeg(&record.main);
    assert_eq!((w, h), (16, 16));
    assert_eq!(rgb.len(), 16 * 16 * 3);
    for p in rgb.chunks(3) {
        assert!(near(p[0], 200, 3) && near(p[1], 100, 3) && near(p[2], 50, 3));
    }
}

#[test]
fn jpeg_stream_is_a_jpeg_and_not_the_input() {
    let pixels = flat(8, &[10, 20, 30, 255]);
    let record = encode_tile(&pixels, 8, Bands::Rgba, Format::JPEG, 85).ok().unwrap();
    assert_eq!(&record.main[..2], &[0xFF, 0xD8]);
    assert_eq!(&record.main[record.main.len() - 2..], &[0xFF, 0xD9]);
    assert_ne!(record.main, pixels);
}

#[test]
fn transparent_pixels_are_kept_as_a_zstd_frame() {
    let mut pixels = flat(8, &[10, 20, 30, 255]);
    pixels[3] = 0;
    pixels[7] = 128;
    let record = encode_tile(&pixels, 8, Bands::Rgba, Format::JPEG, 85).ok().unwrap();
    assert!(!record.alpha.is_empty());
    assert_eq!(&record.alpha[..4], &[0x28, 0xB5, 0x2F, 0xFD]);
    let alpha = zstd::stream::decode_all(record.alpha.as_slice()).unwrap();
    let mut expect = vec![255u8; 64];
    expect[0] = 0;
    expect[1] = 128;
    assert_eq!(alpha, expect);
}

#[test]
fn gray_tile_is_a_one_channel_jpeg() {
    let pixels = flat(8, &[77, 255]);
    let record = encode_tile(&pixels, 8, Bands::GrayAlpha, Format::JPEG, 95).ok().unwrap();
    assert!(record.alpha.is_empty());
    let (w, h, gray) = decode_jpeg(&record.main);
    assert_eq!((w, h), (8, 8));
    assert_eq!(gray.len(), 64);
    assert!(gray.iter().all(|&g| near(g, 77, 3)));
}

#[test]
fn png_archive_stores_the_whole_buffer_losslessly() {
    let mut pixels = flat(4, &[1, 2, 3, 4]);
    pixels[5] = 99;
    let record = encode_tile(&pixels, 4, Bands::Rgba, Format::PNG, 0).ok().unwrap();
    assert!(record.alpha.is_empty());
    assert_eq!(&record.main[..8], &[0x89, b'P', b'N', b'G', 0x0D, 0x0A, 0x1A, 0x0A]);
    let decoder =
        image::codecs::png::PngDecoder::new(std::io::Cursor::new(&record.main)).unwrap();
    assert_eq!(decoder.dimensions(), (4, 4));
    let mut back = vec![0u8; decoder.total_bytes() as usize];
    decoder.read_image(&mut back).unwrap();
    assert_eq!(back, pixels);
}

#[test]
fn png_of_gray_with_alpha() {
    let pixels = flat(4, &[9, 200]);
    let record = encode_tile(&pixels, 4, Bands::GrayAlpha, Format::PNG, 0).ok().unwrap();
    let decoder =
        image::codecs::png::PngDecoder::new(std::io::Cursor::new(&record.main)).unwrap();
    assert_eq!(decoder.color_type(), image::ColorType::La8);
    let mut back = vec![0u8; decoder.total_bytes() as usize];
    decoder.read_image(&mut back).unwrap();
    assert_eq!(back, pixels);
}

#[test]
fn encoding_is_repeatable() {
    let mut pixels = flat(8, &[10, 20, 30, 255]);
    pixels[3] = 1;
    let a = encode_tile(&pixels, 8, Bands::Rgba, Format::JPEG, 85).ok().unwrap();
    let b = encode_tile(&pixels, 8, Bands::Rgba, Format::JPEG, 85).ok().unwrap();
    assert_eq!(a.main, b.main);
    assert_eq!(a.alpha, b.alpha);
    let c = encode_tile(&pixels, 8, Bands::Rgba, Format::PNG, 85).ok().unwrap();
    let d = encode_tile(&pixels, 8, Bands::Rgba, Format::PNG, 85).ok().unwrap();
    assert_eq!(c.main, d.main);
}

#[test]
fn jpeg_of_zero_side_is_refused() {
    let out = encode_tile(&vec![], 0, Bands::Rgba, Format::JPEG, 85);
    assert_eq!(out.err(), Some(CodecError::JpegEncode));
}

#[test]
fn records_from_codec_results() {
    let ok = jpeg_record(Ok(vec![1, 2]), None).ok().unwrap();
    assert_eq!((ok.main, ok.alpha), (vec![1, 2], vec![]));
    let ok = jpeg_record(Ok(vec![1, 2]), Some(Ok(vec![3]))).ok().unwrap();
    assert_eq!((ok.main, ok.alpha), (vec![1, 2], vec![3]));
    let io = std::io::Error::new(std::io::ErrorKind::Other, "x");
    assert_eq!(
        jpeg_record(Ok(vec![1]), Some(Err(io))).err(),
        Some(CodecError::AlphaEncode)
    );
    let bad = jpeg_encoder::EncodingError::ZeroImageDimensions { width: 0, height: 0 };
    assert_eq!(jpeg_record(Err(bad), None).err(), Some(CodecError::JpegEncode));
    let ok = png_record(Ok(vec![5])).ok().unwrap();
    assert_eq!((ok.main, ok.alpha), (vec![5], vec![]));
    let io = std::io::Error::new(std::io::ErrorKind::Other, "x");
    assert_eq!(
        png_record(Err(image::ImageError::IoError(io))).err(),
        Some(CodecError::PngEncode)
    );
}

#[test]
fn stored_tile_comes_back() {
    let mut pixels = flat(16, &[200, 100, 50, 255]);
    for p in 0..40 {
        pixels[p * 4 + 3] = p as u8;
    }
    let record = encode_tile(&pixels, 16, Bands::Rgba, Format::JPEG, 95).ok().unwrap();
    let back = decode_tile(&record.main, &record.alpha, 16, Bands::Rgba).ok().unwrap();
    assert_eq!(back.len(), pixels.len());
    for (got, want) in back.chunks(4).zip(pixels.chunks(4)) {
        assert_eq!(got[3], want[3]);
        assert!(near(got[0], 200, 4) && near(got[1], 100, 4) && near(got[2], 50, 4));
    }
}

#[test]
fn stored_tile_with_empty_alpha_is_fully_opaque() {
    let pixels = flat(8, &[20, 40, 60, 255]);
    let record = encode_tile(&pixels, 8, Bands::Rgba, Format::JPEG, 95).ok().unwrap();
    assert!(record.alpha.is_empty());
    let back = decode_tile(&record.main, &record.alpha, 8, Bands::Rgba).ok().unwrap();
    assert_eq!(back.len(), 8 * 8 * 4);
    assert!(back.chunks(4).all(|p| p[3] == 255));
}

#[test]
fn corrupt_image_is_an_error() {
    assert_eq!(
        decode_tile(&vec![1, 2, 3], &vec![], 8, Bands::Rgba).err(),
        Some(CodecError::MainDecode)
    );
}

#[test]
fn corrupt_alpha_is_an_error() {
    let pixels = flat(8, &[20, 40, 60, 255]);
    let record = encode_tile(&pixels, 8, Bands::Rgba, Format::JPEG, 95).ok().unwrap();
    assert_eq!(
        decode_tile(&record.main, &vec![1, 2, 3], 8, Bands::Rgba).err(),
        Some(CodecError::AlphaDecode)
    );
}

#[test]
fn image_of_another_size_is_an_error() {
    let pixels = flat(8, &[20, 40, 60, 255]);
    let record = encode_tile(&pixels, 8, Bands::Rgba, Format::JPEG, 95).ok().unwrap();
    assert_eq!(
        decode_tile(&record.main, &record.alpha, 16, Bands::Rgba).err(),
        Some(CodecError::Layout)
    );
    assert_eq!(
        decode_tile(&record.main, &record.alpha, 8, Bands::GrayAlpha).err(),
        Some(CodecError::Layout)
    );
}

#[test]
fn restored_pixels_from_decoder_results() {
    let picture = || Decoded { width: 2, height: 1, pixels: vec![1, 2, 3, 4, 5, 6] };
    assert_eq!(
        restored_pixels(Ok(picture()), None, 2, Bands::Rgba).err(),
        Some(CodecError::Layout)
    );
    let square = || Decoded { width: 1, height: 1, pixels: vec![1, 2, 3] };
    assert_eq!(
        restored_pixels(Ok(square()), None, 1, Bands::Rgba).ok(),
        Some(vec![1, 2, 3, 255])
    );
    assert_eq!(
        restored_pixels(Ok(square()), Some(Ok(vec![9])), 1, Bands::Rgba).ok(),
        Some(vec![1, 2, 3, 9])
    );
    assert_eq!(
        restored_pixels(Ok(square()), Some(Ok(vec![9, 9])), 1, Bands::Rgba).err(),
        Some(CodecError::Layout)
    );
    let io = std::io::Error::new(std::io::ErrorKind::Other, "x");
    assert_eq!(
        restored_pixels(Ok(square()), Some(Err(io)), 1, Bands::Rgba).err(),
        Some(CodecError::AlphaDecode)
    );
    let io = std::io::Error::new(std::io::ErrorKind::Other, "x");
    assert_eq!(
        restored_pixels(Err(image::ImageError::IoError(io)), None, 1, Bands::Rgba).err(),
        Some(CodecError::MainDecode)
    );
}

#[test]
fn scaled_tile_from_scaler_result() {
    assert_eq!(scaled_tile(Some(vec![1, 2])).ok(), Some(vec![1, 2]));
    assert_eq!(scaled_tile(None).err(), Some(CodecError::Resize));
}

#[test]
fn parent_of_four_equal_children_has_their_colour() {
    let child = || Some(flat(8, &[120, 60, 30, 255]));
    let out = compose_tile(&vec![child(), child(), child(), child()], 8, Bands::Rgba)
        .ok()
        .unwrap()
        .unwrap();
    assert_eq!(out.len(), 8 * 8 * 4);
    for p in out.chunks(4) {
        assert!(near(p[0], 120, 2) && near(p[1], 60, 2) && near(p[2], 30, 2) && p[3] >= 253);
    }
}

#[test]
fn parent_of_one_child_shows_it_in_its_quarter() {
    let out = compose_tile(&vec![None, None, Some(flat(8, &[90, 255])), None], 8, Bands::GrayAlpha)
        .ok()
        .unwrap()
        .unwrap();
    assert_eq!(out.len(), 8 * 8 * 2);
    let at = |x: usize, y: usize| (out[(y * 8 + x) * 2], out[(y * 8 + x) * 2 + 1]);
    let (gray, alpha) = at(1, 6);
    assert!(near(gray, 90, 2) && alpha >= 253);
    assert_eq!(at(7, 0).1, 0);
    assert!(at(6, 1).1 <= 2);
    assert!(at(6, 6).1 <= 2);
    assert!(at(1, 1).1 <= 2);
}

#[test]
fn parent_of_no_child_is_empty() {
    assert_eq!(
        compose_tile(&vec![None, None, None, None], 8, Bands::Rgba).ok(),
        Some(None)
    );
}

#[test]
fn png_of_zero_side_is_refused() {
    let out = encode_tile(&vec![], 0, Bands::Rgba, Format::PNG, 85);
    assert_eq!(out.err(), Some(CodecError::PngEncode));
}

#[test]
fn parent_with_a_child_of_gray_and_alpha() {
    let child = || Some(flat(4, &[200, 255]));
    let out = compose_tile(&vec![child(), child(), child(), child()], 4, Bands::GrayAlpha)
        .ok()
        .unwrap()
        .unwrap();
    assert_eq!(out.len(), 4 * 4 * 2);
    assert!(out.chunks(2).all(|p| near(p[0], 200, 2) && p[1] >= 253));
}

#[test]
fn stored_alpha_is_empty_for_a_fully_opaque_tile_only() {
    for first in [0u8, 1, 128, 254, 255] {
        let mut pixels = flat(8, &[10, 20, 30, 255]);
        pixels[3] = first;
        let record = encode_tile(&pixels, 8, Bands::Rgba, Format::JPEG, 85).ok().unwrap();
        assert_eq!(record.alpha.is_empty(), first == 255);
        assert!(record.main.len() >= 2);
    }
}

#[test]
fn restored_alpha_is_the_alpha_that_was_encoded() {
    for bands in [Bands::GrayAlpha, Bands::Rgba] {
        let n = bands.channels();
        let mut pixels = vec![90u8; 16 * 16 * n];
        for p in 0..256 {
            pixels[p * n + n - 1] = (p * 7 % 256) as u8;
        }
        let record = encode_tile(&pixels, 16, bands, Format::JPEG, 90).ok().unwrap();
        let back = decode_tile(&record.main, &record.alpha, 16, bands).ok().unwrap();
        for p in 0..256 {
            assert_eq!(back[p * n + n - 1], pixels[p * n + n - 1]);
        }
    }
}

#[test]
fn encoding_succeeds_for_every_side_but_zero() {
    for side in [1u16, 2, 3, 7, 16] {
        let area = side as usize * side as usize;
        for (bands, n) in [(Bands::GrayAlpha, 2), (Bands::Rgba, 4)] {
            let pixels: Vec<u8> = (0..area * n).map(|i| (i * 31 % 256) as u8).collect();
            for format in [Format::JPEG, Format::PNG] {
                let record = encode_tile(&pixels, side, bands, format, 85).ok().unwrap();
                assert!(!record.main.is_empty());
            }
        }
    }
}

#[test]
fn png_stream_begins_with_the_signature_and_jpeg_with_its_marker() {
    let pixels = flat(1, &[1, 2, 3, 4]);
    let png = encode_tile(&pixels, 1, Bands::Rgba, Format::PNG, 0).ok().unwrap();
    assert!(png.main.len() >= 8);
    let jpeg = encode_tile(&pixels, 1, Bands::Rgba, Format::JPEG, 50).ok().unwrap();
    assert_eq!(&jpeg.main[..2], &[0xFF, 0xD8]);
    assert!(jpeg.alpha.len() >= 4);
}
