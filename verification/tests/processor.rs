use tile_pyramid::args::Format;
use tile_pyramid::cache::DecodedCache;
use tile_pyramid::codec::{encode_tile, CodecError, Encoded};
use tile_pyramid::limits::{Extents, Limits};
use tile_pyramid::processor::{ConfigError, Processor, Resumed, Step};
use tile_pyramid::raster::Bands;
use tile_pyramid::tile::Tile;

fn tile(zoom: u8, x: u32, y: u32) -> Tile {
    Tile { zoom, x, y }
}

fn processor(tile_size: u16, max_zoom: u8, offset: u8, bands: usize, format: Format) -> Processor {
    Processor::new(tile_size, max_zoom, offset, bands, format, 90, true)
        .ok()
        .unwrap()
}

fn flat(side: usize, pixel: &[u8]) -> Vec<u8> {
    let mut out = vec![];
    for _ in 0..side * side {
        out.extend_from_slice(pixel);
    }
    out
}

#[test]
fn options_are_kept() {
    let p = Processor::new(256, 12, 3, 3, Format::PNG, 70, false).ok().unwrap();
    assert_eq!(p.tile_size(), 256);
    assert_eq!(p.mega_size(), 2048);
    assert_eq!(p.max_zoom(), 12);
    assert_eq!(p.zoom_offset(), 3);
    assert_eq!(p.bands(), Bands::Rgba);
    assert_eq!(p.format(), Format::PNG);
    assert_eq!(p.jpeg_quality(), 70);
    assert!(!p.insert_empty());
}

#[test]
fn grouping_does_not_reach_above_the_root() {
    let p = processor(256, 2, 3, 4, Format::JPEG);
    assert_eq!(p.zoom_offset(), 2);
    assert_eq!(p.mega_size(), 1024);
    let p = processor(256, 0, 3, 1, Format::JPEG);
    assert_eq!(p.zoom_offset(), 0);
    assert_eq!(p.mega_size(), 256);
    assert_eq!(p.bands(), Bands::GrayAlpha);
}

#[test]
fn bad_options_are_refused() {
    let make = |ts, mz, off, bands| Processor::new(ts, mz, off, bands, Format::JPEG, 85, true).err();
    assert_eq!(make(256, 10, 3, 0), Some(ConfigError::BandCount));
    assert_eq!(make(256, 10, 3, 5), Some(ConfigError::BandCount));
    assert_eq!(make(0, 10, 3, 5), Some(ConfigError::BandCount));
    assert_eq!(make(0, 10, 3, 4), Some(ConfigError::TileSize));
    assert_eq!(make(0, 40, 3, 4), Some(ConfigError::TileSize));
    assert_eq!(make(256, 32, 3, 4), Some(ConfigError::MaxZoom));
    assert_eq!(make(256, 31, 8, 4), Some(ConfigError::MegatileSize));
    assert_eq!(make(256, 31, 7, 4).map(|_| ()), None);
    assert_eq!(make(511, 31, 7, 4).map(|_| ()), None);
    assert_eq!(make(512, 31, 7, 4), Some(ConfigError::MegatileSize));
    assert_eq!(make(65535, 31, 0, 4).map(|_| ()), None);
    assert_eq!(make(65535, 31, 1, 4), Some(ConfigError::MegatileSize));
}

#[test]
fn megatile_needs_a_plane_for_each_band() {
    let p = processor(2, 1, 1, 2, Format::JPEG);
    let plane = |v: u8| vec![v; 16];
    assert_eq!(
        p.megatile(&vec![plane(1), plane(2)], &vec![None, None]),
        Some((0..16).flat_map(|_| [1u8, 2]).collect::<Vec<u8>>())
    );
    assert_eq!(p.megatile(&vec![plane(1)], &vec![None]), None);
    assert_eq!(p.megatile(&vec![plane(1), plane(2)], &vec![None]), None);
    assert_eq!(p.megatile(&vec![plane(1), vec![2; 15]], &vec![None, None]), None);
    assert_eq!(
        p.megatile(&vec![plane(1), plane(2), plane(3)], &vec![None, None, None]),
        None
    );
}

#[test]
fn megatile_blanks_no_data() {
    let p = processor(1, 1, 1, 2, Format::JPEG);
    let out = p.megatile(&vec![vec![5, 6, 7, 8], vec![9, 9, 9, 9]], &vec![Some(7), None]);
    assert_eq!(out, Some(vec![5, 9, 6, 9, 0, 0, 8, 9]));
}

#[test]
fn leaf_is_cut_from_its_sector() {
    let p = processor(2, 3, 1, 2, Format::JPEG);
    let mega: Vec<u8> = (0..4 * 4 * 2).map(|i| i as u8 + 1).collect();
    let at = |x: usize, y: usize, k: usize| mega[(y * 4 + x) * 2 + k];
    // tile 3/5/2 is the sector in column 1, row 0 of 2/2/1
    let out = p.cut(&mega, &tile(3, 5, 2)).ok().unwrap().unwrap();
    assert_eq!(
        out,
        vec![
            at(2, 0, 0),
            at(2, 0, 1),
            at(3, 0, 0),
            at(3, 0, 1),
            at(2, 1, 0),
            at(2, 1, 1),
            at(3, 1, 0),
            at(3, 1, 1),
        ]
    );
    let out = p.cut(&mega, &tile(3, 4, 3)).ok().unwrap().unwrap();
    assert_eq!(out[0], at(0, 2, 0));
}

#[test]
fn cut_refuses_a_square_of_another_size() {
    let p = processor(2, 3, 1, 2, Format::JPEG);
    assert_eq!(p.cut(&vec![1; 31], &tile(3, 0, 0)).err(), Some(CodecError::Layout));
    assert_eq!(p.cut(&vec![], &tile(3, 0, 0)).err(), Some(CodecError::Layout));
}

#[test]
fn transparent_leaf_is_empty() {
    let p = processor(2, 3, 1, 2, Format::JPEG);
    let mut mega = vec![50u8; 4 * 4 * 2];
    for y in 0..2 {
        for x in 0..2 {
            mega[(y * 4 + x) * 2 + 1] = 0;
        }
    }
    assert_eq!(p.cut(&mega, &tile(3, 0, 0)).ok(), Some(None));
    assert!(p.cut(&mega, &tile(3, 1, 0)).ok().unwrap().is_some());
}

#[test]
fn finished_tile_is_encoded_cached_and_counted() {
    let p = processor(8, 3, 1, 4, Format::JPEG);
    let mut cache = DecodedCache::new();
    let mut extents = Extents::new();
    let pixels = flat(8, &[10, 20, 30, 255]);
    let t = tile(3, 5, 2);
    let record = p
        .finish(&mut cache, &mut extents, &t, Some(pixels.clone()))
        .ok()
        .unwrap()
        .unwrap();
    assert_eq!(record.tile, t);
    let expect = encode_tile(&pixels, 8, Bands::Rgba, Format::JPEG, 90).ok().unwrap();
    assert_eq!(record.main, expect.main);
    assert_eq!(record.alpha, expect.alpha);
    assert!(record.alpha.is_empty());
    assert_eq!(
        extents.get(3),
        Some(Limits { min_x: 5, max_x: 5, min_y: 5, max_y: 5 })
    );
    assert_eq!(cache.remove(&t), Some(pixels));
}

#[test]
fn limits_use_the_archive_row() {
    let p = processor(2, 4, 0, 2, Format::PNG);
    let mut cache = DecodedCache::new();
    let mut extents = Extents::new();
    for t in [tile(4, 3, 0), tile(4, 7, 15), tile(4, 5, 9)] {
        let record = p.finish(&mut cache, &mut extents, &t, Some(flat(2, &[1, 255])));
        assert!(record.ok().unwrap().is_some());
        let limits = extents.get(4).unwrap();
        assert!(limits.min_x <= t.x && t.x <= limits.max_x);
        assert!(limits.min_y <= t.reversed_y() && t.reversed_y() <= limits.max_y);
    }
    assert_eq!(
        extents.get(4),
        Some(Limits { min_x: 3, max_x: 7, min_y: 0, max_y: 15 })
    );
}

#[test]
fn empty_tile_is_marked_when_asked() {
    let marking = Processor::new(8, 3, 1, 4, Format::JPEG, 85, true).ok().unwrap();
    let silent = Processor::new(8, 3, 1, 4, Format::JPEG, 85, false).ok().unwrap();
    let mut cache = DecodedCache::new();
    let mut extents = Extents::new();
    let t = tile(3, 1, 1);
    let record = marking.finish(&mut cache, &mut extents, &t, None).ok().unwrap().unwrap();
    assert_eq!(record.tile, t);
    assert!(record.main.is_empty() && record.alpha.is_empty());
    assert!(silent.finish(&mut cache, &mut extents, &t, None).ok().unwrap().is_none());
    assert_eq!(cache.len(), 0);
    assert!(extents.entries().is_empty());
}

#[test]
fn buffer_of_another_size_is_refused() {
    let p = processor(8, 3, 1, 4, Format::JPEG);
    let mut cache = DecodedCache::new();
    let mut extents = Extents::new();
    let out = p.finish(&mut cache, &mut extents, &tile(3, 1, 1), Some(vec![1; 255]));
    assert_eq!(out.err(), Some(CodecError::Layout));
    assert_eq!(cache.len(), 0);
    assert!(extents.entries().is_empty());
}

#[test]
fn parent_is_composed_from_the_cache() {
    let p = processor(8, 3, 1, 4, Format::JPEG);
    let mut cache = DecodedCache::new();
    let parent = tile(2, 1, 1);
    cache.insert(tile(3, 3, 2), flat(8, &[200, 0, 0, 255]));
    cache.insert(tile(3, 9, 9), flat(8, &[1, 1, 1, 255]));
    let out = p.compose(&mut cache, &parent).ok().unwrap().unwrap();
    assert_eq!(out.len(), 8 * 8 * 4);
    let at = |x: usize, y: usize| &out[(y * 8 + x) * 4..(y * 8 + x) * 4 + 4];
    assert!(at(6, 1)[0] >= 198 && at(6, 1)[3] >= 253);
    assert_eq!(at(0, 7)[3], 0);
    assert_eq!(cache.len(), 1);
    assert_eq!(p.compose(&mut cache, &parent).ok(), Some(None));
}

#[test]
fn compose_refuses_a_child_of_another_size() {
    let p = processor(8, 3, 1, 4, Format::JPEG);
    let mut cache = DecodedCache::new();
    cache.insert(tile(3, 2, 2), vec![1, 2, 3]);
    assert_eq!(
        p.compose(&mut cache, &tile(2, 1, 1)).err(),
        Some(CodecError::Layout)
    );
    assert_eq!(cache.len(), 0);
}

#[test]
fn resume_without_row_changes_nothing() {
    let p = processor(8, 3, 1, 4, Format::JPEG);
    let mut cache = DecodedCache::new();
    cache.insert(tile(3, 2, 2), vec![1]);
    assert_eq!(p.resume(&mut cache, &tile(2, 1, 1), None).ok(), Some(Resumed::Missing));
    assert_eq!(cache.len(), 1);
}

#[test]
fn resume_with_empty_row_is_an_empty_tile_and_evicts_children() {
    let p = processor(8, 3, 1, 4, Format::JPEG);
    let mut cache = DecodedCache::new();
    cache.insert(tile(3, 2, 2), vec![1]);
    cache.insert(tile(3, 3, 3), vec![1]);
    cache.insert(tile(3, 4, 4), vec![1]);
    let row = Encoded { main: vec![], alpha: vec![] };
    assert_eq!(
        p.resume(&mut cache, &tile(2, 1, 1), Some(row)).ok(),
        Some(Resumed::Empty)
    );
    assert_eq!(cache.len(), 1);
    assert_eq!(cache.remove(&tile(3, 4, 4)), Some(vec![1]));
}

#[test]
fn resume_of_a_leaf_leaves_other_buffers() {
    let p = processor(8, 3, 1, 4, Format::JPEG);
    let mut cache = DecodedCache::new();
    cache.insert(tile(4, 2, 2), vec![1]);
    let row = Encoded { main: vec![], alpha: vec![] };
    assert_eq!(
        p.resume(&mut cache, &tile(3, 1, 1), Some(row)).ok(),
        Some(Resumed::Empty)
    );
    assert_eq!(cache.len(), 1);
}

#[test]
fn resume_with_image_restores_the_pixels() {
    let p = processor(8, 3, 1, 4, Format::JPEG);
    let mut pixels = flat(8, &[40, 80, 120, 255]);
    pixels[3] = 17;
    let stored = encode_tile(&pixels, 8, Bands::Rgba, Format::JPEG, 95).ok().unwrap();
    let mut cache = DecodedCache::new();
    let t = tile(3, 1, 1);
    assert_eq!(p.resume(&mut cache, &t, Some(stored)).ok(), Some(Resumed::Restored));
    let back = cache.remove(&t).unwrap();
    assert_eq!(back.len(), pixels.len());
    assert_eq!(back[3], 17);
    assert_eq!(back[7], 255);
    assert!(back[0].abs_diff(40) <= 4 && back[1].abs_diff(80) <= 4 && back[2].abs_diff(120) <= 4);
}

#[test]
fn resume_with_corrupt_row_is_an_error() {
    let p = processor(8, 3, 1, 4, Format::JPEG);
    let mut cache = DecodedCache::new();
    let row = Encoded { main: vec![1, 2, 3], alpha: vec![] };
    assert_eq!(
        p.resume(&mut cache, &tile(3, 1, 1), Some(row)).err(),
        Some(CodecError::MainDecode)
    );
    assert_eq!(cache.len(), 0);
}

#[test]
fn a_tile_with_a_row_is_done() {
    let p = processor(8, 3, 1, 4, Format::JPEG);
    for have in [false, true] {
        assert_eq!(p.next_step(&tile(3, 1, 1), Resumed::Empty, have), Step::Done);
        assert_eq!(p.next_step(&tile(3, 1, 1), Resumed::Restored, have), Step::Done);
        assert_eq!(p.next_step(&tile(1, 1, 1), Resumed::Empty, have), Step::Done);
        assert_eq!(p.next_step(&tile(1, 1, 1), Resumed::Restored, have), Step::Done);
    }
}

#[test]
fn a_tile_above_the_leaves_is_composed() {
    let p = processor(8, 3, 1, 4, Format::JPEG);
    assert_eq!(p.next_step(&tile(2, 1, 1), Resumed::Missing, false), Step::Compose);
    assert_eq!(p.next_step(&tile(2, 1, 1), Resumed::Missing, true), Step::Compose);
    assert_eq!(p.next_step(&tile(0, 0, 0), Resumed::Missing, false), Step::Compose);
}

#[test]
fn a_leaf_is_cut_from_the_square_of_its_group() {
    let p = processor(8, 3, 1, 4, Format::JPEG);
    assert_eq!(
        p.next_step(&tile(3, 5, 2), Resumed::Missing, false),
        Step::Reproject(tile(2, 2, 1))
    );
    assert_eq!(p.next_step(&tile(3, 5, 2), Resumed::Missing, true), Step::Cut);
}

#[test]
fn the_group_of_a_leaf_is_no_higher_than_the_root() {
    let p = processor(8, 2, 3, 4, Format::JPEG);
    assert_eq!(
        p.next_step(&tile(2, 3, 1), Resumed::Missing, false),
        Step::Reproject(tile(0, 0, 0))
    );
    let p = processor(8, 0, 3, 4, Format::JPEG);
    assert_eq!(
        p.next_step(&tile(0, 0, 0), Resumed::Missing, false),
        Step::Reproject(tile(0, 0, 0))
    );
}

#[test]
fn a_tile_of_the_right_size_is_always_finished() {
    for format in [Format::JPEG, Format::PNG] {
        for bands in [2usize, 4] {
            let p = processor(8, 3, 1, bands, format);
            let mut cache = DecodedCache::new();
            let mut extents = Extents::new();
            let pixel: Vec<u8> = if bands == 2 { vec![5, 9] } else { vec![5, 6, 7, 9] };
            let record = p
                .finish(&mut cache, &mut extents, &tile(3, 1, 1), Some(flat(8, &pixel)))
                .ok()
                .unwrap()
                .unwrap();
            assert!(!record.main.is_empty());
            assert_eq!(record.alpha.is_empty(), format == Format::PNG);
        }
    }
}

#[test]
fn children_of_the_right_size_are_always_composed() {
    for bands in [2usize, 4] {
        let p = processor(4, 3, 1, bands, Format::JPEG);
        for held in 1..16u32 {
            let mut cache = DecodedCache::new();
            let parent = tile(2, 1, 1);
            for (q, child) in parent.get_children().iter().enumerate() {
                if held & (1 << q) != 0 {
                    cache.insert(*child, vec![200; 4 * 4 * bands]);
                }
            }
            let out = p.compose(&mut cache, &parent).ok().unwrap().unwrap();
            assert_eq!(out.len(), 4 * 4 * bands);
            assert_eq!(cache.len(), 0);
        }
    }
}
