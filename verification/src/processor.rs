//! The steps that make one tile: reading it back from an earlier run,
//! cutting it out of a reprojected square or composing it from its
//! children, and encoding it for the archive. Reading the archive,
//! reprojecting and sending to the sink happen between these steps, outside.

use crate::cache::{held_children, without_children, DecodedCache};
use crate::args::Format;
use crate::codec::{
    compose_tile, decode_tile, encode_failure, encode_tile, is_encoding, restores_alpha,
    CodecError, Encoded,
};
use crate::limits::{with_position, Extents};
use crate::raster::{
    alpha_of, child_views, extract_sector, interleave_bands, interleaved, plane_views,
    sector_of, transparent, Bands,
};
use crate::tile::{side, Tile, MAX_TILE_ZOOM};
use vstd::arithmetic::power2::{lemma_pow2_pos, lemma_pow2_unfold};
use vstd::prelude::*;

verus! {

/// Why a set of options cannot be worked with.
#[derive(Debug, Clone, Copy, PartialEq, Eq, Structural)]
pub enum ConfigError {
    /// The source has no band, or more than four.
    BandCount,
    /// The tile side is zero.
    TileSize,
    /// The maximum zoom is deeper than the pyramid goes.
    MaxZoom,
    /// The square that is reprojected in one piece would be too large.
    MegatileSize,
}

/// What a stored row says of a tile.
#[derive(Debug, Clone, Copy, PartialEq, Eq, Structural)]
pub enum Resumed {
    /// No row: the tile has to be made.
    Missing,
    /// A row without an image: the tile was made and is empty.
    Empty,
    /// A row with an image: its pixels are in the cache again.
    Restored,
}

/// What is done next for a tile.
#[derive(Debug, Clone, Copy, PartialEq, Eq, Structural)]
pub enum Step {
    /// Nothing: the tile is in the archive already.
    Done,
    /// The tile is composed from its children.
    Compose,
    /// The square of the tile's group, which is the square of this tile,
    /// is reprojected.
    Reproject(Tile),
    /// The tile is cut out of the reprojected square of its group.
    Cut,
}

/// What goes to the sink for one tile.
pub struct SinkRecord {
    pub tile: Tile,
    pub main: Vec<u8>,
    pub alpha: Vec<u8>,
}

/// The checked options of a run, and the steps that make a tile with them.
pub struct Processor {
    tile_size: u16,
    mega_size: u16,
    max_zoom: u8,
    zoom_offset: u8,
    bands: Bands,
    format: Format,
    jpeg_quality: u8,
    insert_empty: bool,
}

impl Processor {
    #[verifier::type_invariant]
    spec fn valid(self) -> bool {
        &&& self.tile_size > 0
        &&& self.max_zoom <= MAX_TILE_ZOOM
        &&& self.zoom_offset <= self.max_zoom
        &&& self.mega_size == self.tile_size * side(self.zoom_offset)
        &&& 256 * self.tile_size * self.tile_size <= usize::MAX
        &&& 4 * self.mega_size * self.mega_size <= usize::MAX
    }

    /// Side of a tile in pixels.
    pub closed spec fn tile_side(&self) -> int {
        self.tile_size as int
    }

    /// Side in pixels of the square that is reprojected in one piece.
    pub closed spec fn mega_side(&self) -> int {
        self.mega_size as int
    }

    /// Zoom of the leaves.
    pub closed spec fn leaf_zoom(&self) -> u8 {
        self.max_zoom
    }

    /// Levels between a leaf and the tile whose square is reprojected.
    pub closed spec fn group_levels(&self) -> u8 {
        self.zoom_offset
    }

    /// Pixel layout of the tiles.
    pub closed spec fn layout(&self) -> Bands {
        self.bands
    }

    /// Format of the archive.
    pub closed spec fn stored_as(&self) -> Format {
        self.format
    }

    /// JPEG quality.
    pub closed spec fn quality(&self) -> u8 {
        self.jpeg_quality
    }

    /// Whether a row is written for a tile without an image.
    pub closed spec fn marks_empty(&self) -> bool {
        self.insert_empty
    }

    /// Bytes in the buffer of one tile.
    pub open spec fn tile_bytes(&self) -> int {
        self.tile_side() * self.tile_side() * self.layout().count()
    }

    /// The levels between a leaf and the tile whose square is reprojected:
    /// the warp zoom offset, but no more than there are levels above a leaf.
    pub open spec fn levels_kept(max_zoom: u8, zoom_offset: u8) -> u8 {
        if zoom_offset <= max_zoom {
            zoom_offset
        } else {
            max_zoom
        }
    }

    /// Whether the squares that are worked with fit the machine: the side
    /// of the reprojected square in 16 bits, its buffer and what scaling a
    /// composed tile takes in memory.
    pub open spec fn sizes_fit(tile_size: u16, levels: u8) -> bool {
        &&& tile_size * side(levels) <= u16::MAX
        &&& 256 * tile_size * tile_size <= usize::MAX
        &&& 4 * (tile_size * side(levels)) * (tile_size * side(levels)) <= usize::MAX
    }

    /// Checks the options and keeps them. The grouping cannot reach above
    /// the root: with a warp zoom offset beyond the maximum zoom, the
    /// square of the root is reprojected.
    pub fn new(
        tile_size: u16,
        max_zoom: u8,
        zoom_offset: u8,
        source_bands: usize,
        format: Format,
        jpeg_quality: u8,
        insert_empty: bool,
    ) -> (made: Result<Processor, ConfigError>)
        ensures
            made is Err ==> made == Err::<Processor, ConfigError>(
                if !(1 <= source_bands <= 4) {
                    ConfigError::BandCount
                } else if tile_size == 0 {
                    ConfigError::TileSize
                } else if max_zoom > MAX_TILE_ZOOM {
                    ConfigError::MaxZoom
                } else {
                    ConfigError::MegatileSize
                },
            ),
            made is Ok <==> {
                &&& 1 <= source_bands <= 4
                &&& tile_size > 0
                &&& max_zoom <= MAX_TILE_ZOOM
                &&& Self::sizes_fit(tile_size, Self::levels_kept(max_zoom, zoom_offset))
            },
            match made {
                Ok(p) => {
                    &&& p.tile_side() == tile_size
                    &&& p.leaf_zoom() == max_zoom
                    &&& p.group_levels() == Self::levels_kept(max_zoom, zoom_offset)
                    &&& p.mega_side() == tile_size * side(p.group_levels())
                    &&& Some(p.layout()) == Bands::for_source_spec(source_bands)
                    &&& p.stored_as() == format
                    &&& p.quality() == jpeg_quality
                    &&& p.marks_empty() == insert_empty
                },
                Err(_) => true,
            },
    {
        let bands = match Bands::for_source(source_bands) {
            Some(bands) => bands,
            None => {
                return Err(ConfigError::BandCount);
            },
        };
        if tile_size == 0 {
            return Err(ConfigError::TileSize);
        }
        if max_zoom > MAX_TILE_ZOOM {
            return Err(ConfigError::MaxZoom);
        }
        let levels = if zoom_offset <= max_zoom {
            zoom_offset
        } else {
            max_zoom
        };
        let mut mega: u32 = tile_size as u32;
        let mut done: u8 = 0;
        proof {
            vstd::arithmetic::power2::lemma2_to64();
            assert(side(0) == 1);
            assert(tile_size * 1 == tile_size);
        }
        while done < levels
            invariant
                1 <= source_bands <= 4,
                tile_size > 0,
                max_zoom <= MAX_TILE_ZOOM,
                levels == Self::levels_kept(max_zoom, zoom_offset),
                done <= levels,
                mega == tile_size * side(done),
                mega <= u16::MAX,
            decreases levels - done,
        {
            proof {
                lemma_pow2_unfold((done + 1) as nat);
                assert(tile_size * (2 * side(done)) == 2 * (tile_size * side(done)))
                    by (nonlinear_arith);
            }
            if mega > (u16::MAX as u32) / 2 {
                proof {
                    if done + 1 < levels {
                        vstd::arithmetic::power2::lemma_pow2_strictly_increases(
                            (done + 1) as nat,
                            levels as nat,
                        );
                    }
                    assert(tile_size * side((done + 1) as u8) <= tile_size * side(levels))
                        by (nonlinear_arith)
                        requires
                            side((done + 1) as u8) <= side(levels),
                            0 <= tile_size,
                    ;
                }
                return Err(ConfigError::MegatileSize);
            }
            mega = mega * 2;
            done += 1;
        }
        let small = (tile_size as usize).checked_mul(tile_size as usize);
        let small = match small {
            Some(v) => v.checked_mul(256),
            None => None,
        };
        let large = (mega as usize).checked_mul(mega as usize);
        let large = match large {
            Some(v) => v.checked_mul(4),
            None => None,
        };
        proof {
            assert(256 * tile_size * tile_size == tile_size * tile_size * 256) by (nonlinear_arith);
            assert(4 * mega * mega == mega * mega * 4) by (nonlinear_arith);
            assert(0 <= tile_size * tile_size <= tile_size * tile_size * 256) by (nonlinear_arith);
            assert(0 <= mega * mega <= mega * mega * 4) by (nonlinear_arith);
        }
        if small.is_none() || large.is_none() {
            return Err(ConfigError::MegatileSize);
        }
        Ok(
            Processor {
                tile_size,
                mega_size: mega as u16,
                max_zoom,
                zoom_offset: levels,
                bands,
                format,
                jpeg_quality,
                insert_empty,
            },
        )
    }

    /// Side of a tile in pixels.
    pub fn tile_size(&self) -> (v: u16)
        ensures
            v == self.tile_side(),
            v > 0,
    {
        proof {
            use_type_invariant(self);
        }
        self.tile_size
    }

    /// Side in pixels of the square that is reprojected in one piece.
    pub fn mega_size(&self) -> (v: u16)
        ensures
            v == self.mega_side(),
            v == self.tile_side() * side(self.group_levels()),
    {
        proof {
            use_type_invariant(self);
        }
        self.mega_size
    }

    /// Zoom of the leaves.
    pub fn max_zoom(&self) -> (v: u8)
        ensures
            v == self.leaf_zoom(),
            v <= MAX_TILE_ZOOM,
    {
        proof {
            use_type_invariant(self);
        }
        self.max_zoom
    }

    /// Levels between a leaf and the tile whose square is reprojected.
    pub fn zoom_offset(&self) -> (v: u8)
        ensures
            v == self.group_levels(),
            v <= self.leaf_zoom(),
    {
        proof {
            use_type_invariant(self);
        }
        self.zoom_offset
    }

    /// Pixel layout of the tiles.
    pub fn bands(&self) -> (v: Bands)
        ensures
            v == self.layout(),
    {
        self.bands
    }

    /// Format of the archive.
    pub fn format(&self) -> (v: Format)
        ensures
            v == self.stored_as(),
    {
        self.format
    }

    /// JPEG quality.
    pub fn jpeg_quality(&self) -> (v: u8)
        ensures
            v == self.quality(),
    {
        self.jpeg_quality
    }

    /// Whether a row is written for a tile without an image.
    pub fn insert_empty(&self) -> (v: bool)
        ensures
            v == self.marks_empty(),
    {
        self.insert_empty
    }

    /// What is done next for a tile, by what its stored row said and by
    /// whether the square of its group has been reprojected yet. A tile that
    /// has a row is done. A tile above the leaves is composed. A leaf is cut
    /// out of the square of its group, which is reprojected when the first
    /// leaf of a batch asks for it.
    pub fn next_step(&self, tile: &Tile, resumed: Resumed, have_megatile: bool) -> (step: Step)
        ensures
            step == match resumed {
                Resumed::Empty | Resumed::Restored => Step::Done,
                Resumed::Missing => if tile.zoom < self.leaf_zoom() {
                    Step::Compose
                } else if !have_megatile {
                    Step::Reproject(tile.ancestor(self.group_levels()).unwrap())
                } else {
                    Step::Cut
                },
            },
            step matches Step::Reproject(group) ==> tile.ancestor(self.group_levels()) == Some(
                group,
            ),
    {
        proof {
            use_type_invariant(self);
        }
        match resumed {
            Resumed::Empty => Step::Done,
            Resumed::Restored => Step::Done,
            Resumed::Missing => {
                if tile.zoom < self.max_zoom {
                    Step::Compose
                } else if have_megatile {
                    Step::Cut
                } else {
                    match tile.get_ancestor(self.zoom_offset) {
                        Some(group) => Step::Reproject(group),
                        None => Step::Cut,
                    }
                }
            },
        }
    }

    /// The cache as a stored row leaves it before anything is restored: a
    /// tile above the leaves that has a row needs its children no longer.
    pub open spec fn after_row(&self, cache: Map<Tile, Seq<u8>>, tile: Tile) -> Map<Tile, Seq<u8>> {
        if tile.zoom < self.leaf_zoom() {
            without_children(cache, tile)
        } else {
            cache
        }
    }

    /// Takes up a tile from an earlier run. Without a row the tile has to be
    /// made. With a row, the children of the tile leave the cache; a row
    /// without an image stands for an empty tile; a row with an image is
    /// decoded and its pixels are put in the cache.
    pub fn resume(&self, cache: &mut DecodedCache, tile: &Tile, row: Option<Encoded>) -> (out:
        Result<Resumed, CodecError>)
        requires
            tile.wf(),
        ensures
            old(cache).wf() ==> final(cache).wf(),
            match row {
                None => out == Ok::<Resumed, CodecError>(Resumed::Missing) && final(cache)@ == old(
                    cache,
                )@,
                Some(stored) => if stored.main@.len() == 0 {
                    &&& out == Ok::<Resumed, CodecError>(Resumed::Empty)
                    &&& final(cache)@ == self.after_row(old(cache)@, *tile)
                } else {
                    match out {
                        Ok(found) => {
                            &&& found == Resumed::Restored
                            &&& final(cache)@.contains_key(*tile)
                            &&& final(cache)@ == self.after_row(old(cache)@, *tile).insert(
                                *tile,
                                final(cache)@[*tile],
                            )
                            &&& final(cache)@[*tile].len() == self.tile_bytes()
                            &&& restores_alpha(
                                alpha_of(final(cache)@[*tile], self.layout().count()),
                                stored.alpha@,
                                self.tile_side(),
                            )
                        },
                        Err(e) => {
                            &&& final(cache)@ == self.after_row(old(cache)@, *tile)
                            &&& e == CodecError::MainDecode || e == CodecError::Layout || (e
                                == CodecError::AlphaDecode && stored.alpha@.len() > 0)
                        },
                    }
                },
            },
    {
        proof {
            use_type_invariant(self);
        }
        let stored = match row {
            Some(stored) => stored,
            None => {
                return Ok(Resumed::Missing);
            },
        };
        if tile.zoom < self.max_zoom {
            proof {
                tile.lemma_child_wf(0);
            }
            cache.evict_children(tile);
        }
        if stored.main.len() == 0 {
            return Ok(Resumed::Empty);
        }
        proof {
            assert(self.tile_size * self.tile_size * self.bands.count() <= 256 * self.tile_size
                * self.tile_size) by (nonlinear_arith)
                requires
                    0 <= self.bands.count() <= 4,
                    0 <= self.tile_size,
            ;
        }
        match decode_tile(&stored.main, &stored.alpha, self.tile_size, self.bands) {
            Ok(pixels) => {
                cache.insert(*tile, pixels);
                Ok(Resumed::Restored)
            },
            Err(e) => Err(e),
        }
    }

    /// Every buffer that is there has the size of a tile.
    pub open spec fn tile_sized(&self, held: Seq<Option<Seq<u8>>>) -> bool {
        forall|q: int|
            0 <= q < held.len() ==> ((#[trigger] held[q]) matches Some(buf) ==> buf.len()
                == self.tile_bytes())
    }

    /// Makes a tile above the leaves from its children, which leave the
    /// cache. A child that is not in the cache is an empty child; with four
    /// empty children the tile is empty. It fails only where the cache holds
    /// for a child a buffer that has not the size of a tile.
    pub fn compose(&self, cache: &mut DecodedCache, tile: &Tile) -> (out: Result<
        Option<Vec<u8>>,
        CodecError,
    >)
        requires
            tile.wf(),
            tile.zoom < self.leaf_zoom(),
        ensures
            final(cache)@ == without_children(old(cache)@, *tile),
            old(cache).wf() ==> final(cache).wf(),
            match out {
                Ok(None) => forall|q: int|
                    0 <= q < 4 ==> (#[trigger] held_children(old(cache)@, *tile)[q]) is None,
                Ok(Some(buf)) => {
                    &&& exists|q: int|
                        0 <= q < 4 && (#[trigger] held_children(old(cache)@, *tile)[q]) is Some
                    &&& self.tile_sized(held_children(old(cache)@, *tile))
                    &&& buf@.len() == self.tile_bytes()
                },
                Err(e) => {
                    &&& !self.tile_sized(held_children(old(cache)@, *tile))
                    &&& e == CodecError::Layout
                },
            },
    {
        proof {
            use_type_invariant(self);
            tile.lemma_child_wf(0);
        }
        let held = cache.take_children(tile);
        let ghost views = held_children(old(cache)@, *tile);
        let n = self.bands.channels();
        proof {
            assert(self.tile_size * self.tile_size * n <= 256 * self.tile_size * self.tile_size)
                by (nonlinear_arith)
                requires
                    0 <= n <= 4,
                    0 <= self.tile_size,
            ;
            assert(0 <= self.tile_size * self.tile_size) by (nonlinear_arith);
        }
        let want = (self.tile_size as usize) * (self.tile_size as usize) * n;
        let mut sized = true;
        let mut any = false;
        for q in 0..4usize
            invariant
                held@.len() == 4,
                child_views(held@) == views,
                want == self.tile_bytes(),
                sized == forall|j: int|
                    0 <= j < q ==> ((#[trigger] views[j]) matches Some(buf) ==> buf.len() == want),
                any == exists|j: int| 0 <= j < q && (#[trigger] views[j]) is Some,
        {
            proof {
                assert(views[q as int] == match held@[q as int] {
                    Some(buf) => Some(buf@),
                    None => None,
                });
            }
            match &held[q] {
                Some(buf) => {
                    any = true;
                    if buf.len() != want {
                        sized = false;
                    }
                },
                None => {},
            }
        }
        if !sized {
            return Err(CodecError::Layout);
        }
        proof {
            assert forall|q: int| 0 <= q < 4 implies ((#[trigger] held@[q]) matches Some(buf)
                ==> buf@.len() == self.tile_size * self.tile_size * self.bands.count()) by {
                assert(views[q] == match held@[q] {
                    Some(buf) => Some(buf@),
                    None => None,
                });
            }
        }
        let out = compose_tile(&held, self.tile_size, self.bands);
        proof {
            assert forall|q: int| 0 <= q < 4 implies (held@[q] is Some == (#[trigger] views[q])
                is Some) by {
                assert(views[q] == match held@[q] {
                    Some(buf) => Some(buf@),
                    None => None,
                });
            }
            if out is Err || (out matches Ok(Some(_))) {
                let q = choose|q: int| 0 <= q < 4 && (#[trigger] held@[q]) is Some;
                assert(views[q] is Some);
            }
        }
        out
    }

    /// Builds the pixel buffer of a reprojected square from its planes, one
    /// per band, blanking each pixel in which a band holds its no-data
    /// value. `None` unless there is one plane and one no-data entry for
    /// each band, each plane with one byte for each pixel of the square.
    pub fn megatile(&self, planes: &Vec<Vec<u8>>, no_data: &Vec<Option<u8>>) -> (out: Option<
        Vec<u8>,
    >)
        ensures
            out is Some <==> {
                &&& planes@.len() == self.layout().count()
                &&& no_data@.len() == planes@.len()
                &&& forall|j: int|
                    0 <= j < planes@.len() ==> (#[trigger] planes@[j])@.len() == self.mega_side()
                        * self.mega_side()
            },
            match out {
                Some(buf) => buf@ == interleaved(
                    plane_views(planes@),
                    no_data@,
                    self.mega_side() * self.mega_side(),
                ),
                None => true,
            },
    {
        proof {
            use_type_invariant(self);
            assert(0 <= self.mega_size * self.mega_size <= 4 * self.mega_size * self.mega_size)
                by (nonlinear_arith);
        }
        let n = self.bands.channels();
        let pixels = (self.mega_size as usize) * (self.mega_size as usize);
        if planes.len() != n || no_data.len() != n {
            return None;
        }
        for j in 0..n
            invariant
                n == planes@.len(),
                n == no_data@.len(),
                n == self.layout().count(),
                pixels == self.mega_side() * self.mega_side(),
                forall|i: int| 0 <= i < j ==> (#[trigger] planes@[i])@.len() == pixels,
        {
            if planes[j].len() != pixels {
                assert(planes@[j as int]@.len() != self.mega_side() * self.mega_side());
                return None;
            }
        }
        proof {
            assert(pixels * n <= 4 * self.mega_size * self.mega_size) by (nonlinear_arith)
                requires
                    pixels == self.mega_size * self.mega_size,
                    0 <= n <= 4,
            ;
        }
        Some(interleave_bands(planes, no_data, pixels))
    }

    /// Where the pixels of `tile` lie in the reprojected square of its
    /// group, as the buffer of a tile.
    pub open spec fn sector_pixels(&self, megatile: Seq<u8>, tile: Tile) -> Seq<u8> {
        sector_of(
            megatile,
            self.tile_side(),
            self.mega_side(),
            self.layout().count(),
            tile.sector(self.group_levels()).0,
            tile.sector(self.group_levels()).1,
        )
    }

    /// Cuts a leaf out of the reprojected square of its group. The tile is
    /// empty when its sector is fully transparent.
    pub fn cut(&self, megatile: &Vec<u8>, tile: &Tile) -> (out: Result<Option<Vec<u8>>, CodecError>)
        ensures
            megatile@.len() != self.mega_side() * self.mega_side() * self.layout().count() ==> out
                == Err::<Option<Vec<u8>>, CodecError>(CodecError::Layout),
            megatile@.len() == self.mega_side() * self.mega_side() * self.layout().count()
                ==> match out {
                Ok(Some(buf)) => {
                    &&& buf@ == self.sector_pixels(megatile@, *tile)
                    &&& !transparent(buf@, self.layout().count())
                },
                Ok(None) => transparent(
                    self.sector_pixels(megatile@, *tile),
                    self.layout().count(),
                ),
                Err(_) => false,
            },
    {
        proof {
            use_type_invariant(self);
            assert(0 <= self.mega_size * self.mega_size <= 4 * self.mega_size * self.mega_size)
                by (nonlinear_arith);
            assert(self.mega_size * self.mega_size * self.bands.count() <= 4 * self.mega_size
                * self.mega_size) by (nonlinear_arith)
                requires
                    0 <= self.bands.count() <= 4,
                    0 <= self.mega_size,
            ;
        }
        let n = self.bands.channels();
        let want = (self.mega_size as usize) * (self.mega_size as usize) * n;
        if megatile.len() != want {
            return Err(CodecError::Layout);
        }
        let (sx, sy) = tile.get_sector_in_parent(self.zoom_offset);
        proof {
            let levels = self.zoom_offset;
            lemma_pow2_pos(levels as nat);
            vstd::arithmetic::div_mod::lemma_mod_bound(tile.x as int, side(levels));
            vstd::arithmetic::div_mod::lemma_mod_bound(tile.y as int, side(levels));
            assert((sx + 1) * self.tile_size <= self.tile_size * side(levels)) by (nonlinear_arith)
                requires
                    0 <= sx < side(levels),
                    0 <= self.tile_size,
            ;
            assert((sy + 1) * self.tile_size <= self.tile_size * side(levels)) by (nonlinear_arith)
                requires
                    0 <= sy < side(levels),
                    0 <= self.tile_size,
            ;
        }
        Ok(
            extract_sector(
                megatile,
                self.tile_size as usize,
                self.mega_size as usize,
                self.bands,
                sx as usize,
                sy as usize,
            ),
        )
    }

    /// Why a tile with these pixels cannot be finished, if it cannot: the
    /// buffer has not the size of a tile, or, in a JPEG archive, the alpha
    /// plane of a tile that is not fully opaque cannot be packed. In a PNG
    /// archive a buffer of the right size is always finished.
    pub open spec fn finish_failure(&self, pixels: Seq<u8>) -> Option<CodecError> {
        if pixels.len() != self.tile_bytes() {
            Some(CodecError::Layout)
        } else {
            encode_failure(pixels, self.tile_side(), self.layout(), self.stored_as())
        }
    }

    /// Finishes a tile. A tile with pixels is encoded, enters the limits of
    /// its zoom under its archive row, and its pixels go to the cache for
    /// its parent; what is returned goes to the sink. A tile without pixels
    /// changes nothing and is sent as an empty record where empty tiles are
    /// marked, and not at all where they are not.
    pub fn finish(
        &self,
        cache: &mut DecodedCache,
        extents: &mut Extents,
        tile: &Tile,
        pixels: Option<Vec<u8>>,
    ) -> (out: Result<Option<SinkRecord>, CodecError>)
        requires
            tile.wf(),
        ensures
            old(cache).wf() ==> final(cache).wf(),
            match pixels {
                None => {
                    &&& final(cache)@ == old(cache)@
                    &&& final(extents)@ == old(extents)@
                    &&& match out {
                        Ok(Some(record)) => self.marks_empty() && record.tile == *tile
                            && record.main@.len() == 0 && record.alpha@.len() == 0,
                        Ok(None) => !self.marks_empty(),
                        Err(_) => false,
                    }
                },
                Some(buf) => match out {
                    Ok(Some(record)) => {
                        &&& self.finish_failure(buf@) is None
                        &&& buf@.len() == self.tile_bytes()
                        &&& record.tile == *tile
                        &&& is_encoding(
                            record.main@,
                            record.alpha@,
                            buf@,
                            self.tile_side(),
                            self.layout(),
                            self.stored_as(),
                            self.quality() as int,
                        )
                        &&& final(cache)@ == old(cache)@.insert(*tile, buf@)
                        &&& final(extents)@ == with_position(
                            old(extents)@,
                            tile.zoom,
                            tile.x,
                            tile.row_from_bottom() as u32,
                        )
                        &&& final(extents).covers(tile.zoom, tile.x, tile.row_from_bottom() as u32)
                        &&& forall|z: u8, cx: u32, cy: u32|
                            old(extents).covers(z, cx, cy) ==> #[trigger] final(extents).covers(
                                z,
                                cx,
                                cy,
                            )
                    },
                    Ok(None) => false,
                    Err(e) => {
                        &&& final(cache)@ == old(cache)@
                        &&& final(extents)@ == old(extents)@
                        &&& Some(e) == self.finish_failure(buf@)
                    },
                },
            },
    {
        proof {
            use_type_invariant(self);
        }
        let buf = match pixels {
            Some(buf) => buf,
            None => {
                if self.insert_empty {
                    return Ok(Some(SinkRecord { tile: *tile, main: Vec::new(), alpha: Vec::new() }));
                } else {
                    return Ok(None);
                }
            },
        };
        let n = self.bands.channels();
        proof {
            assert(self.tile_size * self.tile_size * n <= 256 * self.tile_size * self.tile_size)
                by (nonlinear_arith)
                requires
                    0 <= n <= 4,
                    0 <= self.tile_size,
            ;
            assert(0 <= self.tile_size * self.tile_size) by (nonlinear_arith);
        }
        let want = (self.tile_size as usize) * (self.tile_size as usize) * n;
        if buf.len() != want {
            return Err(CodecError::Layout);
        }
        let encoded = match encode_tile(
            &buf,
            self.tile_size,
            self.bands,
            self.format,
            self.jpeg_quality,
        ) {
            Ok(encoded) => encoded,
            Err(e) => {
                return Err(e);
            },
        };
        let row = tile.reversed_y();
        extents.record(tile.zoom, tile.x, row);
        cache.insert(*tile, buf);
        Ok(Some(SinkRecord { tile: *tile, main: encoded.main, alpha: encoded.alpha }))
    }
}

} // verus!
