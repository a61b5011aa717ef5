//! Pixel buffers: flat arrays of bytes, row by row from the top, each pixel
//! with its bands side by side and the alpha band last.

use vstd::arithmetic::div_mod::lemma_fundamental_div_mod_converse;
use vstd::prelude::*;

verus! {

/// The two pixel layouts of a tile: gray with alpha, or red, green, blue
/// with alpha.
#[derive(Debug, Clone, Copy, PartialEq, Eq, Structural)]
pub enum Bands {
    GrayAlpha,
    Rgba,
}

impl Bands {
    /// Bytes per pixel, the alpha byte included.
    pub open spec fn count(self) -> int {
        match self {
            Bands::GrayAlpha => 2,
            Bands::Rgba => 4,
        }
    }

    /// The layout for a source with `source_bands` bands: gray with alpha
    /// for one or two, colour with alpha for three or four, none otherwise.
    pub open spec fn for_source_spec(source_bands: usize) -> Option<Bands> {
        if source_bands == 1 || source_bands == 2 {
            Some(Bands::GrayAlpha)
        } else if source_bands == 3 || source_bands == 4 {
            Some(Bands::Rgba)
        } else {
            None
        }
    }

    /// Bytes per pixel, the alpha byte included.
    pub fn channels(self) -> (n: usize)
        ensures
            n == self.count(),
    {
        match self {
            Bands::GrayAlpha => 2,
            Bands::Rgba => 4,
        }
    }

    /// The layout for a source with `source_bands` bands: the band count
    /// rounded up to the next even number. A source with no band, or with
    /// more than four, has none.
    pub fn for_source(source_bands: usize) -> (bands: Option<Bands>)
        ensures
            bands == Bands::for_source_spec(source_bands),
            bands matches Some(b) ==> b.count() == (source_bands + 1) / 2 * 2,
    {
        if source_bands == 1 || source_bands == 2 {
            Some(Bands::GrayAlpha)
        } else if source_bands == 3 || source_bands == 4 {
            Some(Bands::Rgba)
        } else {
            None
        }
    }
}

/// Place of band `k` of the pixel in column `x` and row `y` of a buffer
/// that is `width` pixels wide and has `bands` bands.
pub open spec fn offset(x: int, y: int, k: int, width: int, bands: int) -> int {
    (y * width + x) * bands + k
}

/// Every place of a buffer belongs to exactly one column, row and band,
/// which division finds again.
pub proof fn lemma_offset(x: int, y: int, k: int, width: int, height: int, bands: int)
    requires
        0 <= x < width,
        0 <= y < height,
        0 <= k < bands,
    ensures
        0 <= y * width + x < width * height,
        0 <= offset(x, y, k, width, bands) < width * height * bands,
        offset(x, y, k, width, bands) % bands == k,
        offset(x, y, k, width, bands) / bands == y * width + x,
        (y * width + x) % width == x,
        (y * width + x) / width == y,
{
    let p = y * width + x;
    assert(0 <= p < width * height) by (nonlinear_arith)
        requires
            p == y * width + x,
            0 <= x < width,
            0 <= y < height,
    ;
    assert(0 <= p * bands + k < width * height * bands) by (nonlinear_arith)
        requires
            0 <= p < width * height,
            0 <= k < bands,
    ;
    lemma_fundamental_div_mod_converse(p * bands + k, bands, p, k);
    lemma_fundamental_div_mod_converse(p, width, y, x);
}

/// Whether some band of pixel `p` holds the value that its band declares
/// as "no data".
pub open spec fn is_no_data(planes: Seq<Seq<u8>>, no_data: Seq<Option<u8>>, p: int) -> bool {
    exists|j: int| 0 <= j < planes.len() && no_data[j] == Some(#[trigger] planes[j][p])
}

/// The planes of `pixels` values each woven into one buffer, band after
/// band for each pixel; a pixel in which any band holds its no-data value
/// is all zero.
pub open spec fn interleaved(planes: Seq<Seq<u8>>, no_data: Seq<Option<u8>>, pixels: int) -> Seq<
    u8,
> {
    Seq::new(
        (pixels * planes.len()) as nat,
        |i: int|
            if is_no_data(planes, no_data, i / planes.len() as int) {
                0u8
            } else {
                planes[i % planes.len() as int][i / planes.len() as int]
            },
    )
}

/// The lists that the vectors hold.
pub open spec fn plane_views(planes: Seq<Vec<u8>>) -> Seq<Seq<u8>> {
    Seq::new(planes.len(), |j: int| planes[j]@)
}

/// Weaves the planes of a raster, one per band, into one pixel buffer, and
/// blanks every pixel in which a band holds its no-data value.
pub fn interleave_bands(planes: &Vec<Vec<u8>>, no_data: &Vec<Option<u8>>, pixels: usize) -> (out:
    Vec<u8>)
    requires
        planes@.len() == no_data@.len(),
        forall|j: int| 0 <= j < planes@.len() ==> (#[trigger] planes@[j])@.len() == pixels,
        pixels * planes@.len() <= usize::MAX,
    ensures
        out@ == interleaved(plane_views(planes@), no_data@, pixels as int),
{
    let n = planes.len();
    let ghost views = plane_views(planes@);
    let ghost want = interleaved(views, no_data@, pixels as int);
    let mut out: Vec<u8> = Vec::new();
    for p in 0..pixels
        invariant
            n == planes@.len(),
            n == no_data@.len(),
            views == plane_views(planes@),
            want == interleaved(views, no_data@, pixels as int),
            forall|j: int| 0 <= j < planes@.len() ==> (#[trigger] planes@[j])@.len() == pixels,
            out@.len() == p * n,
            forall|i: int| 0 <= i < out@.len() ==> out@[i] == want[i],
    {
        let mut blank = false;
        for j in 0..n
            invariant
                n == planes@.len(),
                n == no_data@.len(),
                views == plane_views(planes@),
                0 <= p < pixels,
                forall|j: int| 0 <= j < planes@.len() ==> (#[trigger] planes@[j])@.len() == pixels,
                blank == exists|m: int|
                    0 <= m < j && no_data@[m] == Some(#[trigger] views[m][p as int]),
        {
            let value = planes[j][p];
            let hit = match no_data[j] {
                Some(nd) => nd == value,
                None => false,
            };
            proof {
                assert(views[j as int][p as int] == value);
                if hit {
                    assert(no_data@[j as int] == Some(views[j as int][p as int]));
                }
            }
            if hit {
                blank = true;
            }
        }
        assert(blank == is_no_data(views, no_data@, p as int));
        for k in 0..n
            invariant
                n == planes@.len(),
                views == plane_views(planes@),
                want == interleaved(views, no_data@, pixels as int),
                0 <= p < pixels,
                forall|j: int| 0 <= j < planes@.len() ==> (#[trigger] planes@[j])@.len() == pixels,
                blank == is_no_data(views, no_data@, p as int),
                out@.len() == p * n + k,
                forall|i: int| 0 <= i < out@.len() ==> out@[i] == want[i],
        {
            proof {
                lemma_fundamental_div_mod_converse(p * n + k, n as int, p as int, k as int);
                assert(p * n + k < pixels * n) by (nonlinear_arith)
                    requires
                        0 <= p < pixels,
                        0 <= k < n,
                ;
                assert(views[k as int][p as int] == planes@[k as int]@[p as int]);
            }
            let value = if blank {
                0u8
            } else {
                planes[k][p]
            };
            out.push(value);
        }
        assert(out@.len() == (p + 1) * n) by (nonlinear_arith)
            requires
                out@.len() == p * n + n,
        ;
    }
    assert(out@ =~= want);
    out
}

/// Where byte `i` of a tile's buffer comes from in the buffer of the big
/// square that holds the tile as the sector in column `sx`, row `sy`.
pub open spec fn sector_source(i: int, tile: int, mega: int, bands: int, sx: int, sy: int) -> int {
    let k = i % bands;
    let p = i / bands;
    offset(sx * tile + p % tile, sy * tile + p / tile, k, mega, bands)
}

/// The bytes of sector (`sx`, `sy`) of the big square, as a buffer of their
/// own of `tile` pixels a side.
pub open spec fn sector_of(big: Seq<u8>, tile: int, mega: int, bands: int, sx: int, sy: int) -> Seq<
    u8,
> {
    Seq::new((tile * tile * bands) as nat, |i: int| big[sector_source(i, tile, mega, bands, sx, sy)])
}

/// Every alpha byte of the buffer is 0.
pub open spec fn transparent(buf: Seq<u8>, bands: int) -> bool {
    forall|i: int| 0 <= i < buf.len() && i % bands == bands - 1 ==> buf[i] == 0
}

/// Cuts sector (`sx`, `sy`) out of the big square; `None` when the sector
/// is fully transparent.
pub fn extract_sector(
    big: &Vec<u8>,
    tile_size: usize,
    mega_size: usize,
    bands: Bands,
    sx: usize,
    sy: usize,
) -> (out: Option<Vec<u8>>)
    requires
        big@.len() == mega_size * mega_size * bands.count(),
        (sx + 1) * tile_size <= mega_size,
        (sy + 1) * tile_size <= mega_size,
    ensures
        match out {
            Some(buf) => {
                &&& buf@ == sector_of(
                    big@,
                    tile_size as int,
                    mega_size as int,
                    bands.count(),
                    sx as int,
                    sy as int,
                )
                &&& !transparent(buf@, bands.count())
            },
            None => transparent(
                sector_of(
                    big@,
                    tile_size as int,
                    mega_size as int,
                    bands.count(),
                    sx as int,
                    sy as int,
                ),
                bands.count(),
            ),
        },
{
    let n = bands.channels();
    let ghost want = sector_of(
        big@,
        tile_size as int,
        mega_size as int,
        n as int,
        sx as int,
        sy as int,
    );
    let ghost ts = tile_size as int;
    let ghost ms = mega_size as int;
    proof {
        assert(sx * ts + ts <= ms && sy * ts + ts <= ms) by (nonlinear_arith)
            requires
                (sx + 1) * ts <= ms,
                (sy + 1) * ts <= ms,
        ;
        assert(0 <= sx * ts && 0 <= sy * ts) by (nonlinear_arith)
            requires
                0 <= sx,
                0 <= sy,
                0 <= ts,
        ;
    }
    let left = sx * tile_size;
    let top = sy * tile_size;
    let total = big.len();
    let mut out: Vec<u8> = Vec::new();
    let mut blank = true;
    proof {
        assert(0 * ts * n == 0 && 0 <= ts * ts * n) by (nonlinear_arith)
            requires
                0 <= ts,
                0 <= n,
        ;
    }
    for y in 0..tile_size
        invariant
            want.len() == ts * ts * n,
            n == bands.count(),
            ts == tile_size,
            ms == mega_size,
            left == sx * ts,
            top == sy * ts,
            left + ts <= ms,
            top + ts <= ms,
            big@.len() == ms * ms * n,
            total == ms * ms * n,
            want == sector_of(big@, ts, ms, n as int, sx as int, sy as int),
            out@.len() == y * ts * n,
            forall|i: int| 0 <= i < out@.len() ==> out@[i] == want[i],
            blank == forall|i: int| 0 <= i < out@.len() && i % (n as int) == n - 1 ==> want[i] == 0,
    {
        for x in 0..tile_size
            invariant
                want.len() == ts * ts * n,
                n == bands.count(),
                ts == tile_size,
                ms == mega_size,
                0 <= y < ts,
                left == sx * ts,
                top == sy * ts,
                left + ts <= ms,
                top + ts <= ms,
                big@.len() == ms * ms * n,
            total == ms * ms * n,
                want == sector_of(big@, ts, ms, n as int, sx as int, sy as int),
                out@.len() == (y * ts + x) * n,
                forall|i: int| 0 <= i < out@.len() ==> out@[i] == want[i],
                blank == forall|i: int|
                    0 <= i < out@.len() && i % (n as int) == n - 1 ==> want[i] == 0,
        {
            proof {
                lemma_offset(left + x, top + y, 0, ms, ms, n as int);
                assert((top + y) * ms + (left + x) <= ((top + y) * ms + (left + x)) * n)
                    by (nonlinear_arith)
                    requires
                        0 <= (top + y) * ms + (left + x),
                        1 <= n,
                ;
                assert(0 <= (top + y) * ms) by (nonlinear_arith)
                    requires
                        0 <= top + y,
                        0 <= ms,
                ;
            }
            let from = ((top + y) * mega_size + (left + x)) * n;
            for k in 0..n
                invariant
                    want.len() == ts * ts * n,
                    n == bands.count(),
                    ts == tile_size,
                    ms == mega_size,
                    0 <= y < ts,
                    0 <= x < ts,
                    left == sx * ts,
                    top == sy * ts,
                    left + ts <= ms,
                    top + ts <= ms,
                    big@.len() == ms * ms * n,
            total == ms * ms * n,
                    from == ((top + y) * ms + (left + x)) * n,
                    want == sector_of(big@, ts, ms, n as int, sx as int, sy as int),
                    out@.len() == (y * ts + x) * n + k,
                    forall|i: int| 0 <= i < out@.len() ==> out@[i] == want[i],
                    blank == forall|i: int|
                        0 <= i < out@.len() && i % (n as int) == n - 1 ==> want[i] == 0,
            {
                let ghost at = out@.len() as int;
                proof {
                    lemma_offset(left + x, top + y, k as int, ms, ms, n as int);
                    lemma_offset(x as int, y as int, k as int, ts, ts, n as int);
                    assert(at == offset(x as int, y as int, k as int, ts, n as int));
                    assert(sector_source(at, ts, ms, n as int, sx as int, sy as int) == from + k);
                    assert(want[at] == big@[from + k]);
                }
                let value = big[from + k];
                if k == n - 1 && value != 0 {
                    blank = false;
                }
                out.push(value);
                proof {
                    assert(at % (n as int) == k);
                    assert(want[at] == value);
                    if k == n - 1 && value != 0 {
                        assert(0 <= at < out@.len() && at % (n as int) == n - 1 && want[at] != 0);
                    }
                }
            }
        }
        assert(out@.len() == (y + 1) * ts * n) by (nonlinear_arith)
            requires
                out@.len() == (y * ts + ts) * n,
        ;
    }
    assert(out@.len() == want.len()) by (nonlinear_arith)
        requires
            out@.len() == ts * ts * n,
            want.len() == ts * ts * n,
    ;
    assert(out@ =~= want);
    if blank {
        None
    } else {
        Some(out)
    }
}

/// The quadrant of a square of `2 tile` pixels a side in which column
/// `col` and row `row` lie: 0 top left, 1 top right, 2 bottom left,
/// 3 bottom right.
pub open spec fn quadrant_of(col: int, row: int, tile: int) -> int {
    (if col >= tile {
        1int
    } else {
        0int
    }) + 2 * (if row >= tile {
        1int
    } else {
        0int
    })
}

/// The square of `2 tile` pixels a side that holds child `q` in quadrant
/// `q`; the quadrant of a missing child is all zero.
pub open spec fn composed(children: Seq<Option<Seq<u8>>>, tile: int, bands: int) -> Seq<u8> {
    Seq::new(
        (2 * tile * (2 * tile) * bands) as nat,
        |i: int|
            {
                let k = i % bands;
                let col = (i / bands) % (2 * tile);
                let row = (i / bands) / (2 * tile);
                let x = if col >= tile {
                    col - tile
                } else {
                    col
                };
                let y = if row >= tile {
                    row - tile
                } else {
                    row
                };
                match children[quadrant_of(col, row, tile)] {
                    Some(child) => child[offset(x, y, k, tile, bands)],
                    None => 0u8,
                }
            },
    )
}

/// The buffers that the four places hold.
pub open spec fn child_views(children: Seq<Option<Vec<u8>>>) -> Seq<Option<Seq<u8>>> {
    Seq::new(
        children.len(),
        |q: int|
            match children[q] {
                Some(buf) => Some(buf@),
                None => None,
            },
    )
}

/// Puts the four children of a tile side by side in one square of twice
/// the side; `None` when all four are missing.
pub fn compose_quadrants(children: &Vec<Option<Vec<u8>>>, tile_size: usize, bands: Bands) -> (out:
    Option<Vec<u8>>)
    requires
        children@.len() == 4,
        forall|q: int|
            0 <= q < 4 ==> ((#[trigger] children@[q]) matches Some(buf) ==> buf@.len() == tile_size
                * tile_size * bands.count()),
        2 * tile_size * (2 * tile_size) * bands.count() <= usize::MAX,
    ensures
        out is None <==> forall|q: int| 0 <= q < 4 ==> (#[trigger] children@[q]) is None,
        match out {
            Some(buf) => buf@ == composed(
                child_views(children@),
                tile_size as int,
                bands.count(),
            ),
            None => true,
        },
{
    let has_data = children[0].is_some() || children[1].is_some() || children[2].is_some()
        || children[3].is_some();
    if !has_data {
        return None;
    }
    let n = bands.channels();
    let ghost ts = tile_size as int;
    let ghost views = child_views(children@);
    let ghost want = composed(views, ts, n as int);
    proof {
        assert(0 * (2 * ts) * n == 0 && 0 <= 2 * ts * (2 * ts) * n) by (nonlinear_arith)
            requires
                0 <= ts,
                1 <= n,
        ;
        assert(ts * ts * n <= 2 * ts * (2 * ts) * n && 2 * ts <= 2 * ts * (2 * ts) * n + 1)
            by (nonlinear_arith)
            requires
                0 <= ts,
                1 <= n,
        ;
    }
    let side = 2 * tile_size;
    let mut out: Vec<u8> = Vec::new();
    for row in 0..side
        invariant
            want == composed(views, ts, n as int),
            views == child_views(children@),
            want.len() == side * side * n,
            children@.len() == 4,
            forall|q: int|
                0 <= q < 4 ==> ((#[trigger] children@[q]) matches Some(buf) ==> buf@.len() == ts
                    * ts * n),
            n == bands.count(),
            ts == tile_size,
            side == 2 * ts,
            ts * ts * n <= usize::MAX,
            out@.len() == row * side * n,
            forall|i: int| 0 <= i < out@.len() ==> out@[i] == want[i],
    {
        let lower = row >= tile_size;
        let y = if lower {
            row - tile_size
        } else {
            row
        };
        for col in 0..side
            invariant
                want == composed(views, ts, n as int),
                views == child_views(children@),
                want.len() == side * side * n,
                children@.len() == 4,
                forall|q: int|
                    0 <= q < 4 ==> ((#[trigger] children@[q]) matches Some(buf) ==> buf@.len()
                        == ts * ts * n),
                n == bands.count(),
                ts == tile_size,
                side == 2 * ts,
                ts * ts * n <= usize::MAX,
            ts * ts * n <= usize::MAX,
                0 <= row < side,
                lower == (row >= ts),
                y == if lower {
                    row - ts
                } else {
                    row as int
                },
                out@.len() == (row * side + col) * n,
                forall|i: int| 0 <= i < out@.len() ==> out@[i] == want[i],
        {
            let right = col >= tile_size;
            let x = if right {
                col - tile_size
            } else {
                col
            };
            let q: usize = if right {
                1
            } else {
                0
            } + if lower {
                2
            } else {
                0
            };
            proof {
                lemma_offset(x as int, y as int, 0, ts, ts, n as int);
                assert(y * ts + x <= (y * ts + x) * n && 0 <= y * ts) by (nonlinear_arith)
                    requires
                        0 <= x,
                        0 <= y,
                        0 <= ts,
                        1 <= n,
                ;
            }
            let from = (y * tile_size + x) * n;
            for k in 0..n
                invariant
                    want == composed(views, ts, n as int),
                    views == child_views(children@),
                    want.len() == side * side * n,
                    children@.len() == 4,
                    forall|q: int|
                        0 <= q < 4 ==> ((#[trigger] children@[q]) matches Some(buf) ==> buf@.len()
                            == ts * ts * n),
                    n == bands.count(),
                    ts == tile_size,
                    side == 2 * ts,
                    ts * ts * n <= usize::MAX,
                ts * ts * n <= usize::MAX,
            ts * ts * n <= usize::MAX,
                    0 <= row < side,
                    0 <= col < side,
                    0 <= x < ts,
                    0 <= y < ts,
                    x == if col >= ts {
                        col - ts
                    } else {
                        col as int
                    },
                    y == if row >= ts {
                        row - ts
                    } else {
                        row as int
                    },
                    q == quadrant_of(col as int, row as int, ts),
                    from == (y * ts + x) * n,
                    out@.len() == (row * side + col) * n + k,
                    forall|i: int| 0 <= i < out@.len() ==> out@[i] == want[i],
            {
                let ghost at = out@.len() as int;
                proof {
                    lemma_offset(col as int, row as int, k as int, side as int, side as int, n as int);
                    lemma_offset(x as int, y as int, k as int, ts, ts, n as int);
                    assert(at == offset(col as int, row as int, k as int, side as int, n as int));
                    assert(views[q as int] == match children@[q as int] {
                        Some(buf) => Some(buf@),
                        None => None,
                    });
                }
                let value = match &children[q] {
                    Some(child) => child[from + k],
                    None => 0u8,
                };
                proof {
                    assert(want[at] == value);
                }
                out.push(value);
            }
        }
        assert(out@.len() == (row + 1) * side * n) by (nonlinear_arith)
            requires
                out@.len() == (row * side + side) * n,
        ;
    }
    assert(out@ =~= want);
    Some(out)
}

/// Number of whole pixels in a buffer.
pub open spec fn pixel_count(buf: Seq<u8>, bands: int) -> int {
    buf.len() as int / bands
}

/// The buffer without its alpha bytes.
pub open spec fn opaque_of(buf: Seq<u8>, bands: int) -> Seq<u8> {
    Seq::new(
        (pixel_count(buf, bands) * (bands - 1)) as nat,
        |i: int| buf[(i / (bands - 1)) * bands + i % (bands - 1)],
    )
}

/// The alpha bytes of the buffer, one per pixel.
pub open spec fn alpha_of(buf: Seq<u8>, bands: int) -> Seq<u8> {
    Seq::new(pixel_count(buf, bands) as nat, |p: int| buf[p * bands + bands - 1])
}

/// Every byte of the plane is 255.
pub open spec fn all_opaque(alpha: Seq<u8>) -> bool {
    forall|p: int| 0 <= p < alpha.len() ==> alpha[p] == 255
}

/// The colour bytes and the alpha plane woven back into one buffer.
pub open spec fn joined(opaque: Seq<u8>, alpha: Seq<u8>, bands: int) -> Seq<u8> {
    Seq::new(
        (alpha.len() * bands) as nat,
        |i: int|
            if i % bands == bands - 1 {
                alpha[i / bands]
            } else {
                opaque[(i / bands) * (bands - 1) + i % bands]
            },
    )
}

/// Parts a buffer into its colour bytes and its alpha plane, and says
/// whether every pixel is fully opaque. Bytes after the last whole pixel
/// are left out.
pub fn split_alpha(pixels: &Vec<u8>, bands: Bands) -> (parts: (Vec<u8>, Vec<u8>, bool))
    ensures
        parts.0@ == opaque_of(pixels@, bands.count()),
        parts.1@ == alpha_of(pixels@, bands.count()),
        parts.2 == all_opaque(alpha_of(pixels@, bands.count())),
{
    let n = bands.channels();
    let total = pixels.len();
    let count = total / n;
    let ghost want_opaque = opaque_of(pixels@, n as int);
    let ghost want_alpha = alpha_of(pixels@, n as int);
    let mut opaque: Vec<u8> = Vec::new();
    let mut alpha: Vec<u8> = Vec::new();
    let mut fully_opaque = true;
    proof {
        vstd::arithmetic::div_mod::lemma_fundamental_div_mod(pixels@.len() as int, n as int);
        assert(0 <= count * (n - 1) && 0 * (n - 1) == 0) by (nonlinear_arith)
            requires
                0 <= count,
                1 <= n,
        ;
    }
    for p in 0..count
        invariant
            n == bands.count(),
            count == pixel_count(pixels@, n as int),
            count * n <= pixels@.len(),
            total == pixels@.len(),
            want_opaque == opaque_of(pixels@, n as int),
            want_alpha == alpha_of(pixels@, n as int),
            want_opaque.len() == count * (n - 1),
            opaque@.len() == p * (n - 1),
            alpha@.len() == p,
            forall|i: int| 0 <= i < opaque@.len() ==> opaque@[i] == want_opaque[i],
            forall|i: int| 0 <= i < alpha@.len() ==> alpha@[i] == want_alpha[i],
            fully_opaque == forall|i: int| 0 <= i < p ==> want_alpha[i] == 255,
    {
        proof {
            assert(p * n + n <= count * n) by (nonlinear_arith)
                requires
                    0 <= p < count,
                    0 <= n,
            ;
            assert(0 <= p * n) by (nonlinear_arith)
                requires
                    0 <= p,
                    0 <= n,
            ;
        }
        let from = p * n;
        for k in 0..(n - 1)
            invariant
                n == bands.count(),
                0 <= p < count,
                from == p * n,
                from + n <= pixels@.len(),
                total == pixels@.len(),
                want_opaque == opaque_of(pixels@, n as int),
                want_opaque.len() == count * (n - 1),
                opaque@.len() == p * (n - 1) + k,
                forall|i: int| 0 <= i < opaque@.len() ==> opaque@[i] == want_opaque[i],
        {
            proof {
                let at = p * (n - 1) + k;
                lemma_fundamental_div_mod_converse(at, n - 1, p as int, k as int);
                assert(at < count * (n - 1)) by (nonlinear_arith)
                    requires
                        at == p * (n - 1) + k,
                        0 <= p < count,
                        0 <= k < n - 1,
                ;
            }
            opaque.push(pixels[from + k]);
        }
        let a = pixels[from + n - 1];
        if a != 255 {
            fully_opaque = false;
        }
        alpha.push(a);
        proof {
            assert(want_alpha[p as int] == a);
            assert(opaque@.len() == (p + 1) * (n - 1)) by (nonlinear_arith)
                requires
                    opaque@.len() == p * (n - 1) + (n - 1),
            ;
        }
    }
    assert(opaque@ =~= want_opaque);
    assert(alpha@ =~= want_alpha);
    (opaque, alpha, fully_opaque)
}

/// Weaves colour bytes and an alpha plane into one buffer, when there are
/// colour bytes for exactly as many pixels as the plane has.
pub fn join_alpha(opaque: &Vec<u8>, alpha: &Vec<u8>, bands: Bands) -> (out: Option<Vec<u8>>)
    ensures
        out is Some <==> (opaque@.len() == alpha@.len() * (bands.count() - 1) && alpha@.len()
            * bands.count() <= usize::MAX),
        match out {
            Some(buf) => buf@ == joined(opaque@, alpha@, bands.count()),
            None => true,
        },
{
    let n = bands.channels();
    let count = alpha.len();
    let fits = match count.checked_mul(n) {
        Some(total) => true,
        None => false,
    };
    if !fits {
        return None;
    }
    proof {
        assert(count * (n - 1) <= count * n) by (nonlinear_arith)
            requires
                0 <= count,
                1 <= n,
        ;
    }
    let have = opaque.len();
    if have != count * (n - 1) {
        return None;
    }
    let ghost want = joined(opaque@, alpha@, n as int);
    let mut out: Vec<u8> = Vec::new();
    proof {
        assert(0 * n == 0 && 0 <= count * n) by (nonlinear_arith)
            requires
                0 <= count,
                0 <= n,
        ;
    }
    for p in 0..count
        invariant
            n == bands.count(),
            count == alpha@.len(),
            opaque@.len() == count * (n - 1),
            have == opaque@.len(),
            want == joined(opaque@, alpha@, n as int),
            want.len() == count * n,
            out@.len() == p * n,
            forall|i: int| 0 <= i < out@.len() ==> out@[i] == want[i],
    {
        proof {
            assert(p * (n - 1) + (n - 1) <= count * (n - 1) && 0 <= p * (n - 1))
                by (nonlinear_arith)
                requires
                    0 <= p < count,
                    1 <= n,
            ;
        }
        let from = p * (n - 1);
        for k in 0..n
            invariant
                n == bands.count(),
                count == alpha@.len(),
                0 <= p < count,
                from == p * (n - 1),
                from + (n - 1) <= opaque@.len(),
                have == opaque@.len(),
                want == joined(opaque@, alpha@, n as int),
                want.len() == count * n,
                out@.len() == p * n + k,
                forall|i: int| 0 <= i < out@.len() ==> out@[i] == want[i],
        {
            proof {
                let at = p * n + k;
                lemma_fundamental_div_mod_converse(at, n as int, p as int, k as int);
                assert(at < count * n) by (nonlinear_arith)
                    requires
                        at == p * n + k,
                        0 <= p < count,
                        0 <= k < n,
                ;
            }
            let value = if k == n - 1 {
                alpha[p]
            } else {
                opaque[from + k]
            };
            out.push(value);
        }
        assert(out@.len() == (p + 1) * n) by (nonlinear_arith)
            requires
                out@.len() == p * n + n,
        ;
    }
    assert(out@ =~= want);
    Some(out)
}

/// A plane of `side` by `side` pixels, every one fully opaque.
pub fn opaque_plane(side: usize) -> (plane: Vec<u8>)
    requires
        side * side <= usize::MAX,
    ensures
        plane@.len() == side * side,
        all_opaque(plane@),
{
    let total = side * side;
    let mut plane: Vec<u8> = Vec::new();
    for i in 0..total
        invariant
            plane@.len() == i,
            all_opaque(plane@),
    {
        plane.push(255u8);
    }
    plane
}

} // verus!
