//! Z-order of tiles: the Morton code that interleaves the bits of a tile's
//! column and row, what it says bit by bit, and why tiles under one
//! ancestor are neighbours in that order.

use crate::tile::{Tile, MAX_TILE_ZOOM};
use vstd::bits::lemma_u32_shr_is_div;
use vstd::prelude::*;
use vstd::seq_lib::{to_multiset_contains, to_multiset_len, to_multiset_remove};

verus! {

/// The 32 bits of `v` moved to the even bit positions of a 64-bit word:
/// bit `i` of `v` becomes bit `2 i`, every odd bit is clear.
pub open spec fn spread(v: u32) -> u64 {
    let a = v as u64;
    let b = (a | (a << 16)) & 0x0000_FFFF_0000_FFFFu64;
    let c = (b | (b << 8)) & 0x00FF_00FF_00FF_00FFu64;
    let d = (c | (c << 4)) & 0x0F0F_0F0F_0F0F_0F0Fu64;
    let e = (d | (d << 2)) & 0x3333_3333_3333_3333u64;
    (e | (e << 1)) & 0x5555_5555_5555_5555u64
}

/// The word with exactly the `n` lowest bits set.
pub open spec fn low_mask(n: u64) -> u64 {
    if n >= 64 {
        0xFFFF_FFFF_FFFF_FFFFu64
    } else {
        ((1u64 << n) - 1) as u64
    }
}

/// Bit `i` of a 64-bit word, as 0 or 1.
pub open spec fn bit64(w: u64, i: u64) -> u64 {
    (w >> i) & 1
}

/// The Morton code of a column and a row: the bits of `x` at the even
/// positions, those of `y` at the odd ones.
pub open spec fn morton(x: u32, y: u32) -> u64 {
    spread(x) | (spread(y) << 1)
}

impl Tile {
    /// The tile's place on the Z-order curve of its level.
    pub open spec fn code(self) -> u64 {
        morton(self.x, self.y)
    }

    /// Moves bit `i` of `v` to bit `2 i` of the result.
    pub fn interleave(v: u32) -> (wide: u64)
        ensures
            wide == spread(v),
    {
        let mut result: u64 = 0;
        assert(spread(v) & low_mask(0) == 0) by (bit_vector);
        for i in 0..32u32
            invariant
                result == spread(v) & low_mask((2 * i) as u64),
        {
            let at: u64 = i as u64;
            assert((spread(v) & low_mask((2 * at) as u64)) | ((((v as u64) >> at) & 1) << ((2 * at) as u64))
                == spread(v) & low_mask((2 * at + 2) as u64)) by (bit_vector)
                requires
                    at < 32,
            ;
            result |= (((v as u64) >> at) & 1) << (2 * at);
        }
        assert(spread(v) & low_mask(64) == spread(v)) by (bit_vector);
        result
    }

    /// The tile's Morton code: the bits of its column and row interleaved.
    pub fn morton_code(&self) -> (code: u64)
        ensures
            code == self.code(),
    {
        Self::interleave(self.x) | (Self::interleave(self.y) << 1)
    }
}

/// Bit by bit, the Morton code is the interleaving of its two inputs: bit
/// `i` of the column sits at position `2 i`, bit `i` of the row at `2 i + 1`.
pub proof fn lemma_morton_bits(x: u32, y: u32, i: u64)
    requires
        i < 32,
    ensures
        bit64(morton(x, y), (2 * i) as u64) == bit64(x as u64, i),
        bit64(morton(x, y), (2 * i + 1) as u64) == bit64(y as u64, i),
{
    assert(bit64(morton(x, y), (2 * i) as u64) == bit64(x as u64, i)) by (bit_vector)
        requires
            i < 32,
    ;
    assert(bit64(morton(x, y), (2 * i + 1) as u64) == bit64(y as u64, i)) by (bit_vector)
        requires
            i < 32,
    ;
}

/// Two positions with the same Morton code are the same position.
pub proof fn lemma_morton_injective(x1: u32, y1: u32, x2: u32, y2: u32)
    requires
        morton(x1, y1) == morton(x2, y2),
    ensures
        x1 == x2,
        y1 == y2,
{
    assert(morton(x1, y1) == morton(x2, y2) ==> x1 == x2 && y1 == y2) by (bit_vector);
}

/// Dropping the `2 k` lowest bits of a Morton code gives the Morton code of
/// the position `k` levels up.
pub proof fn lemma_morton_shift(x: u32, y: u32, k: u64)
    requires
        k < 32,
    ensures
        morton(x, y) >> ((2 * k) as u64) == morton(x >> (k as u32), y >> (k as u32)),
{
    let xs: u32 = x >> (k as u32);
    let ys: u32 = y >> (k as u32);
    assert(morton(x, y) >> ((2 * k) as u64) == morton(xs, ys)) by (bit_vector)
        requires
            k < 32,
            xs == x >> (k as u32),
            ys == y >> (k as u32),
    ;
}

/// The tiles come in Z-order: their Morton codes never decrease.
pub open spec fn in_zorder(tiles: Seq<Tile>) -> bool {
    forall|i: int, j: int| 0 <= i < j < tiles.len() ==> tiles[i].code() <= tiles[j].code()
}

/// The tiles of the list that have the Morton code `code`, in the order in
/// which the list holds them.
pub open spec fn with_code(tiles: Seq<Tile>, code: u64) -> Seq<Tile> {
    tiles.filter(|t: Tile| t.code() == code)
}

/// Within the list the Morton code tells tiles apart, as it does among the
/// tiles of one level.
pub open spec fn codes_tell_apart(tiles: Seq<Tile>) -> bool {
    forall|i: int, j: int|
        0 <= i < tiles.len() && 0 <= j < tiles.len() && tiles[i].code() == tiles[j].code()
            ==> tiles[i] == tiles[j]
}

/// The tiles each stand beside their Morton code.
pub open spec fn coded(tiles: Seq<Tile>, codes: Seq<u64>) -> bool {
    &&& codes.len() == tiles.len()
    &&& forall|i: int| 0 <= i < tiles.len() ==> codes[i] == (#[trigger] tiles[i]).code()
}

/// Adding a tile at the end adds it to the tiles of its own code, and to
/// no others.
proof fn lemma_with_code_push(tiles: Seq<Tile>, t: Tile, code: u64)
    ensures
        with_code(tiles.push(t), code) == if t.code() == code {
            with_code(tiles, code).push(t)
        } else {
            with_code(tiles, code)
        },
{
    reveal(Seq::filter);
    assert(tiles.push(t).drop_last() =~= tiles);
}

/// Of tiles that all have other codes, none has the code.
proof fn lemma_with_code_none(tiles: Seq<Tile>, code: u64)
    requires
        forall|i: int| 0 <= i < tiles.len() ==> (#[trigger] tiles[i]).code() != code,
    ensures
        with_code(tiles, code) == Seq::<Tile>::empty(),
    decreases tiles.len(),
{
    reveal(Seq::filter);
    if tiles.len() > 0 {
        lemma_with_code_none(tiles.drop_last(), code);
    }
}

/// The tiles of a code in two lists, one after the other, are those of
/// the first list followed by those of the second.
proof fn lemma_with_code_add(a: Seq<Tile>, b: Seq<Tile>, code: u64)
    ensures
        with_code(a + b, code) == with_code(a, code) + with_code(b, code),
    decreases b.len(),
{
    if b.len() == 0 {
        reveal(Seq::filter);
        assert(a + b =~= a);
        assert(with_code(b, code) =~= Seq::<Tile>::empty());
        assert(with_code(a, code) + with_code(b, code) =~= with_code(a, code));
    } else {
        let front = b.drop_last();
        let t = b.last();
        lemma_with_code_add(a, front, code);
        assert(a + b =~= (a + front).push(t));
        assert(b =~= front.push(t));
        lemma_with_code_push(a + front, t, code);
        lemma_with_code_push(front, t, code);
        if t.code() == code {
            assert((with_code(a, code) + with_code(front, code)).push(t) =~= with_code(a, code)
                + with_code(front, code).push(t));
        }
    }
}

/// Merges two Z-ordered lists into one; where codes are equal the tiles of
/// the first list come first.
fn merge(a: &Vec<Tile>, a_codes: &Vec<u64>, b: &Vec<Tile>, b_codes: &Vec<u64>) -> (out: (
    Vec<Tile>,
    Vec<u64>,
))
    requires
        in_zorder(a@),
        in_zorder(b@),
        coded(a@, a_codes@),
        coded(b@, b_codes@),
    ensures
        in_zorder(out.0@),
        coded(out.0@, out.1@),
        out.0@.len() == a@.len() + b@.len(),
        out.0@.to_multiset() == a@.to_multiset().add(b@.to_multiset()),
        forall|code: u64| with_code(out.0@, code) == with_code(a@, code) + with_code(b@, code),
{
    broadcast use vstd::multiset::group_multiset_axioms;

    let mut tiles: Vec<Tile> = Vec::new();
    let mut codes: Vec<u64> = Vec::new();
    let mut i: usize = 0;
    let mut j: usize = 0;
    proof {
        assert(a@.take(0) =~= Seq::<Tile>::empty());
        assert(b@.take(0) =~= Seq::<Tile>::empty());
        assert forall|code: u64|
            with_code(tiles@, code) == with_code(a@.take(0), code) + with_code(
                b@.take(0),
                code,
            ) by {
            lemma_with_code_none(Seq::<Tile>::empty(), code);
        }
        let none = Seq::<Tile>::empty();
        assert(tiles@ =~= none);
        assert forall|t: Tile| none.to_multiset().count(t) == 0 by {
            to_multiset_contains(none, t);
        }
        assert(tiles@.to_multiset() =~= a@.take(0).to_multiset().add(b@.take(0).to_multiset()));
    }
    while i < a.len() || j < b.len()
        invariant
            in_zorder(a@),
            in_zorder(b@),
            coded(a@, a_codes@),
            coded(b@, b_codes@),
            i <= a@.len(),
            j <= b@.len(),
            tiles@.len() == i + j,
            coded(tiles@, codes@),
            in_zorder(tiles@),
            forall|k: int|
                0 <= k < tiles@.len() && i < a@.len() ==> (#[trigger] tiles@[k]).code()
                    <= a@[i as int].code(),
            forall|k: int|
                0 <= k < tiles@.len() && j < b@.len() ==> (#[trigger] tiles@[k]).code()
                    <= b@[j as int].code(),
            forall|k: int|
                0 <= k < j && i < a@.len() ==> (#[trigger] b@[k]).code() < a@[i as int].code(),
            forall|code: u64|
                with_code(tiles@, code) == with_code(a@.take(i as int), code) + with_code(
                    b@.take(j as int),
                    code,
                ),
            tiles@.to_multiset() == a@.take(i as int).to_multiset().add(
                b@.take(j as int).to_multiset(),
            ),
        decreases a@.len() - i + (b@.len() - j),
    {
        let ghost before = tiles@;
        let from_first = if j >= b.len() {
            true
        } else if i >= a.len() {
            false
        } else {
            a_codes[i] <= b_codes[j]
        };
        if from_first {
            let t = a[i];
            tiles.push(t);
            codes.push(a_codes[i]);
            proof {
                assert(a@.take(i + 1) =~= a@.take(i as int).push(t));
                vstd::seq_lib::to_multiset_build(before, t);
                vstd::seq_lib::to_multiset_build(a@.take(i as int), t);
                assert(tiles@.to_multiset() =~= a@.take(i + 1).to_multiset().add(
                    b@.take(j as int).to_multiset(),
                ));
                assert forall|code: u64|
                    with_code(tiles@, code) == with_code(a@.take(i + 1), code) + with_code(
                        b@.take(j as int),
                        code,
                    ) by {
                    lemma_with_code_push(before, t, code);
                    lemma_with_code_push(a@.take(i as int), t, code);
                    if t.code() == code {
                        assert forall|k: int| 0 <= k < b@.take(j as int).len() implies (
                        #[trigger] b@.take(j as int)[k]).code() != code by {
                            assert(b@.take(j as int)[k] == b@[k]);
                        }
                        lemma_with_code_none(b@.take(j as int), code);
                        assert((with_code(a@.take(i as int), code) + Seq::<Tile>::empty()).push(t)
                            =~= with_code(a@.take(i as int), code).push(t)
                            + Seq::<Tile>::empty());
                    }
                }
                assert forall|p: int, q: int| 0 <= p < q < tiles@.len() implies tiles@[p].code()
                    <= tiles@[q].code() by {
                    if q < before.len() {
                        assert(before[p].code() <= before[q].code());
                    } else {
                        assert(tiles@[p] == before[p]);
                    }
                }
            }
            i += 1;
        } else {
            let t = b[j];
            tiles.push(t);
            codes.push(b_codes[j]);
            proof {
                assert(b@.take(j + 1) =~= b@.take(j as int).push(t));
                vstd::seq_lib::to_multiset_build(before, t);
                vstd::seq_lib::to_multiset_build(b@.take(j as int), t);
                assert(tiles@.to_multiset() =~= a@.take(i as int).to_multiset().add(
                    b@.take(j + 1).to_multiset(),
                ));
                assert forall|code: u64|
                    with_code(tiles@, code) == with_code(a@.take(i as int), code) + with_code(
                        b@.take(j + 1),
                        code,
                    ) by {
                    lemma_with_code_push(before, t, code);
                    lemma_with_code_push(b@.take(j as int), t, code);
                    if t.code() == code {
                        assert((with_code(a@.take(i as int), code) + with_code(
                            b@.take(j as int),
                            code,
                        )).push(t) =~= with_code(a@.take(i as int), code) + with_code(
                            b@.take(j as int),
                            code,
                        ).push(t));
                    }
                }
                assert forall|p: int, q: int| 0 <= p < q < tiles@.len() implies tiles@[p].code()
                    <= tiles@[q].code() by {
                    if q < before.len() {
                        assert(before[p].code() <= before[q].code());
                    } else {
                        assert(tiles@[p] == before[p]);
                    }
                }
            }
            j += 1;
        }
    }
    proof {
        assert(a@.take(a@.len() as int) =~= a@);
        assert(b@.take(b@.len() as int) =~= b@);
    }
    (tiles, codes)
}

/// The tiles from place `lo` up to place `hi` in Z-order, each beside its
/// code; tiles with the same code stay in the order they stand in.
fn sorted_part(tiles: &[Tile], lo: usize, hi: usize) -> (out: (Vec<Tile>, Vec<u64>))
    requires
        lo <= hi <= tiles@.len(),
    ensures
        in_zorder(out.0@),
        coded(out.0@, out.1@),
        out.0@.len() == hi - lo,
        out.0@.to_multiset() == tiles@.subrange(lo as int, hi as int).to_multiset(),
        forall|code: u64|
            with_code(out.0@, code) == with_code(tiles@.subrange(lo as int, hi as int), code),
    decreases hi - lo,
{
    let ghost part = tiles@.subrange(lo as int, hi as int);
    if hi - lo <= 1 {
        let mut out: Vec<Tile> = Vec::new();
        let mut codes: Vec<u64> = Vec::new();
        if hi - lo == 1 {
            let t = tiles[lo];
            out.push(t);
            codes.push(t.morton_code());
        }
        proof {
            assert(out@ =~= part);
        }
        return (out, codes);
    }
    let mid = lo + (hi - lo) / 2;
    let (left, left_codes) = sorted_part(tiles, lo, mid);
    let (right, right_codes) = sorted_part(tiles, mid, hi);
    let out = merge(&left, &left_codes, &right, &right_codes);
    proof {
        let first = tiles@.subrange(lo as int, mid as int);
        let second = tiles@.subrange(mid as int, hi as int);
        assert(part =~= first + second);
        vstd::seq_lib::lemma_multiset_commutative(first, second);
        assert forall|code: u64| with_code(out.0@, code) == with_code(part, code) by {
            lemma_with_code_add(first, second, code);
        }
    }
    out
}

impl Tile {
    /// Puts the tiles in Z-order. Tiles with the same Morton code (the same
    /// position on different levels) keep the order they came in.
    pub fn sort_by_zorder(tiles: &mut [Tile])
        ensures
            in_zorder(final(tiles)@),
            final(tiles)@.to_multiset() == old(tiles)@.to_multiset(),
            final(tiles)@.len() == old(tiles)@.len(),
            forall|code: u64| with_code(final(tiles)@, code) == with_code(old(tiles)@, code),
    {
        let count = tiles.len();
        let (sorted, _) = sorted_part(tiles, 0, count);
        proof {
            assert(tiles@.subrange(0, count as int) =~= tiles@);
        }
        for i in 0..count
            invariant
                count == sorted@.len(),
                count == tiles@.len(),
                forall|k: int| 0 <= k < i ==> tiles@[k] == sorted@[k],
        {
            tiles[i] = sorted[i];
        }
        proof {
            assert(tiles@ =~= sorted@);
        }
    }

    /// The code of an ancestor is the tile's own code without its lowest
    /// `2 levels` bits.
    pub proof fn lemma_ancestor_code(self, levels: u8)
        requires
            levels <= self.zoom,
            levels <= MAX_TILE_ZOOM,
        ensures
            self.ancestor(levels).unwrap().code() == self.code() >> ((2 * levels) as u64),
    {
        lemma_u32_shr_is_div(self.x, levels as u32);
        lemma_u32_shr_is_div(self.y, levels as u32);
        lemma_morton_shift(self.x, self.y, levels as u64);
    }
}

/// Tiles of one level are told apart by their Morton codes.
pub proof fn lemma_one_level_codes(tiles: Seq<Tile>)
    requires
        forall|i: int, j: int|
            0 <= i < tiles.len() && 0 <= j < tiles.len() ==> tiles[i].zoom == tiles[j].zoom,
    ensures
        codes_tell_apart(tiles),
{
    assert forall|i: int, j: int|
        0 <= i < tiles.len() && 0 <= j < tiles.len() && tiles[i].code()
            == tiles[j].code() implies tiles[i] == tiles[j] by {
        lemma_morton_injective(tiles[i].x, tiles[i].y, tiles[j].x, tiles[j].y);
    }
}

/// Z-order does not depend on the order the tiles came in: two lists that
/// hold the same tiles and are both in Z-order are the same list, provided
/// the codes tell the tiles apart.
pub proof fn lemma_zorder_unique(a: Seq<Tile>, b: Seq<Tile>)
    requires
        a.to_multiset() == b.to_multiset(),
        in_zorder(a),
        in_zorder(b),
        codes_tell_apart(a),
    ensures
        a == b,
    decreases a.len(),
{
    to_multiset_len(a);
    to_multiset_len(b);
    if a.len() == 0 {
        assert(a =~= b);
    } else {
        let a0 = a[0];
        let b0 = b[0];
        to_multiset_contains(a, a0);
        to_multiset_contains(b, a0);
        to_multiset_contains(a, b0);
        to_multiset_contains(b, b0);
        assert(a.contains(a0));
        assert(b.contains(b0));
        let j = choose|j: int| 0 <= j < b.len() && b[j] == a0;
        let i = choose|i: int| 0 <= i < a.len() && a[i] == b0;
        assert(b0.code() <= a0.code());
        assert(a0.code() <= b0.code());
        assert(a0 == b0);
        to_multiset_remove(a, 0);
        to_multiset_remove(b, 0);
        let ar = a.remove(0);
        let br = b.remove(0);
        assert(in_zorder(ar)) by {
            assert forall|p: int, q: int| 0 <= p < q < ar.len() implies ar[p].code()
                <= ar[q].code() by {
                assert(ar[p] == a[p + 1] && ar[q] == a[q + 1]);
            }
        }
        assert(in_zorder(br)) by {
            assert forall|p: int, q: int| 0 <= p < q < br.len() implies br[p].code()
                <= br[q].code() by {
                assert(br[p] == b[p + 1] && br[q] == b[q + 1]);
            }
        }
        assert(codes_tell_apart(ar)) by {
            assert forall|p: int, q: int|
                0 <= p < ar.len() && 0 <= q < ar.len() && ar[p].code()
                    == ar[q].code() implies ar[p] == ar[q] by {
                assert(ar[p] == a[p + 1] && ar[q] == a[q + 1]);
            }
        }
        lemma_zorder_unique(ar, br);
        assert(a =~= seq![a0] + ar);
        assert(b =~= seq![b0] + br);
    }
}

/// In a Z-ordered list of tiles of one level, the tiles that share an
/// ancestor stand next to each other: whatever lies between two of them
/// has that ancestor too.
pub proof fn lemma_siblings_adjacent(tiles: Seq<Tile>, levels: u8, i: int, m: int, j: int)
    requires
        in_zorder(tiles),
        0 <= i <= m <= j < tiles.len(),
        tiles[i].zoom == tiles[m].zoom,
        tiles[j].zoom == tiles[m].zoom,
        levels <= tiles[m].zoom,
        levels <= MAX_TILE_ZOOM,
        tiles[i].ancestor(levels) == tiles[j].ancestor(levels),
    ensures
        tiles[m].ancestor(levels) == tiles[i].ancestor(levels),
{
    let lo = tiles[i];
    let mid = tiles[m];
    let hi = tiles[j];
    lo.lemma_ancestor_code(levels);
    mid.lemma_ancestor_code(levels);
    hi.lemma_ancestor_code(levels);
    let (cl, cm, ch) = (lo.code(), mid.code(), hi.code());
    let n: u64 = (2 * levels) as u64;
    assert(cl <= cm <= ch);
    assert(cm >> n == cl >> n) by (bit_vector)
        requires
            cl <= cm <= ch,
            cl >> n == ch >> n,
    ;
    let up_lo = lo.ancestor(levels).unwrap();
    let up_mid = mid.ancestor(levels).unwrap();
    lemma_morton_injective(up_lo.x, up_lo.y, up_mid.x, up_mid.y);
}

} // verus!
