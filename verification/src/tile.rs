//! Map tiles in the Web Mercator pyramid: identity, parents and children,
//! sectors inside an ancestor, and the row numbering of the archive.

use vstd::arithmetic::div_mod::{lemma_div_denominator, lemma_fundamental_div_mod};
use vstd::arithmetic::power2::{lemma_pow2_pos, lemma_pow2_unfold, pow2};
use vstd::bits::{
    lemma_u32_low_bits_mask_is_mod, lemma_u32_pow2_no_overflow, lemma_u32_shl_is_mul,
    low_bits_mask,
};
use vstd::prelude::*;

verus! {

/// Deepest zoom at which every column and row number fits in a `u32`
/// together with the number of tiles per side.
pub const MAX_TILE_ZOOM: u8 = 31;

/// A tile of the pyramid: `x` grows east, `y` grows south, both counted
/// from the top-left corner of the level `zoom`.
#[derive(Debug, Clone, Copy, PartialEq, Eq, Hash, Structural)]
pub struct Tile {
    pub zoom: u8,
    pub x: u32,
    pub y: u32,
}

/// Number of tiles along one side of the level `zoom`.
pub open spec fn side(zoom: u8) -> int {
    pow2(zoom as nat) as int
}

impl Tile {
    /// The tile lies inside its level, and the level is one whose side
    /// fits in a `u32`.
    pub open spec fn wf(self) -> bool {
        &&& self.zoom <= MAX_TILE_ZOOM
        &&& self.x < side(self.zoom)
        &&& self.y < side(self.zoom)
    }

    /// The tile one level up that contains this one; the root has none.
    pub open spec fn parent(self) -> Option<Tile> {
        if self.zoom == 0 {
            None
        } else {
            Some(Tile { zoom: (self.zoom - 1) as u8, x: self.x / 2, y: self.y / 2 })
        }
    }

    /// Row of the tile counted from the bottom of its level.
    pub open spec fn row_from_bottom(self) -> int {
        side(self.zoom) - 1 - self.y
    }

    /// Row number under which the archive stores the tile.
    pub fn reversed_y(&self) -> (row: u32)
        requires
            self.zoom <= MAX_TILE_ZOOM,
            self.y < side(self.zoom),
        ensures
            row == self.row_from_bottom(),
            row < side(self.zoom),
    {
        proof {
            lemma_u32_pow2_no_overflow(self.zoom as nat);
            lemma_u32_shl_is_mul(1u32, self.zoom as u32);
        }
        (1u32 << (self.zoom as u32)) - 1 - self.y
    }

    /// The tile `level` levels up that contains this one: its column and
    /// row are this tile's divided by `2^level`. There is none above the root.
    pub open spec fn ancestor(self, level: u8) -> Option<Tile> {
        if level <= self.zoom {
            Some(
                Tile {
                    zoom: (self.zoom - level) as u8,
                    x: (self.x as int / side(level)) as u32,
                    y: (self.y as int / side(level)) as u32,
                },
            )
        } else {
            None
        }
    }

    /// Position of the tile inside its ancestor `levels` levels up, as
    /// (column, row) counted in tiles of this tile's own level.
    pub open spec fn sector(self, levels: u8) -> (int, int) {
        (self.x as int % side(levels), self.y as int % side(levels))
    }

    /// The `i`-th of the four tiles one level down: `i & 1` picks the
    /// column, `i >> 1` the row.
    pub open spec fn child(self, i: int) -> Tile {
        Tile {
            zoom: (self.zoom + 1) as u8,
            x: (2 * self.x + i % 2) as u32,
            y: (2 * self.y + i / 2) as u32,
        }
    }

    /// The four children, in the order of `child`.
    pub open spec fn children(self) -> Seq<Tile> {
        Seq::new(4, |i: int| self.child(i))
    }

    /// Whether doubling the coordinates stays inside the machine types.
    pub open spec fn can_descend(self) -> bool {
        &&& self.zoom < u8::MAX
        &&& 2 * self.x + 1 <= u32::MAX
        &&& 2 * self.y + 1 <= u32::MAX
    }

    /// Whether the tile lies inside its level (see `wf`).
    pub fn is_valid(&self) -> (valid: bool)
        ensures
            valid == self.wf(),
    {
        if self.zoom > MAX_TILE_ZOOM {
            return false;
        }
        proof {
            lemma_u32_pow2_no_overflow(self.zoom as nat);
            lemma_u32_shl_is_mul(1u32, self.zoom as u32);
        }
        let side: u32 = 1u32 << (self.zoom as u32);
        self.x < side && self.y < side
    }

    /// The tile one level up that contains this one; the root has none.
    pub fn get_parent(&self) -> (up: Option<Tile>)
        ensures
            up == self.parent(),
    {
        if self.zoom == 0 {
            None
        } else {
            Some(Tile { x: self.x / 2, y: self.y / 2, zoom: self.zoom - 1 })
        }
    }

    /// The tile `level` levels up that contains this one, found by going
    /// to the parent `level` times; none above the root.
    pub fn get_ancestor(&self, level: u8) -> (up: Option<Tile>)
        ensures
            up == self.ancestor(level),
    {
        let mut tile = Some(*self);
        let mut done: u8 = 0;
        proof {
            lemma_pow2_unfold(1);
            assert(side(0) == 1) by {
                vstd::arithmetic::power2::lemma2_to64();
            }
        }
        while done < level
            invariant
                done <= level,
                tile == self.ancestor(done),
            decreases level - done,
        {
            proof {
                self.lemma_ancestor_step(done);
            }
            match tile {
                None => {
                    return None;
                },
                Some(t) => {
                    tile = t.get_parent();
                },
            }
            done += 1;
        }
        tile
    }

    /// Column and row of the tile inside its ancestor `levels` levels up.
    pub fn get_sector_in_parent(&self, levels: u8) -> (at: (u32, u32))
        requires
            levels <= MAX_TILE_ZOOM,
        ensures
            (at.0 as int, at.1 as int) == self.sector(levels),
    {
        proof {
            lemma_u32_pow2_no_overflow(levels as nat);
            lemma_u32_shl_is_mul(1u32, levels as u32);
            lemma_pow2_pos(levels as nat);
            lemma_u32_low_bits_mask_is_mod(self.x, levels as nat);
            lemma_u32_low_bits_mask_is_mod(self.y, levels as nat);
            assert(low_bits_mask(levels as nat) == pow2(levels as nat) - 1);
        }
        let mask: u32 = (1u32 << (levels as u32)) - 1;
        (self.x & mask, self.y & mask)
    }

    /// The four tiles one level down: top left, top right, bottom left,
    /// bottom right.
    pub fn get_children(&self) -> (kids: [Tile; 4])
        requires
            self.can_descend(),
        ensures
            kids@ == self.children(),
    {
        let zoom: u8 = self.zoom + 1;
        let kids = [
            Tile { x: self.x * 2, y: self.y * 2, zoom },
            Tile { x: self.x * 2 + 1, y: self.y * 2, zoom },
            Tile { x: self.x * 2, y: self.y * 2 + 1, zoom },
            Tile { x: self.x * 2 + 1, y: self.y * 2 + 1, zoom },
        ];
        assert(kids@ =~= self.children());
        kids
    }

    /// One more level up is the parent of the ancestor so far, and above
    /// the root there is nothing.
    pub proof fn lemma_ancestor_step(self, level: u8)
        requires
            level < u8::MAX,
        ensures
            self.ancestor((level + 1) as u8) == match self.ancestor(level) {
                Some(t) => t.parent(),
                None => None,
            },
            self.ancestor(0) == Some(self),
    {
        lemma_pow2_unfold((level + 1) as nat);
        lemma_pow2_pos(level as nat);
        vstd::arithmetic::power2::lemma2_to64();
        assert(side(0) == 1);
        assert(self.ancestor(0) == Some(self));
        assert(side((level + 1) as u8) == side(level) * 2);
        lemma_div_denominator(self.x as int, side(level), 2);
        lemma_div_denominator(self.y as int, side(level), 2);
        lemma_fundamental_div_mod(self.x as int, side(level));
        lemma_fundamental_div_mod(self.y as int, side(level));
        assert(0 <= self.x as int / side(level) <= self.x) by {
            vstd::arithmetic::div_mod::lemma_div_pos_is_pos(self.x as int, side(level));
            vstd::arithmetic::div_mod::lemma_div_nonincreasing(self.x as int, side(level));
        }
        assert(0 <= self.y as int / side(level) <= self.y) by {
            vstd::arithmetic::div_mod::lemma_div_pos_is_pos(self.y as int, side(level));
            vstd::arithmetic::div_mod::lemma_div_nonincreasing(self.y as int, side(level));
        }
    }

    /// Going up `a` levels and then `b` more is going up `a + b` levels.
    pub proof fn lemma_ancestor_twice(self, a: u8, b: u8)
        requires
            a + b <= u8::MAX,
            self.ancestor(a) is Some,
        ensures
            self.ancestor(a).unwrap().ancestor(b) == self.ancestor((a + b) as u8),
    {
        lemma_pow2_pos(a as nat);
        lemma_pow2_pos(b as nat);
        vstd::arithmetic::power2::lemma_pow2_adds(a as nat, b as nat);
        assert(side((a + b) as u8) == side(a) * side(b));
        lemma_div_denominator(self.x as int, side(a), side(b));
        lemma_div_denominator(self.y as int, side(a), side(b));
        vstd::arithmetic::div_mod::lemma_div_pos_is_pos(self.x as int, side(a));
        vstd::arithmetic::div_mod::lemma_div_nonincreasing(self.x as int, side(a));
        vstd::arithmetic::div_mod::lemma_div_pos_is_pos(self.y as int, side(a));
        vstd::arithmetic::div_mod::lemma_div_nonincreasing(self.y as int, side(a));
    }

    /// Each child has this tile as its parent.
    pub proof fn lemma_child_parent(self, i: int)
        requires
            self.can_descend(),
            0 <= i < 4,
        ensures
            self.child(i).parent() == Some(self),
    {
    }

    /// A tile with a parent is one of that parent's four children, the one
    /// numbered by the low bits of its column and row.
    pub proof fn lemma_parent_child(self)
        requires
            self.zoom > 0,
        ensures
            self.parent().unwrap().can_descend(),
            self.parent().unwrap().child(self.x % 2 + 2 * (self.y % 2)) == self,
    {
    }

    /// The parent of a tile inside its level lies inside the level above.
    pub proof fn lemma_parent_wf(self)
        requires
            self.wf(),
            self.zoom > 0,
        ensures
            self.parent().unwrap().wf(),
    {
        lemma_pow2_unfold(self.zoom as nat);
    }

    /// The children of a tile inside its level lie inside the level below.
    pub proof fn lemma_child_wf(self, i: int)
        requires
            self.wf(),
            self.zoom < MAX_TILE_ZOOM,
            0 <= i < 4,
        ensures
            self.can_descend(),
            self.child(i).wf(),
    {
        lemma_pow2_unfold((self.zoom + 1) as nat);
        lemma_u32_pow2_no_overflow((self.zoom + 1) as nat);
    }

    /// A tile is found again from its ancestor and its sector in it.
    pub proof fn lemma_ancestor_sector(self, levels: u8)
        requires
            levels <= self.zoom,
        ensures
            self.x == self.ancestor(levels).unwrap().x * side(levels) + self.sector(levels).0,
            self.y == self.ancestor(levels).unwrap().y * side(levels) + self.sector(levels).1,
            0 <= self.sector(levels).0 < side(levels),
            0 <= self.sector(levels).1 < side(levels),
    {
        lemma_pow2_pos(levels as nat);
        lemma_fundamental_div_mod(self.x as int, side(levels));
        lemma_fundamental_div_mod(self.y as int, side(levels));
        vstd::arithmetic::div_mod::lemma_div_pos_is_pos(self.x as int, side(levels));
        vstd::arithmetic::div_mod::lemma_div_nonincreasing(self.x as int, side(levels));
        vstd::arithmetic::div_mod::lemma_div_pos_is_pos(self.y as int, side(levels));
        vstd::arithmetic::div_mod::lemma_div_nonincreasing(self.y as int, side(levels));
        vstd::arithmetic::div_mod::lemma_mod_bound(self.x as int, side(levels));
        vstd::arithmetic::div_mod::lemma_mod_bound(self.y as int, side(levels));
        assert(side(levels) * (self.x as int / side(levels)) == (self.x as int / side(levels))
            * side(levels)) by (nonlinear_arith);
        assert(side(levels) * (self.y as int / side(levels)) == (self.y as int / side(levels))
            * side(levels)) by (nonlinear_arith);
    }
}

} // verus!
