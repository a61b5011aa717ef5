//! What has to be made: the leaves that cover a rectangle of columns and
//! rows, and the pyramid of ancestors above a list of leaves.

use crate::tile::Tile;
use crate::tile_set::TileSet;
use vstd::arithmetic::div_mod::lemma_fundamental_div_mod_converse;
use vstd::prelude::*;

verus! {

/// Walks the tiles of one level that lie in a rectangle of columns and
/// rows, row by row from the top, each row from the left.
pub struct TileIterator {
    zoom: u8,
    x: u32,
    y: u32,
    min_tile_x: u32,
    max_tile_x: u32,
    max_tile_y: u32,
    min_tile_y: u32,
    done: bool,
}

impl TileIterator {
    /// Number of columns of the rectangle.
    pub closed spec fn width(&self) -> int {
        if self.min_tile_x <= self.max_tile_x {
            self.max_tile_x - self.min_tile_x + 1
        } else {
            0
        }
    }

    /// Number of rows of the rectangle.
    pub closed spec fn height(&self) -> int {
        if self.min_tile_y <= self.max_tile_y {
            self.max_tile_y - self.min_tile_y + 1
        } else {
            0
        }
    }

    /// Number of tiles in the rectangle.
    pub open spec fn total(&self) -> int {
        self.width() * self.height()
    }

    /// The zoom, the first column and the first row of the rectangle.
    pub closed spec fn origin(&self) -> Tile {
        Tile { zoom: self.zoom, x: self.min_tile_x, y: self.min_tile_y }
    }

    /// Number of tiles handed out so far.
    pub closed spec fn position(&self) -> int {
        if self.done {
            self.total()
        } else {
            (self.y - self.min_tile_y) * self.width() + (self.x - self.min_tile_x)
        }
    }

    /// The `n`-th tile of the walk, counted from 0.
    pub open spec fn tile_at(&self, n: int) -> Tile {
        Tile {
            zoom: self.origin().zoom,
            x: (self.origin().x + n % self.width()) as u32,
            y: (self.origin().y + n / self.width()) as u32,
        }
    }

    /// The cursor lies inside the rectangle until the walk is over.
    pub closed spec fn wf(&self) -> bool {
        &&& self.width() == 0 || self.height() == 0 ==> self.done
        &&& !self.done ==> {
            &&& self.min_tile_x <= self.x <= self.max_tile_x
            &&& self.min_tile_y <= self.y <= self.max_tile_y
        }
    }

    /// A walk over the columns `min_tile_x ..= max_tile_x` of the rows
    /// `min_tile_y ..= max_tile_y`; empty where a range is empty.
    pub fn new(zoom: u8, min_tile_x: u32, max_tile_x: u32, min_tile_y: u32, max_tile_y: u32) -> (walk:
        TileIterator)
        ensures
            walk.wf(),
            walk.position() == 0,
            walk.origin() == (Tile { zoom, x: min_tile_x, y: min_tile_y }),
            walk.width() == if min_tile_x <= max_tile_x {
                max_tile_x - min_tile_x + 1
            } else {
                0
            },
            walk.height() == if min_tile_y <= max_tile_y {
                max_tile_y - min_tile_y + 1
            } else {
                0
            },
    {
        let done = min_tile_x > max_tile_x || min_tile_y > max_tile_y;
        let walk = TileIterator {
            zoom,
            x: min_tile_x,
            y: min_tile_y,
            min_tile_x,
            max_tile_x,
            min_tile_y,
            max_tile_y,
            done,
        };
        proof {
            if done {
                assert(walk.width() * walk.height() == 0) by (nonlinear_arith)
                    requires
                        walk.width() == 0 || walk.height() == 0,
                ;
            } else {
                assert(0 * walk.width() == 0);
            }
        }
        walk
    }

    /// The next tile of the walk, or `None` when all have been handed out.
    pub fn next(&mut self) -> (tile: Option<Tile>)
        requires
            old(self).wf(),
        ensures
            final(self).wf(),
            final(self).origin() == old(self).origin(),
            final(self).width() == old(self).width(),
            final(self).height() == old(self).height(),
            0 <= old(self).position() <= old(self).total(),
            old(self).position() < old(self).total() ==> tile == Some(
                old(self).tile_at(old(self).position()),
            ) && final(self).position() == old(self).position() + 1,
            old(self).position() == old(self).total() ==> tile is None && final(self).position()
                == old(self).position(),
    {
        if self.done {
            proof {
                assert(0 <= self.width() * self.height()) by (nonlinear_arith)
                    requires
                        0 <= self.width(),
                        0 <= self.height(),
                ;
            }
            return None;
        }
        let ghost w = self.width();
        let ghost h = self.height();
        let ghost col = self.x - self.min_tile_x;
        let ghost row = self.y - self.min_tile_y;
        proof {
            assert(0 <= row * w + col < w * h) by (nonlinear_arith)
                requires
                    0 <= col < w,
                    0 <= row < h,
            ;
            lemma_fundamental_div_mod_converse(row * w + col, w, row, col);
        }
        let tile = Tile { zoom: self.zoom, x: self.x, y: self.y };
        if self.x < self.max_tile_x {
            self.x += 1;
        } else if self.y < self.max_tile_y {
            self.x = self.min_tile_x;
            self.y += 1;
            proof {
                assert((row + 1) * w + 0 == row * w + col + 1) by (nonlinear_arith)
                    requires
                        col == w - 1,
                ;
            }
        } else {
            self.done = true;
            proof {
                assert(w * h == row * w + col + 1) by (nonlinear_arith)
                    requires
                        col == w - 1,
                        row == h - 1,
                ;
            }
        }
        Some(tile)
    }
}

/// `t` is one of the leaves or lies above one of them.
pub open spec fn in_pyramid(leaves: Seq<Tile>, t: Tile) -> bool {
    exists|i: int, k: u8| 0 <= i < leaves.len() && #[trigger] leaves[i].ancestor(k) == Some(t)
}

/// The leaves together with all their ancestors up to the root.
pub open spec fn pyramid(leaves: Seq<Tile>) -> Set<Tile> {
    Set::new(|t: Tile| in_pyramid(leaves, t))
}

/// The first `k` tiles on the way from `leaf` to the root.
pub open spec fn climbed(leaf: Tile, k: int) -> Set<Tile> {
    Set::new(|t: Tile| exists|j: u8| j < k && #[trigger] leaf.ancestor(j) == Some(t))
}

/// Whatever lies above a tile of the pyramid is in the pyramid.
pub proof fn lemma_pyramid_upward(leaves: Seq<Tile>, t: Tile, m: u8)
    requires
        in_pyramid(leaves, t),
        t.ancestor(m) is Some,
    ensures
        in_pyramid(leaves, t.ancestor(m).unwrap()),
{
    let (i, k) = choose|i: int, k: u8|
        0 <= i < leaves.len() && #[trigger] leaves[i].ancestor(k) == Some(t);
    leaves[i].lemma_ancestor_twice(k, m);
    assert(leaves[i].ancestor((k + m) as u8) == Some(t.ancestor(m).unwrap()));
}

/// The pyramid above leaves of one level holds no tile below that level,
/// and above leaves that lie inside their level every tile of it lies
/// inside its own.
pub proof fn lemma_pyramid_within(leaves: Seq<Tile>, t: Tile, zoom: u8)
    requires
        forall|i: int| 0 <= i < leaves.len() ==> (#[trigger] leaves[i]).zoom == zoom,
        in_pyramid(leaves, t),
    ensures
        t.zoom <= zoom,
        (forall|i: int| 0 <= i < leaves.len() ==> (#[trigger] leaves[i]).wf()) ==> t.wf(),
{
    let (i, k) = choose|i: int, k: u8|
        0 <= i < leaves.len() && #[trigger] leaves[i].ancestor(k) == Some(t);
    let leaf = leaves[i];
    if leaf.wf() {
        leaf.lemma_ancestor_sector(k);
        vstd::arithmetic::power2::lemma_pow2_adds((leaf.zoom - k) as nat, k as nat);
        vstd::arithmetic::power2::lemma_pow2_pos(k as nat);
        let up = crate::tile::side(t.zoom);
        let unit = crate::tile::side(k);
        assert(crate::tile::side(leaf.zoom) == up * unit);
        assert(t.x < up) by (nonlinear_arith)
            requires
                t.x * unit <= leaf.x,
                leaf.x < up * unit,
                unit > 0,
        ;
        assert(t.y < up) by (nonlinear_arith)
            requires
                t.y * unit <= leaf.y,
                leaf.y < up * unit,
                unit > 0,
        ;
    }
}

/// Every tile that has to be made for the leaves: the leaves and all
/// their ancestors.
pub fn pending_tiles(leaves: &Vec<Tile>) -> (set: TileSet)
    ensures
        set@ == pyramid(leaves@),
        set.wf(),
{
    let mut set = TileSet::new();
    assert(set@ =~= pyramid(leaves@.take(0)));
    for n in 0..leaves.len()
        invariant
            set@ == pyramid(leaves@.take(n as int)),
            set.wf(),
    {
        let leaf = leaves[n];
        let ghost below = leaves@.take(n as int);
        let ghost upto = leaves@.take(n + 1);
        let mut t = leaf;
        let mut k: u8 = 0;
        let mut open = true;
        proof {
            leaf.lemma_ancestor_step(0);
            assert(set@ =~= pyramid(below).union(climbed(leaf, 0)));
        }
        while open
            invariant
                set.wf(),
                below == leaves@.take(n as int),
                upto == leaves@.take(n + 1),
                0 <= n < leaves@.len(),
                leaf == leaves@[n as int],
                k <= leaf.zoom,
                open ==> leaf.ancestor(k) == Some(t),
                open ==> set@ == pyramid(below).union(climbed(leaf, k as int)),
                !open ==> set@ == pyramid(upto),
            decreases leaf.zoom - k + if open { 1int } else { 0int },
        {
            let ghost held = set@;
            let fresh = set.insert(t);
            proof {
                assert(upto[n as int] == leaf);
                assert forall|i: int| 0 <= i < n implies upto[i] == below[i] by {}
            }
            if !fresh {
                proof {
                    assert(!climbed(leaf, k as int).contains(t)) by {
                        if climbed(leaf, k as int).contains(t) {
                            let j = choose|j: u8| j < k && #[trigger] leaf.ancestor(j) == Some(t);
                        }
                    }
                    assert(in_pyramid(below, t));
                    assert forall|u: Tile| pyramid(upto).contains(u) implies set@.contains(u) by {
                        let (i, j) = choose|i: int, j: u8|
                            0 <= i < upto.len() && #[trigger] upto[i].ancestor(j) == Some(u);
                        if i < n {
                            assert(below[i].ancestor(j) == Some(u));
                        } else if j < k {
                            assert(climbed(leaf, k as int).contains(u));
                        } else {
                            leaf.lemma_ancestor_twice(k, (j - k) as u8);
                            lemma_pyramid_upward(below, t, (j - k) as u8);
                        }
                    }
                    assert forall|u: Tile| set@.contains(u) implies pyramid(upto).contains(u) by {
                        if pyramid(below).contains(u) {
                            let (i, j) = choose|i: int, j: u8|
                                0 <= i < below.len() && #[trigger] below[i].ancestor(j) == Some(u);
                            assert(upto[i].ancestor(j) == Some(u));
                        } else {
                            let j = choose|j: u8| j < k && #[trigger] leaf.ancestor(j) == Some(u);
                            assert(upto[n as int].ancestor(j) == Some(u));
                        }
                    }
                    assert(set@ =~= pyramid(upto));
                }
                open = false;
            } else {
                match t.get_parent() {
                    None => {
                        proof {
                            assert(k == leaf.zoom);
                            assert forall|u: Tile| pyramid(upto).contains(u) implies set@.contains(
                                u,
                            ) by {
                                let (i, j) = choose|i: int, j: u8|
                                    0 <= i < upto.len() && #[trigger] upto[i].ancestor(j) == Some(
                                        u,
                                    );
                                if i < n {
                                    assert(below[i].ancestor(j) == Some(u));
                                } else if j < k {
                                    assert(climbed(leaf, k as int).contains(u));
                                }
                            }
                            assert forall|u: Tile| set@.contains(u) implies pyramid(
                                upto,
                            ).contains(u) by {
                                if u == t {
                                    assert(upto[n as int].ancestor(k) == Some(u));
                                } else if pyramid(below).contains(u) {
                                    let (i, j) = choose|i: int, j: u8|
                                        0 <= i < below.len() && #[trigger] below[i].ancestor(j)
                                            == Some(u);
                                    assert(upto[i].ancestor(j) == Some(u));
                                } else {
                                    let j = choose|j: u8|
                                        j < k && #[trigger] leaf.ancestor(j) == Some(u);
                                    assert(upto[n as int].ancestor(j) == Some(u));
                                }
                            }
                            assert(set@ =~= pyramid(upto));
                        }
                        open = false;
                    },
                    Some(up) => {
                        proof {
                            leaf.lemma_ancestor_step(k);
                            assert forall|u: Tile|
                                climbed(leaf, k + 1).contains(u) == (climbed(
                                    leaf,
                                    k as int,
                                ).contains(u) || u == t) by {
                                if climbed(leaf, k + 1).contains(u) {
                                    let j = choose|j: u8|
                                        j < k + 1 && #[trigger] leaf.ancestor(j) == Some(u);
                                }
                                if climbed(leaf, k as int).contains(u) {
                                    let j = choose|j: u8|
                                        j < k && #[trigger] leaf.ancestor(j) == Some(u);
                                    assert(j < k + 1);
                                }
                                if u == t {
                                    assert(k < k + 1 && leaf.ancestor(k) == Some(u));
                                }
                            }
                            assert(set@ =~= pyramid(below).union(climbed(leaf, k + 1)));
                        }
                        t = up;
                        k += 1;
                    },
                }
            }
        }
    }
    assert(leaves@.take(leaves@.len() as int) =~= leaves@);
    set
}

} // verus!
