//! A finite set of tiles, kept in a hash set of integer keys.

use crate::tile::Tile;
use std::collections::HashSet;
use vstd::prelude::*;
use vstd::set_lib::lemma_map_size;

verus! {

broadcast use vstd::std_specs::hash::group_hash_axioms;

/// The integer that stands for a tile in the hash set: zoom, column and row
/// side by side, 32 bits for each of the two coordinates.
pub open spec fn key_of(t: Tile) -> u128 {
    (t.zoom as int * 0x1_0000_0000_0000_0000 + t.x as int * 0x1_0000_0000 + t.y as int) as u128
}

/// The tile that a key stands for.
pub open spec fn tile_of(k: u128) -> Tile {
    Tile {
        zoom: (k as int / 0x1_0000_0000_0000_0000) as u8,
        x: ((k as int / 0x1_0000_0000) % 0x1_0000_0000) as u32,
        y: (k as int % 0x1_0000_0000) as u32,
    }
}

/// A key gives back the tile it was made from, so two tiles never share one.
pub proof fn lemma_key_round_trip(t: Tile)
    ensures
        tile_of(key_of(t)) == t,
{
}

/// The key of a tile.
pub(crate) fn make_key(t: &Tile) -> (k: u128)
    ensures
        k == key_of(*t),
{
    (t.zoom as u128) * 0x1_0000_0000_0000_0000u128 + (t.x as u128) * 0x1_0000_0000u128 + (
    t.y as u128)
}

/// A finite set of tiles.
pub struct TileSet {
    keys: HashSet<u128>,
}

impl View for TileSet {
    type V = Set<Tile>;

    closed spec fn view(&self) -> Set<Tile> {
        Set::new(|t: Tile| self.keys@.contains(key_of(t)))
    }
}

impl TileSet {
    /// The set is finite and holds nothing but keys of tiles. A set made
    /// by `new` is so, and `insert` and `remove` keep it so.
    pub closed spec fn wf(&self) -> bool {
        &&& self.keys@.finite()
        &&& forall|k: u128| self.keys@.contains(k) ==> key_of(tile_of(k)) == k
    }

    /// The empty set.
    pub fn new() -> (set: TileSet)
        ensures
            set@ == Set::<Tile>::empty(),
            set.wf(),
    {
        let set = TileSet { keys: HashSet::new() };
        assert(set@ =~= Set::<Tile>::empty());
        set
    }

    /// Adds the tile; says whether it was new to the set.
    pub fn insert(&mut self, tile: Tile) -> (fresh: bool)
        ensures
            final(self)@ == old(self)@.insert(tile),
            fresh == !old(self)@.contains(tile),
            old(self).wf() ==> final(self).wf(),
    {
        proof {
            lemma_key_round_trip(tile);
        }
        let fresh = self.keys.insert(make_key(&tile));
        proof {
            assert forall|t: Tile| self@.contains(t) == old(self)@.insert(tile).contains(t) by {
                lemma_key_round_trip(t);
            }
            assert(self@ =~= old(self)@.insert(tile));
        }
        fresh
    }

    /// Takes the tile out; says whether the set held it.
    pub fn remove(&mut self, tile: &Tile) -> (held: bool)
        ensures
            final(self)@ == old(self)@.remove(*tile),
            held == old(self)@.contains(*tile),
            old(self).wf() ==> final(self).wf(),
    {
        let k = make_key(tile);
        let held = self.keys.remove(&k);
        proof {
            assert forall|t: Tile| self@.contains(t) == old(self)@.remove(*tile).contains(t) by {
                lemma_key_round_trip(t);
                lemma_key_round_trip(*tile);
            }
            assert(self@ =~= old(self)@.remove(*tile));
        }
        held
    }

    /// Whether the set holds the tile.
    pub fn contains(&self, tile: &Tile) -> (held: bool)
        ensures
            held == self@.contains(*tile),
    {
        let k = make_key(tile);
        self.keys.contains(&k)
    }

    /// Number of tiles in the set.
    pub fn len(&self) -> (n: usize)
        ensures
            self.wf() ==> self@.finite() && n == self@.len(),
    {
        proof {
            if self.wf() {
            let decode = |k: u128| tile_of(k);
            assert(self.keys@.map(decode) =~= self@) by {
                assert forall|t: Tile| self@.contains(t) implies self.keys@.map(decode).contains(
                    t,
                ) by {
                    lemma_key_round_trip(t);
                    assert(self.keys@.contains(key_of(t)) && decode(key_of(t)) == t);
                }
            }
            assert(vstd::relations::injective_on(decode, self.keys@));
            lemma_map_size(self.keys@, self@, decode);
            }
        }
        self.keys.len()
    }
}

} // verus!
