//! The decoded buffers of finished tiles, kept until their parent is
//! composed from them.

use crate::tile::Tile;
use crate::tile_set::{key_of, lemma_key_round_trip, make_key, tile_of};
use std::collections::HashMap;
use vstd::prelude::*;
use vstd::set_lib::lemma_map_size;

verus! {

broadcast use vstd::std_specs::hash::group_hash_axioms;

/// The decoded pixels of finished tiles, by tile.
pub struct DecodedCache {
    buffers: HashMap<u128, Vec<u8>>,
}

impl View for DecodedCache {
    type V = Map<Tile, Seq<u8>>;

    closed spec fn view(&self) -> Map<Tile, Seq<u8>> {
        Map::new(
            |t: Tile| self.buffers@.contains_key(key_of(t)),
            |t: Tile| self.buffers@[key_of(t)]@,
        )
    }
}

/// What the cache holds for each of the four children of `parent`, in the
/// order of the children.
pub open spec fn held_children(cache: Map<Tile, Seq<u8>>, parent: Tile) -> Seq<Option<Seq<u8>>> {
    Seq::new(
        4,
        |q: int|
            if cache.contains_key(parent.child(q)) {
                Some(cache[parent.child(q)])
            } else {
                None
            },
    )
}

/// The cache without the four children of `parent`.
pub open spec fn without_children(cache: Map<Tile, Seq<u8>>, parent: Tile) -> Map<Tile, Seq<u8>> {
    cache.remove(parent.child(0)).remove(parent.child(1)).remove(parent.child(2)).remove(
        parent.child(3),
    )
}

impl DecodedCache {
    /// The cache holds nothing but buffers of tiles. A cache made by `new`
    /// is so, and whatever is done to it keeps it so.
    pub closed spec fn wf(&self) -> bool {
        forall|k: u128| self.buffers@.contains_key(k) ==> key_of(tile_of(k)) == k
    }

    /// An empty cache.
    pub fn new() -> (cache: DecodedCache)
        ensures
            cache@ == Map::<Tile, Seq<u8>>::empty(),
            cache.wf(),
    {
        let cache = DecodedCache { buffers: HashMap::new() };
        assert(cache@ =~= Map::<Tile, Seq<u8>>::empty());
        cache
    }

    /// Number of buffers held.
    pub fn len(&self) -> (n: usize)
        ensures
            self.wf() ==> self@.dom().finite() && n == self@.dom().len(),
    {
        proof {
            if self.wf() {
            let decode = |k: u128| tile_of(k);
            let keys = self.buffers@.dom();
            assert(keys.map(decode) =~= self@.dom()) by {
                assert forall|t: Tile| self@.dom().contains(t) implies keys.map(decode).contains(
                    t,
                ) by {
                    lemma_key_round_trip(t);
                    assert(keys.contains(key_of(t)) && decode(key_of(t)) == t);
                }
            }
            assert(vstd::relations::injective_on(decode, keys));
            lemma_map_size(keys, self@.dom(), decode);
            }
        }
        self.buffers.len()
    }

    /// Keeps the buffer of a finished tile; a buffer kept for the tile
    /// before gives way.
    pub fn insert(&mut self, tile: Tile, pixels: Vec<u8>)
        ensures
            final(self)@ == old(self)@.insert(tile, pixels@),
            old(self).wf() ==> final(self).wf(),
    {
        proof {
            lemma_key_round_trip(tile);
        }
        let k = make_key(&tile);
        self.buffers.insert(k, pixels);
        proof {
            assert forall|t: Tile| #[trigger]
                self@.contains_key(t) == old(self)@.insert(tile, pixels@).contains_key(t) by {
                lemma_key_round_trip(t);
                lemma_key_round_trip(tile);
            }
            assert forall|t: Tile| #[trigger] self@.contains_key(t) implies self@[t] == old(
                self,
            )@.insert(tile, pixels@)[t] by {
                lemma_key_round_trip(t);
                lemma_key_round_trip(tile);
            }
            assert(self@ =~= old(self)@.insert(tile, pixels@));
        }
    }

    /// Hands the buffer of a tile out and forgets it.
    pub fn remove(&mut self, tile: &Tile) -> (pixels: Option<Vec<u8>>)
        ensures
            final(self)@ == old(self)@.remove(*tile),
            old(self).wf() ==> final(self).wf(),
            match pixels {
                Some(buf) => old(self)@.contains_key(*tile) && old(self)@[*tile] == buf@,
                None => !old(self)@.contains_key(*tile),
            },
    {
        let k = make_key(tile);
        let pixels = self.buffers.remove(&k);
        proof {
            assert forall|t: Tile| #[trigger]
                self@.contains_key(t) == old(self)@.remove(*tile).contains_key(t) by {
                lemma_key_round_trip(t);
                lemma_key_round_trip(*tile);
            }
            assert forall|t: Tile| #[trigger] self@.contains_key(t) implies self@[t] == old(
                self,
            )@.remove(*tile)[t] by {
                lemma_key_round_trip(t);
                lemma_key_round_trip(*tile);
            }
            assert(self@ =~= old(self)@.remove(*tile));
        }
        pixels
    }

    /// Hands out what is held for the four children of `parent`, in their
    /// order, and forgets it: each buffer leaves the cache once.
    pub fn take_children(&mut self, parent: &Tile) -> (held: Vec<Option<Vec<u8>>>)
        requires
            parent.can_descend(),
        ensures
            held@.len() == 4,
            crate::raster::child_views(held@) == held_children(old(self)@, *parent),
            final(self)@ == without_children(old(self)@, *parent),
            old(self).wf() ==> final(self).wf(),
    {
        let children = parent.get_children();
        let mut held: Vec<Option<Vec<u8>>> = Vec::new();
        let c0 = self.remove(&children[0]);
        let c1 = self.remove(&children[1]);
        let c2 = self.remove(&children[2]);
        let c3 = self.remove(&children[3]);
        proof {
            assert(children@[0] == parent.child(0));
            assert(children@[1] == parent.child(1));
            assert(children@[2] == parent.child(2));
            assert(children@[3] == parent.child(3));
        }
        held.push(c0);
        held.push(c1);
        held.push(c2);
        held.push(c3);
        proof {
            assert(crate::raster::child_views(held@) =~= held_children(old(self)@, *parent));
        }
        held
    }

    /// Forgets what is held for the four children of `parent`.
    pub fn evict_children(&mut self, parent: &Tile)
        requires
            parent.can_descend(),
        ensures
            final(self)@ == without_children(old(self)@, *parent),
            old(self).wf() ==> final(self).wf(),
    {
        let _ = self.take_children(parent);
    }
}

} // verus!
