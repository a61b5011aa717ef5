//! The scheduler's bookkeeping: which tiles are still to be made, which
//! parents have been released, and which batch is handed out next.

use crate::batch::{group_taken, lemma_group_complete, take_group};
use crate::tile::{Tile, MAX_TILE_ZOOM};
use crate::tile_set::TileSet;
use crate::zorder::in_zorder;
use vstd::prelude::*;

verus! {

/// None of the four children of `parent` is among `pending`.
pub open spec fn children_settled(pending: Set<Tile>, parent: Tile) -> bool {
    forall|i: int| 0 <= i < 4 ==> !pending.contains(#[trigger] parent.child(i))
}

/// `batch` is what is handed out from the stack `before`, and `after` is
/// what stays: nothing from an empty stack; a top tile above the leaves
/// alone; a leaf with the leaves below it that share its ancestor.
pub open spec fn handed_out(
    before: Seq<Tile>,
    after: Seq<Tile>,
    batch: Option<Seq<Tile>>,
    leaf_zoom: u8,
    levels: u8,
) -> bool {
    match batch {
        None => before.len() == 0 && after == before,
        Some(tiles) => {
            &&& before.len() > 0
            &&& if before.last().zoom < leaf_zoom {
                &&& tiles == seq![before.last()]
                &&& after == before.drop_last()
            } else {
                group_taken(before, after, tiles, levels)
            }
        },
    }
}

/// The list that a batch holds, if there is a batch.
pub open spec fn batch_view(batch: Option<Vec<Tile>>) -> Option<Seq<Tile>> {
    match batch {
        Some(tiles) => Some(tiles@),
        None => None,
    }
}

/// What the scheduler knows: the tiles still to be made, the finished
/// ones, the released parents, and the stack of tiles ready to be handed out.
pub struct State {
    pending_set: TileSet,
    processed_set: TileSet,
    waiting_set: TileSet,
    pending_vec: Vec<Tile>,
    max_zoom: u8,
    zoom_offset: u8,
}

impl State {
    /// The tiles that are not finished yet.
    pub closed spec fn pending(&self) -> Set<Tile> {
        self.pending_set@
    }

    /// The tiles that are finished.
    pub closed spec fn finished(&self) -> Set<Tile> {
        self.processed_set@
    }

    /// The parents that have been released and are not finished yet.
    pub closed spec fn waiting(&self) -> Set<Tile> {
        self.waiting_set@
    }

    /// The stack of tiles ready to be handed out; its last tile is the top.
    pub closed spec fn queue(&self) -> Seq<Tile> {
        self.pending_vec@
    }

    /// The zoom of the leaves of the pyramid.
    pub closed spec fn leaf_zoom(&self) -> u8 {
        self.max_zoom
    }

    /// How many levels above the leaves the tiles are grouped.
    pub closed spec fn group_levels(&self) -> u8 {
        self.zoom_offset
    }

    /// No finished tile is pending or waiting.
    pub open spec fn finished_apart(&self) -> bool {
        forall|t: Tile| #[trigger]
            self.finished().contains(t) ==> !self.pending().contains(t) && !self.waiting().contains(
                t,
            )
    }

    /// Every tile on the stack that lies above the leaves has no pending
    /// child: it may be composed as soon as it is handed out.
    pub open spec fn parents_ready(&self) -> bool {
        forall|i: int|
            0 <= i < self.queue().len() && (#[trigger] self.queue()[i]).zoom < self.leaf_zoom()
                ==> children_settled(self.pending(), self.queue()[i])
    }

    /// The stack holds the leaves that no worker has taken yet, in Z-order,
    /// and above them the released parents: nothing on it lies below the
    /// leaves, and whatever lies under a leaf is a leaf with no greater code.
    pub open spec fn leaves_below(&self) -> bool {
        &&& forall|i: int|
            0 <= i < self.queue().len() ==> (#[trigger] self.queue()[i]).zoom <= self.leaf_zoom()
        &&& forall|i: int, j: int|
            0 <= i < j < self.queue().len() && (#[trigger] self.queue()[j]).zoom
                == self.leaf_zoom() ==> (#[trigger] self.queue()[i]).zoom == self.leaf_zoom()
                && self.queue()[i].code() <= self.queue()[j].code()
    }

    /// The parent that finishing `tile` releases, if it releases one: the
    /// parent of `tile`, unless it is waiting or finished already or one of
    /// its children other than `tile` is still pending.
    pub open spec fn released_by(&self, tile: Tile) -> Option<Tile> {
        match tile.parent() {
            Some(parent) => if !self.waiting().contains(parent) && !self.finished().contains(
                parent,
            ) && children_settled(self.pending().remove(tile), parent) {
                Some(parent)
            } else {
                None
            },
            None => None,
        }
    }

    /// The state before any tile is finished: `pending_vec` is the stack of
    /// leaves that no worker has taken yet, `pending_set` holds every tile
    /// that has to be made.
    pub fn new(pending_vec: Vec<Tile>, pending_set: TileSet, max_zoom: u8, zoom_offset: u8) -> (state:
        State)
        ensures
            state.pending() == pending_set@,
            state.queue() == pending_vec@,
            state.finished() == Set::<Tile>::empty(),
            state.waiting() == Set::<Tile>::empty(),
            state.leaf_zoom() == max_zoom,
            state.group_levels() == zoom_offset,
            state.finished_apart(),
            (forall|i: int| 0 <= i < pending_vec@.len() ==> pending_vec@[i].zoom >= max_zoom)
                ==> state.parents_ready(),
            (forall|i: int| 0 <= i < pending_vec@.len() ==> pending_vec@[i].zoom == max_zoom)
                && in_zorder(pending_vec@) ==> state.leaves_below(),
    {
        State {
            pending_set,
            processed_set: TileSet::new(),
            waiting_set: TileSet::new(),
            pending_vec,
            max_zoom,
            zoom_offset,
        }
    }

    /// Records that `tile` is finished, and releases its parent onto the
    /// stack when that was the last child the parent waited for.
    pub fn processed(&mut self, tile: Tile)
        ensures
            final(self).pending() == old(self).pending().remove(tile),
            final(self).finished() == old(self).finished().insert(tile),
            final(self).leaf_zoom() == old(self).leaf_zoom(),
            final(self).group_levels() == old(self).group_levels(),
            match old(self).released_by(tile) {
                Some(parent) => {
                    &&& final(self).queue() == old(self).queue().push(parent)
                    &&& final(self).waiting() == old(self).waiting().remove(tile).insert(parent)
                },
                None => {
                    &&& final(self).queue() == old(self).queue()
                    &&& final(self).waiting() == old(self).waiting().remove(tile)
                },
            },
            old(self).finished_apart() ==> final(self).finished_apart(),
            old(self).parents_ready() ==> final(self).parents_ready(),
            old(self).leaves_below() && tile.zoom <= old(self).leaf_zoom() ==> final(self).leaves_below(),
    {
        self.pending_set.remove(&tile);
        self.waiting_set.remove(&tile);
        self.processed_set.insert(tile);
        proof {
            if old(self).finished_apart() {
                assert forall|t: Tile| #[trigger] self.finished().contains(t) implies !self.pending().contains(
                    t,
                ) && !self.waiting().contains(t) by {
                    if t != tile {
                        assert(old(self).finished().contains(t));
                    }
                }
            }
            if old(self).parents_ready() {
                assert forall|i: int|
                    0 <= i < self.queue().len() && (#[trigger] self.queue()[i]).zoom
                        < self.leaf_zoom() implies children_settled(
                    self.pending(),
                    self.queue()[i],
                ) by {
                    assert(children_settled(old(self).pending(), old(self).queue()[i]));
                }
            }
        }
        let parent = match tile.get_parent() {
            Some(parent) => parent,
            None => {
                return ;
            },
        };
        if self.waiting_set.contains(&parent) || self.processed_set.contains(&parent) {
            return ;
        }
        proof {
            tile.lemma_parent_child();
        }
        let children = parent.get_children();
        let mut settled = true;
        for i in 0..4usize
            invariant
                children@ == parent.children(),
                settled == forall|j: int|
                    0 <= j < i ==> !self.pending_set@.contains(#[trigger] parent.child(j)),
        {
            if self.pending_set.contains(&children[i]) {
                assert(children@[i as int] == parent.child(i as int));
                settled = false;
            }
        }
        if settled {
            let ghost stack = self.pending_vec@;
            self.pending_vec.push(parent);
            self.waiting_set.insert(parent);
            proof {
                if old(self).leaves_below() && tile.zoom <= old(self).leaf_zoom() {
                    assert forall|i: int| 0 <= i < self.queue().len() implies (
                    #[trigger] self.queue()[i]).zoom <= self.leaf_zoom() by {
                        if i < stack.len() {
                            assert(self.queue()[i] == stack[i]);
                        }
                    }
                    assert forall|i: int, j: int|
                        0 <= i < j < self.queue().len() && (#[trigger] self.queue()[j]).zoom
                            == self.leaf_zoom() implies (#[trigger] self.queue()[i]).zoom
                        == self.leaf_zoom() && self.queue()[i].code()
                        <= self.queue()[j].code() by {
                        assert(j < stack.len());
                        assert(self.queue()[i] == stack[i] && self.queue()[j] == stack[j]);
                    }
                }
                if old(self).parents_ready() {
                    assert forall|i: int|
                        0 <= i < self.queue().len() && (#[trigger] self.queue()[i]).zoom
                            < self.leaf_zoom() implies children_settled(
                        self.pending(),
                        self.queue()[i],
                    ) by {
                        if i < stack.len() {
                            assert(self.queue()[i] == stack[i]);
                        }
                    }
                }
            }
        }
    }

    /// The stack as finishing `tile` leaves it: with the released parent on
    /// top, if one is released.
    pub open spec fn queue_after(&self, tile: Tile) -> Seq<Tile> {
        match self.released_by(tile) {
            Some(parent) => self.queue().push(parent),
            None => self.queue(),
        }
    }

    /// Records that `tile` is finished and, when it was the last tile of
    /// its task, hands out the next batch.
    pub fn complete(&mut self, tile: Tile, last: bool) -> (batch: Option<Vec<Tile>>)
        ensures
            final(self).pending() == old(self).pending().remove(tile),
            final(self).finished() == old(self).finished().insert(tile),
            final(self).waiting() == match old(self).released_by(tile) {
                Some(parent) => old(self).waiting().remove(tile).insert(parent),
                None => old(self).waiting().remove(tile),
            },
            final(self).leaf_zoom() == old(self).leaf_zoom(),
            final(self).group_levels() == old(self).group_levels(),
            last ==> handed_out(
                old(self).queue_after(tile),
                final(self).queue(),
                batch_view(batch),
                old(self).leaf_zoom(),
                old(self).group_levels(),
            ),
            !last ==> batch is None && final(self).queue() == old(self).queue_after(tile),
            old(self).finished_apart() ==> final(self).finished_apart(),
            old(self).parents_ready() ==> final(self).parents_ready(),
            old(self).parents_ready() ==> match batch {
                Some(tiles) => forall|i: int|
                    0 <= i < tiles@.len() && (#[trigger] tiles@[i]).zoom < old(self).leaf_zoom()
                        ==> children_settled(final(self).pending(), tiles@[i]),
                None => true,
            },
            old(self).leaves_below() && tile.zoom <= old(self).leaf_zoom() ==> final(self).leaves_below(),
            old(self).leaves_below() && tile.zoom <= old(self).leaf_zoom() && old(self).group_levels() <= old(self).leaf_zoom() <= MAX_TILE_ZOOM ==> match batch {
                Some(tiles) => forall|i: int|
                    0 <= i < final(self).queue().len() ==> (#[trigger] final(self).queue()[i]).ancestor(old(self).group_levels()) != tiles@[0].ancestor(
                        old(self).group_levels(),
                    ) || tiles@[0].zoom < old(self).leaf_zoom(),
                None => true,
            },
    {
        self.processed(tile);
        if last {
            self.next()
        } else {
            None
        }
    }

    /// Hands out the next batch from the top of the stack: a tile above the
    /// leaves goes alone, a leaf goes with the leaves below it that share
    /// its ancestor. `None` when the stack is empty.
    pub fn next(&mut self) -> (batch: Option<Vec<Tile>>)
        ensures
            final(self).pending() == old(self).pending(),
            final(self).finished() == old(self).finished(),
            final(self).waiting() == old(self).waiting(),
            final(self).leaf_zoom() == old(self).leaf_zoom(),
            final(self).group_levels() == old(self).group_levels(),
            handed_out(
                old(self).queue(),
                final(self).queue(),
                batch_view(batch),
                old(self).leaf_zoom(),
                old(self).group_levels(),
            ),
            old(self).parents_ready() ==> final(self).parents_ready(),
            old(self).parents_ready() ==> match batch {
                Some(tiles) => forall|i: int|
                    0 <= i < tiles@.len() && (#[trigger] tiles@[i]).zoom < old(self).leaf_zoom()
                        ==> children_settled(old(self).pending(), tiles@[i]),
                None => true,
            },
            old(self).leaves_below() ==> final(self).leaves_below(),
            old(self).leaves_below() && old(self).group_levels() <= old(self).leaf_zoom()
                <= MAX_TILE_ZOOM ==> match batch {
                Some(tiles) => forall|i: int|
                    0 <= i < final(self).queue().len() ==> (#[trigger] final(self).queue()[i]).ancestor(old(self).group_levels()) != tiles@[0].ancestor(
                        old(self).group_levels(),
                    ) || tiles@[0].zoom < old(self).leaf_zoom(),
                None => true,
            },
    {
        let n = self.pending_vec.len();
        if n == 0 {
            return None;
        }
        let top = self.pending_vec[n - 1];
        if top.zoom < self.max_zoom {
            self.pending_vec.pop();
            let mut tiles: Vec<Tile> = Vec::with_capacity(1);
            tiles.push(top);
            proof {
                assert(tiles@ =~= seq![old(self).queue().last()]);
                assert(self.queue() =~= old(self).queue().drop_last());
            }
            return Some(tiles);
        }
        let tiles = take_group(&mut self.pending_vec, self.zoom_offset);
        proof {
            let before = old(self).queue();
            let after = self.queue();
            assert forall|i: int| 0 <= i < after.len() implies after[i] == before[i] by {}
            if old(self).leaves_below() {
                assert(before[n - 1].zoom == self.leaf_zoom());
                assert forall|a: int, b: int|
                    0 <= a < before.len() && 0 <= b < before.len() implies before[a].zoom
                    == before[b].zoom by {
                    if a < n - 1 {
                        assert(before[a].zoom == self.leaf_zoom());
                    }
                    if b < n - 1 {
                        assert(before[b].zoom == self.leaf_zoom());
                    }
                }
                assert(in_zorder(before)) by {
                    assert forall|a: int, b: int| 0 <= a < b < before.len() implies before[a].code()
                        <= before[b].code() by {
                        if b < n - 1 {
                            assert(before[b].zoom == self.leaf_zoom());
                        }
                    }
                }
                if self.group_levels() <= self.leaf_zoom() && self.leaf_zoom() <= MAX_TILE_ZOOM {
                    assert forall|i: int| 0 <= i < after.len() implies (#[trigger] after[i]).ancestor(
                        self.group_levels(),
                    ) != tiles@[0].ancestor(self.group_levels()) by {
                        assert(before[0].zoom == self.leaf_zoom());
                        lemma_group_complete(before, after, tiles@, self.group_levels(), i);
                    }
                }
            }
        }
        Some(tiles)
    }
}

} // verus!
