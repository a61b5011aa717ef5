//! Batches of sibling tiles: the run of tiles at the top of a stack that
//! share one ancestor, which is the unit that is reprojected in one piece.

use crate::tile::{Tile, MAX_TILE_ZOOM};
use crate::zorder::{in_zorder, lemma_siblings_adjacent};
use vstd::prelude::*;

verus! {

/// `group` is what leaves the stack `before` when the tiles that share the
/// top tile's ancestor `offset` levels up are popped one by one, and `after`
/// is what stays. The group is as long as it can be; a top tile without such
/// an ancestor goes alone.
pub open spec fn group_taken(
    before: Seq<Tile>,
    after: Seq<Tile>,
    group: Seq<Tile>,
    offset: u8,
) -> bool {
    &&& group.len() >= 1
    &&& before.len() == after.len() + group.len()
    &&& after == before.take(after.len() as int)
    &&& forall|i: int| 0 <= i < group.len() ==> group[i] == before[before.len() - 1 - i]
    &&& forall|i: int|
        0 <= i < group.len() ==> (#[trigger] group[i]).ancestor(offset) == group[0].ancestor(
            offset,
        )
    &&& group[0].ancestor(offset) is None ==> group.len() == 1
    &&& group[0].ancestor(offset) is Some && after.len() > 0 ==> after.last().ancestor(offset)
        != group[0].ancestor(offset)
}

/// `groups` left the stack `before` one after the other, each taken from the
/// top as `group_taken` says, and `after` is what stays.
pub open spec fn groups_taken(
    before: Seq<Tile>,
    after: Seq<Tile>,
    groups: Seq<Seq<Tile>>,
    offset: u8,
) -> bool
    decreases groups.len(),
{
    if groups.len() == 0 {
        after == before
    } else {
        let middle = after + groups.last().reverse();
        &&& groups_taken(before, middle, groups.drop_last(), offset)
        &&& group_taken(middle, after, groups.last(), offset)
    }
}

/// The lists that the vectors hold.
pub open spec fn views(groups: Seq<Vec<Tile>>) -> Seq<Seq<Tile>> {
    Seq::new(groups.len(), |i: int| groups[i]@)
}

fn same_tile(a: &Option<Tile>, b: &Option<Tile>) -> (same: bool)
    ensures
        same == (*a == *b),
{
    match (a, b) {
        (None, None) => true,
        (Some(s), Some(t)) => s.zoom == t.zoom && s.x == t.x && s.y == t.y,
        _ => false,
    }
}

/// Pops the top tile and, with it, the tiles below that share its ancestor
/// `zoom_offset` levels up.
pub fn take_group(stack: &mut Vec<Tile>, zoom_offset: u8) -> (group: Vec<Tile>)
    requires
        old(stack)@.len() > 0,
    ensures
        group_taken(old(stack)@, final(stack)@, group@, zoom_offset),
{
    let ghost before = stack@;
    let first = stack.pop().unwrap();
    let key = first.get_ancestor(zoom_offset);
    let mut group: Vec<Tile> = Vec::new();
    group.push(first);
    if key.is_none() {
        return group;
    }
    while stack.len() > 0
        invariant
            before == old(stack)@,
            group@.len() >= 1,
            before.len() == stack@.len() + group@.len(),
            stack@ == before.take(stack@.len() as int),
            forall|i: int| 0 <= i < group@.len() ==> group@[i] == before[before.len() - 1 - i],
            forall|i: int|
                0 <= i < group@.len() ==> (#[trigger] group@[i]).ancestor(zoom_offset) == key,
            key is Some,
        decreases stack@.len(),
    {
        let top = stack[stack.len() - 1];
        let top_key = top.get_ancestor(zoom_offset);
        if !same_tile(&top_key, &key) {
            assert(group@[0].ancestor(zoom_offset) == key);
            assert(stack@.last() == top);
            return group;
        }
        stack.pop();
        group.push(top);
    }
    assert(group@[0].ancestor(zoom_offset) == key);
    group
}

/// Takes up to `workers` groups from the top of the stack, one for each
/// worker to start with; what is left stays on the stack.
pub fn seed_groups(tiles: &mut Vec<Tile>, workers: u16, zoom_offset: u8) -> (groups: Vec<
    Vec<Tile>,
>)
    ensures
        groups_taken(old(tiles)@, final(tiles)@, views(groups@), zoom_offset),
        groups@.len() <= workers,
        groups@.len() < workers ==> final(tiles)@.len() == 0,
{
    let mut groups: Vec<Vec<Tile>> = Vec::new();
    let mut given: u16 = 0;
    assert(views(groups@) =~= Seq::<Seq<Tile>>::empty());
    while given < workers && tiles.len() > 0
        invariant
            groups_taken(old(tiles)@, tiles@, views(groups@), zoom_offset),
            groups@.len() == given,
            given <= workers,
        decreases workers - given,
    {
        let ghost middle = tiles@;
        let ghost so_far = views(groups@);
        let group = take_group(tiles, zoom_offset);
        proof {
            assert(tiles@ + group@.reverse() =~= middle);
            assert(views(groups@.push(group)) =~= so_far.push(group@));
            assert(so_far.push(group@).drop_last() =~= so_far);
        }
        groups.push(group);
        given += 1;
    }
    groups
}

/// The stack holds tiles of the level `zoom` only, in Z-order.
pub open spec fn leaf_stack(tiles: Seq<Tile>, zoom: u8) -> bool {
    &&& in_zorder(tiles)
    &&& forall|i: int| 0 <= i < tiles.len() ==> (#[trigger] tiles[i]).zoom == zoom
}

/// A group taken from a Z-ordered stack of tiles of one level takes every
/// tile of the stack that shares its ancestor: none of them stays behind,
/// so the square of an ancestor is asked for by one group only.
pub proof fn lemma_group_complete(
    before: Seq<Tile>,
    after: Seq<Tile>,
    group: Seq<Tile>,
    offset: u8,
    i: int,
)
    requires
        in_zorder(before),
        forall|a: int, b: int|
            0 <= a < before.len() && 0 <= b < before.len() ==> before[a].zoom == before[b].zoom,
        before.len() > 0 ==> offset <= before[0].zoom,
        offset <= MAX_TILE_ZOOM,
        group_taken(before, after, group, offset),
        0 <= i < after.len(),
    ensures
        after[i].ancestor(offset) != group[0].ancestor(offset),
{
    let top = before.len() - 1;
    let edge = after.len() - 1;
    assert(group[0] == before[top]);
    assert(after[i] == before[i]);
    assert(after.last() == before[edge]);
    assert(before[top].zoom == before[0].zoom);
    if after[i].ancestor(offset) == group[0].ancestor(offset) {
        lemma_siblings_adjacent(before, offset, i, edge, top);
    }
}

/// What stays of a stack after groups were taken is its lower part.
pub proof fn lemma_groups_prefix(
    before: Seq<Tile>,
    after: Seq<Tile>,
    groups: Seq<Seq<Tile>>,
    offset: u8,
)
    requires
        groups_taken(before, after, groups, offset),
    ensures
        after.len() <= before.len(),
        after == before.take(after.len() as int),
    decreases groups.len(),
{
    if groups.len() == 0 {
        assert(before.take(before.len() as int) =~= before);
    } else {
        let middle = after + groups.last().reverse();
        lemma_groups_prefix(before, middle, groups.drop_last(), offset);
        assert(after =~= before.take(after.len() as int));
    }
}

/// Groups taken one after the other from a Z-ordered stack of tiles of one
/// level have ancestors of their own: no two groups share one, and no tile
/// that stays on the stack has the ancestor of a group.
pub proof fn lemma_groups_apart(
    before: Seq<Tile>,
    after: Seq<Tile>,
    groups: Seq<Seq<Tile>>,
    offset: u8,
    zoom: u8,
)
    requires
        leaf_stack(before, zoom),
        offset <= zoom,
        offset <= MAX_TILE_ZOOM,
        groups_taken(before, after, groups, offset),
    ensures
        forall|k: int, i: int|
            0 <= k < groups.len() && 0 <= i < after.len() ==> (#[trigger] after[i]).ancestor(offset)
                != (#[trigger] groups[k])[0].ancestor(offset),
        forall|k: int, m: int|
            0 <= k < m < groups.len() ==> (#[trigger] groups[k])[0].ancestor(offset) != (
            #[trigger] groups[m])[0].ancestor(offset),
    decreases groups.len(),
{
    if groups.len() > 0 {
        let last = groups.last();
        let rest = groups.drop_last();
        let middle = after + last.reverse();
        lemma_groups_apart(before, middle, rest, offset, zoom);
        lemma_groups_prefix(before, middle, rest, offset);
        assert(leaf_stack(middle, zoom)) by {
            assert forall|p: int, q: int| 0 <= p < q < middle.len() implies middle[p].code()
                <= middle[q].code() by {
                assert(middle[p] == before[p] && middle[q] == before[q]);
            }
            assert forall|i: int| 0 <= i < middle.len() implies (#[trigger] middle[i]).zoom
                == zoom by {
                assert(middle[i] == before[i]);
            }
        }
        assert forall|k: int, i: int|
            0 <= k < groups.len() && 0 <= i < after.len() implies (#[trigger] after[i]).ancestor(
            offset,
        ) != (#[trigger] groups[k])[0].ancestor(offset) by {
            if k < rest.len() {
                assert(middle[i] == after[i]);
                assert(rest[k] == groups[k]);
            } else {
                lemma_group_complete(middle, after, last, offset, i);
            }
        }
        assert forall|k: int, m: int| 0 <= k < m < groups.len() implies (#[trigger] groups[k])[0].ancestor(
            offset,
        ) != (#[trigger] groups[m])[0].ancestor(offset) by {
            if m < rest.len() {
                assert(rest[k] == groups[k] && rest[m] == groups[m]);
            } else {
                let top = middle.len() - 1;
                assert(last[0] == middle[top]);
                assert(rest[k] == groups[k]);
            }
        }
    }
}

} // verus!
