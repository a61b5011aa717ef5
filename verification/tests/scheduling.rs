use tile_pyramid::batch::{seed_groups, take_group};
use tile_pyramid::coverage::pending_tiles;
use tile_pyramid::state::State;
use tile_pyramid::tile::Tile;
use tile_pyramid::tile_set::TileSet;

fn tile(zoom: u8, x: u32, y: u32) -> Tile {
    Tile { zoom, x, y }
}

fn sorted_level(zoom: u8, side: u32) -> Vec<Tile> {
    let mut tiles: Vec<Tile> = (0..side)
        .flat_map(|y| (0..side).map(move |x| tile(zoom, x, y)))
        .collect();
    Tile::sort_by_zorder(&mut tiles);
    tiles
}

#[test]
fn tile_set_insert_remove_contains() {
    let mut set = TileSet::new();
    assert_eq!(set.len(), 0);
    assert!(set.insert(tile(3, 1, 2)));
    assert!(!set.insert(tile(3, 1, 2)));
    assert!(set.insert(tile(4, 1, 2)));
    assert!(set.insert(tile(3, 2, 1)));
    assert_eq!(set.len(), 3);
    assert!(set.contains(&tile(3, 1, 2)));
    assert!(!set.contains(&tile(3, 2, 2)));
    assert!(set.remove(&tile(3, 1, 2)));
    assert!(!set.remove(&tile(3, 1, 2)));
    assert!(!set.contains(&tile(3, 1, 2)));
    assert_eq!(set.len(), 2);
}

#[test]
fn tile_set_tells_extreme_tiles_apart() {
    let mut set = TileSet::new();
    set.insert(tile(255, u32::MAX, u32::MAX));
    set.insert(tile(0, 0, 1));
    assert!(set.contains(&tile(255, u32::MAX, u32::MAX)));
    assert!(!set.contains(&tile(255, u32::MAX, u32::MAX - 1)));
    assert!(!set.contains(&tile(0, 1, 0)));
    assert!(!set.contains(&tile(1, 0, 0)));
}

#[test]
fn group_takes_the_siblings_at_the_top() {
    let mut stack = sorted_level(2, 4);
    let group = take_group(&mut stack, 1);
    assert_eq!(
        group,
        vec![tile(2, 3, 3), tile(2, 2, 3), tile(2, 3, 2), tile(2, 2, 2)]
    );
    assert_eq!(stack.len(), 12);
    assert_eq!(stack.last(), Some(&tile(2, 1, 3)));
}

#[test]
fn group_stops_at_another_ancestor() {
    let mut stack = vec![tile(2, 0, 0), tile(2, 2, 2), tile(2, 3, 3)];
    let group = take_group(&mut stack, 1);
    assert_eq!(group, vec![tile(2, 3, 3), tile(2, 2, 2)]);
    assert_eq!(stack, vec![tile(2, 0, 0)]);
}

#[test]
fn group_without_ancestor_is_one_tile() {
    let mut stack = vec![tile(2, 0, 0), tile(2, 1, 1)];
    let group = take_group(&mut stack, 3);
    assert_eq!(group, vec![tile(2, 1, 1)]);
    assert_eq!(stack, vec![tile(2, 0, 0)]);
}

#[test]
fn group_with_offset_zero_takes_equal_tiles() {
    let mut stack = vec![tile(2, 0, 0), tile(2, 1, 1), tile(2, 1, 1)];
    let group = take_group(&mut stack, 0);
    assert_eq!(group, vec![tile(2, 1, 1), tile(2, 1, 1)]);
    assert_eq!(stack, vec![tile(2, 0, 0)]);
}

#[test]
fn seed_gives_each_worker_one_group() {
    let mut stack = sorted_level(2, 4);
    let groups = seed_groups(&mut stack, 3, 1);
    assert_eq!(groups.len(), 3);
    assert_eq!(
        groups[0],
        vec![tile(2, 3, 3), tile(2, 2, 3), tile(2, 3, 2), tile(2, 2, 2)]
    );
    assert_eq!(
        groups[1],
        vec![tile(2, 1, 3), tile(2, 0, 3), tile(2, 1, 2), tile(2, 0, 2)]
    );
    assert_eq!(
        groups[2],
        vec![tile(2, 3, 1), tile(2, 2, 1), tile(2, 3, 0), tile(2, 2, 0)]
    );
    assert_eq!(stack, sorted_level(2, 4)[..4].to_vec());
}

#[test]
fn seed_with_more_workers_than_groups_empties_the_stack() {
    let mut stack = sorted_level(2, 4);
    let groups = seed_groups(&mut stack, 16, 1);
    assert_eq!(groups.len(), 4);
    assert!(stack.is_empty());
    let total: usize = groups.iter().map(|g| g.len()).sum();
    assert_eq!(total, 16);
}

#[test]
fn seed_without_workers_or_tiles_gives_nothing() {
    let mut stack = sorted_level(1, 2);
    assert!(seed_groups(&mut stack, 0, 1).is_empty());
    assert_eq!(stack.len(), 4);
    let mut none: Vec<Tile> = vec![];
    assert!(seed_groups(&mut none, 4, 1).is_empty());
}

#[test]
fn next_on_empty_stack_is_none() {
    let mut state = State::new(vec![], TileSet::new(), 2, 1);
    assert_eq!(state.next(), None);
}

#[test]
fn next_hands_out_leaves_in_groups() {
    let leaves = sorted_level(2, 4);
    let pending = pending_tiles(&leaves);
    let mut state = State::new(leaves, pending, 2, 1);
    let first = state.next().unwrap();
    assert_eq!(
        first,
        vec![tile(2, 3, 3), tile(2, 2, 3), tile(2, 3, 2), tile(2, 2, 2)]
    );
    let second = state.next().unwrap();
    assert_eq!(second.len(), 4);
    assert_eq!(second[0], tile(2, 1, 3));
}

#[test]
fn parent_is_released_by_its_last_child_only() {
    let leaves = sorted_level(1, 2);
    let pending = pending_tiles(&leaves);
    let mut state = State::new(leaves, pending, 1, 0);
    let mut handed = vec![];
    while let Some(batch) = state.next() {
        assert_eq!(batch.len(), 1);
        handed.push(batch[0]);
    }
    assert_eq!(handed.len(), 4);
    state.processed(handed[0]);
    assert_eq!(state.next(), None);
    state.processed(handed[1]);
    assert_eq!(state.next(), None);
    state.processed(handed[2]);
    assert_eq!(state.next(), None);
    state.processed(handed[3]);
    assert_eq!(state.next(), Some(vec![tile(0, 0, 0)]));
    assert_eq!(state.next(), None);
    state.processed(tile(0, 0, 0));
    assert_eq!(state.next(), None);
}

#[test]
fn parent_is_released_once() {
    let leaves = vec![tile(1, 0, 0)];
    let pending = pending_tiles(&leaves);
    let mut state = State::new(leaves, pending, 1, 0);
    let batch = state.next().unwrap();
    assert_eq!(batch, vec![tile(1, 0, 0)]);
    state.processed(tile(1, 0, 0));
    state.processed(tile(1, 0, 0));
    assert_eq!(state.next(), Some(vec![tile(0, 0, 0)]));
    assert_eq!(state.next(), None);
}

#[test]
fn parent_above_the_leaves_goes_alone_and_first() {
    let leaves = sorted_level(2, 4);
    let pending = pending_tiles(&leaves);
    let mut state = State::new(leaves, pending, 2, 1);
    let first = state.next().unwrap();
    for t in &first {
        state.processed(*t);
    }
    assert_eq!(state.next(), Some(vec![tile(1, 1, 1)]));
    let leaves_again = state.next().unwrap();
    assert_eq!(leaves_again.len(), 4);
    assert!(leaves_again.iter().all(|t| t.zoom == 2));
}

#[test]
fn whole_pyramid_is_handed_out_parents_after_children() {
    let leaves = sorted_level(3, 8);
    let pending = pending_tiles(&leaves);
    let total = pending.len();
    let mut state = State::new(leaves, pending, 3, 2);
    let mut done: Vec<Tile> = vec![];
    while let Some(batch) = state.next() {
        for t in batch {
            if t.zoom < 3 {
                for c in t.get_children() {
                    assert!(done.contains(&c));
                }
            }
            assert!(!done.contains(&t));
            done.push(t);
            state.processed(t);
        }
    }
    assert_eq!(done.len(), total);
    assert_eq!(done.len(), 64 + 16 + 4 + 1);
    assert_eq!(done.last(), Some(&tile(0, 0, 0)));
}

#[test]
fn completing_the_last_tile_of_a_task_hands_out_the_next() {
    let leaves = sorted_level(1, 2);
    let pending = pending_tiles(&leaves);
    let mut state = State::new(leaves, pending, 1, 0);
    let first = state.next().unwrap();
    assert_eq!(first, vec![tile(1, 1, 1)]);
    assert_eq!(state.complete(tile(1, 1, 1), false), None);
    assert_eq!(state.complete(tile(1, 0, 1), true), Some(vec![tile(1, 0, 1)]));
    assert_eq!(state.complete(tile(1, 0, 1), true), Some(vec![tile(1, 1, 0)]));
    assert_eq!(state.complete(tile(1, 1, 0), true), Some(vec![tile(1, 0, 0)]));
    assert_eq!(state.complete(tile(1, 0, 0), true), Some(vec![tile(0, 0, 0)]));
    assert_eq!(state.complete(tile(0, 0, 0), true), None);
}
