use tile_pyramid::coverage::{pending_tiles, TileIterator};
use tile_pyramid::tile::Tile;

fn tile(zoom: u8, x: u32, y: u32) -> Tile {
    Tile { zoom, x, y }
}

fn collect(mut walk: TileIterator) -> Vec<Tile> {
    let mut out = vec![];
    while let Some(t) = walk.next() {
        out.push(t);
    }
    assert_eq!(walk.next(), None);
    out
}

#[test]
fn walk_goes_row_by_row() {
    let tiles = collect(TileIterator::new(3, 1, 2, 2, 4));
    assert_eq!(
        tiles,
        vec![
            tile(3, 1, 2),
            tile(3, 2, 2),
            tile(3, 1, 3),
            tile(3, 2, 3),
            tile(3, 1, 4),
            tile(3, 2, 4),
        ]
    );
}

#[test]
fn walk_matches_tilemath() {
    let ours = collect(TileIterator::new(7, 67, 69, 43, 44));
    let theirs: Vec<(u8, u32, u32)> = tilemath::TileIterator::new(7, 67..=69, 43..=44)
        .map(|t| (t.zoom, t.x, t.y))
        .collect();
    let ours: Vec<(u8, u32, u32)> = ours.iter().map(|t| (t.zoom, t.x, t.y)).collect();
    assert_eq!(ours, theirs);
}

#[test]
fn walk_of_one_tile() {
    assert_eq!(collect(TileIterator::new(0, 0, 0, 0, 0)), vec![tile(0, 0, 0)]);
}

#[test]
fn walk_of_empty_range_is_empty() {
    assert!(collect(TileIterator::new(4, 3, 2, 0, 5)).is_empty());
    assert!(collect(TileIterator::new(4, 0, 5, 3, 2)).is_empty());
}

#[test]
fn walk_reaches_the_last_column_and_row() {
    let tiles = collect(TileIterator::new(31, u32::MAX - 1, u32::MAX, u32::MAX - 1, u32::MAX));
    assert_eq!(
        tiles,
        vec![
            tile(31, u32::MAX - 1, u32::MAX - 1),
            tile(31, u32::MAX, u32::MAX - 1),
            tile(31, u32::MAX - 1, u32::MAX),
            tile(31, u32::MAX, u32::MAX),
        ]
    );
}

#[test]
fn pending_holds_leaves_and_all_ancestors() {
    let leaves = collect(TileIterator::new(2, 1, 2, 1, 3));
    let set = pending_tiles(&leaves);
    let expect = vec![
        tile(2, 1, 1),
        tile(1, 0, 0),
        tile(0, 0, 0),
        tile(2, 2, 1),
        tile(1, 1, 0),
        tile(2, 1, 2),
        tile(1, 0, 1),
        tile(2, 2, 2),
        tile(1, 1, 1),
        tile(2, 1, 3),
        tile(2, 2, 3),
    ];
    assert_eq!(set.len(), expect.len());
    for t in &expect {
        assert!(set.contains(t));
    }
    assert!(!set.contains(&tile(2, 0, 0)));
    assert!(!set.contains(&tile(3, 2, 2)));
}

#[test]
fn pending_of_one_leaf_is_its_chain() {
    let set = pending_tiles(&vec![tile(2, 3, 1)]);
    assert_eq!(set.len(), 3);
    assert!(set.contains(&tile(2, 3, 1)));
    assert!(set.contains(&tile(1, 1, 0)));
    assert!(set.contains(&tile(0, 0, 0)));
}

#[test]
fn pending_of_nothing_is_empty() {
    let set = pending_tiles(&vec![]);
    assert_eq!(set.len(), 0);
    assert!(!set.contains(&tile(0, 0, 0)));
}

#[test]
fn pending_counts_a_repeated_leaf_once() {
    let set = pending_tiles(&vec![tile(1, 0, 0), tile(1, 0, 0), tile(1, 1, 1)]);
    assert_eq!(set.len(), 3);
}
