//! The extent of what was produced: for each zoom, the smallest and the
//! largest column and archive row among the tiles that have an image.

use std::collections::HashMap;
use vstd::prelude::*;

verus! {

broadcast use vstd::std_specs::hash::group_hash_axioms;

/// A rectangle of columns and rows, borders included.
#[derive(Debug, Clone, Copy, PartialEq, Eq, Structural)]
pub struct Limits {
    pub min_x: u32,
    pub max_x: u32,
    pub min_y: u32,
    pub max_y: u32,
}

impl Limits {
    /// Column `x`, row `y` lies in the rectangle.
    pub open spec fn covers(self, x: u32, y: u32) -> bool {
        self.min_x <= x <= self.max_x && self.min_y <= y <= self.max_y
    }

    /// The rectangle that holds one position and nothing else.
    pub open spec fn point(x: u32, y: u32) -> Limits {
        Limits { min_x: x, max_x: x, min_y: y, max_y: y }
    }

    /// The smallest rectangle that holds this one and the position.
    pub open spec fn stretched(self, x: u32, y: u32) -> Limits {
        Limits {
            min_x: if x < self.min_x {
                x
            } else {
                self.min_x
            },
            max_x: if x > self.max_x {
                x
            } else {
                self.max_x
            },
            min_y: if y < self.min_y {
                y
            } else {
                self.min_y
            },
            max_y: if y > self.max_y {
                y
            } else {
                self.max_y
            },
        }
    }

    /// The limits that hold one position.
    pub fn at(x: u32, y: u32) -> (limits: Limits)
        ensures
            limits == Limits::point(x, y),
    {
        Limits { min_x: x, max_x: x, min_y: y, max_y: y }
    }

    /// The limits widened to hold the position too.
    pub fn stretch(self, x: u32, y: u32) -> (limits: Limits)
        ensures
            limits == self.stretched(x, y),
    {
        Limits {
            min_x: if x < self.min_x {
                x
            } else {
                self.min_x
            },
            max_x: if x > self.max_x {
                x
            } else {
                self.max_x
            },
            min_y: if y < self.min_y {
                y
            } else {
                self.min_y
            },
            max_y: if y > self.max_y {
                y
            } else {
                self.max_y
            },
        }
    }
}

/// The limits after one more position at `zoom`: widened to hold it, or
/// made by it where the zoom had none.
pub open spec fn with_position(limits: Map<u8, Limits>, zoom: u8, x: u32, y: u32) -> Map<
    u8,
    Limits,
> {
    limits.insert(
        zoom,
        if limits.contains_key(zoom) {
            limits[zoom].stretched(x, y)
        } else {
            Limits::point(x, y)
        },
    )
}

/// The limits after the positions (zoom, column, row) were recorded one
/// after the other, starting from none.
pub open spec fn recorded(positions: Seq<(u8, u32, u32)>) -> Map<u8, Limits>
    decreases positions.len(),
{
    if positions.len() == 0 {
        Map::empty()
    } else {
        with_position(
            recorded(positions.drop_last()),
            positions.last().0,
            positions.last().1,
            positions.last().2,
        )
    }
}

/// After any run of recordings a zoom has limits exactly if a position was
/// recorded there, and its limits are the smallest and the largest column
/// and row among the positions of that zoom: each bound holds every such
/// position and is reached by one of them.
pub proof fn lemma_recorded_limits(positions: Seq<(u8, u32, u32)>, zoom: u8)
    ensures
        recorded(positions).contains_key(zoom) <==> exists|i: int|
            0 <= i < positions.len() && (#[trigger] positions[i]).0 == zoom,
        recorded(positions).contains_key(zoom) ==> {
            let l = recorded(positions)[zoom];
            &&& forall|i: int|
                0 <= i < positions.len() && (#[trigger] positions[i]).0 == zoom ==> l.covers(
                    positions[i].1,
                    positions[i].2,
                )
            &&& exists|i: int|
                0 <= i < positions.len() && (#[trigger] positions[i]).0 == zoom && positions[i].1
                    == l.min_x
            &&& exists|i: int|
                0 <= i < positions.len() && (#[trigger] positions[i]).0 == zoom && positions[i].1
                    == l.max_x
            &&& exists|i: int|
                0 <= i < positions.len() && (#[trigger] positions[i]).0 == zoom && positions[i].2
                    == l.min_y
            &&& exists|i: int|
                0 <= i < positions.len() && (#[trigger] positions[i]).0 == zoom && positions[i].2
                    == l.max_y
        },
    decreases positions.len(),
{
    if positions.len() > 0 {
        let front = positions.drop_last();
        let last = positions.last();
        let n = positions.len() - 1;
        lemma_recorded_limits(front, zoom);
        assert forall|i: int| 0 <= i < front.len() implies front[i] == positions[i] by {}
        assert(positions[n] == last);
        if last.0 == zoom {
            let l = recorded(positions)[zoom];
            if recorded(front).contains_key(zoom) {
                let before = recorded(front)[zoom];
                let a = choose|i: int|
                    0 <= i < front.len() && (#[trigger] front[i]).0 == zoom && front[i].1
                        == before.min_x;
                let b = choose|i: int|
                    0 <= i < front.len() && (#[trigger] front[i]).0 == zoom && front[i].1
                        == before.max_x;
                let c = choose|i: int|
                    0 <= i < front.len() && (#[trigger] front[i]).0 == zoom && front[i].2
                        == before.min_y;
                let d = choose|i: int|
                    0 <= i < front.len() && (#[trigger] front[i]).0 == zoom && front[i].2
                        == before.max_y;
                assert(positions[a].0 == zoom && positions[b].0 == zoom && positions[c].0 == zoom
                    && positions[d].0 == zoom);
                assert(positions[if last.1 < before.min_x { n } else { a }].1 == l.min_x);
                assert(positions[if last.1 > before.max_x { n } else { b }].1 == l.max_x);
                assert(positions[if last.2 < before.min_y { n } else { c }].2 == l.min_y);
                assert(positions[if last.2 > before.max_y { n } else { d }].2 == l.max_y);
                assert forall|i: int|
                    0 <= i < positions.len() && (#[trigger] positions[i]).0 == zoom implies l.covers(
                    positions[i].1,
                    positions[i].2,
                ) by {
                    if i < n {
                        assert(front[i].0 == zoom);
                        assert(before.covers(front[i].1, front[i].2));
                    }
                }
            } else {
                assert forall|i: int|
                    0 <= i < positions.len() && (#[trigger] positions[i]).0 == zoom implies l.covers(
                    positions[i].1,
                    positions[i].2,
                ) by {
                    if i < n {
                        assert(front[i].0 == zoom);
                    }
                }
            }
        } else {
            if recorded(positions).contains_key(zoom) {
                let l = recorded(front)[zoom];
                let a = choose|i: int|
                    0 <= i < front.len() && (#[trigger] front[i]).0 == zoom && front[i].1
                        == l.min_x;
                let b = choose|i: int|
                    0 <= i < front.len() && (#[trigger] front[i]).0 == zoom && front[i].1
                        == l.max_x;
                let c = choose|i: int|
                    0 <= i < front.len() && (#[trigger] front[i]).0 == zoom && front[i].2
                        == l.min_y;
                let d = choose|i: int|
                    0 <= i < front.len() && (#[trigger] front[i]).0 == zoom && front[i].2
                        == l.max_y;
                assert(positions[a].0 == zoom && positions[a].1 == l.min_x);
                assert(positions[b].0 == zoom && positions[b].1 == l.max_x);
                assert(positions[c].0 == zoom && positions[c].2 == l.min_y);
                assert(positions[d].0 == zoom && positions[d].2 == l.max_y);
                assert forall|i: int|
                    0 <= i < positions.len() && (#[trigger] positions[i]).0 == zoom implies l.covers(
                    positions[i].1,
                    positions[i].2,
                ) by {
                    assert(i < n);
                    assert(front[i].0 == zoom);
                }
            }
            if exists|i: int| 0 <= i < positions.len() && (#[trigger] positions[i]).0 == zoom {
                let i = choose|i: int|
                    0 <= i < positions.len() && (#[trigger] positions[i]).0 == zoom;
                assert(i < n);
                assert(front[i].0 == zoom);
            }
        }
    }
}

/// The limits of each zoom at which a tile was produced.
pub struct Extents {
    by_zoom: HashMap<u8, Limits>,
}

impl View for Extents {
    type V = Map<u8, Limits>;

    closed spec fn view(&self) -> Map<u8, Limits> {
        self.by_zoom@
    }
}

impl Extents {
    /// The limits of `zoom` hold column `x`, row `y`.
    pub open spec fn covers(&self, zoom: u8, x: u32, y: u32) -> bool {
        self@.contains_key(zoom) && self@[zoom].covers(x, y)
    }

    /// No zoom has limits yet.
    pub fn new() -> (extents: Extents)
        ensures
            extents@ == Map::<u8, Limits>::empty(),
    {
        Extents { by_zoom: HashMap::new() }
    }

    /// Widens the limits of `zoom` so that they hold column `x`, row `y`;
    /// the first position of a zoom makes its limits.
    pub fn record(&mut self, zoom: u8, x: u32, y: u32)
        ensures
            final(self)@ == with_position(old(self)@, zoom, x, y),
            final(self).covers(zoom, x, y),
            forall|z: u8, cx: u32, cy: u32|
                old(self).covers(z, cx, cy) ==> #[trigger] final(self).covers(z, cx, cy),
    {
        let limits = match self.by_zoom.get(&zoom) {
            Some(limits) => limits.stretch(x, y),
            None => Limits::at(x, y),
        };
        self.by_zoom.insert(zoom, limits);
    }

    /// The limits of `zoom`, if a tile was produced there.
    pub fn get(&self, zoom: u8) -> (limits: Option<Limits>)
        ensures
            limits == if self@.contains_key(zoom) {
                Some(self@[zoom])
            } else {
                None::<Limits>
            },
    {
        match self.by_zoom.get(&zoom) {
            Some(limits) => Some(*limits),
            None => None,
        }
    }

    /// The zooms that have limits, from the root down, each with its limits.
    pub fn entries(&self) -> (list: Vec<(u8, Limits)>)
        ensures
            forall|i: int|
                0 <= i < list@.len() ==> self@.contains_key((#[trigger] list@[i]).0) && self@[list@[i].0]
                    == list@[i].1,
            forall|i: int, j: int| 0 <= i < j < list@.len() ==> list@[i].0 < list@[j].0,
            forall|z: u8|
                self@.contains_key(z) ==> exists|i: int|
                    0 <= i < list@.len() && (#[trigger] list@[i]).0 == z,
    {
        let mut list: Vec<(u8, Limits)> = Vec::new();
        let mut next: u16 = 0;
        while next <= 255
            invariant
                next <= 256,
                forall|i: int|
                    0 <= i < list@.len() ==> self@.contains_key((#[trigger] list@[i]).0)
                        && self@[list@[i].0] == list@[i].1,
                forall|i: int, j: int| 0 <= i < j < list@.len() ==> list@[i].0 < list@[j].0,
                forall|i: int| 0 <= i < list@.len() ==> (#[trigger] list@[i]).0 < next,
                forall|z: u8|
                    z < next && self@.contains_key(z) ==> exists|i: int|
                        0 <= i < list@.len() && (#[trigger] list@[i]).0 == z,
            decreases 256 - next,
        {
            let zoom = next as u8;
            let ghost before = list@;
            let found = self.get(zoom);
            if let Some(limits) = found {
                list.push((zoom, limits));
                proof {
                    assert(list@[before.len() as int].0 == zoom);
                }
            }
            proof {
                assert forall|z: u8| z <= zoom && self@.contains_key(z) implies exists|i: int|
                    0 <= i < list@.len() && (#[trigger] list@[i]).0 == z by {
                    if z < zoom {
                        let i = choose|i: int|
                            0 <= i < before.len() && (#[trigger] before[i]).0 == z;
                        assert(list@[i].0 == z);
                    } else {
                        assert(list@[before.len() as int].0 == z);
                    }
                }
            }
            next += 1;
        }
        list
    }
}

} // verus!
