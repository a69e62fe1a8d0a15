//! Grid coordinates of the 27 slots.
//!
//! A slot index `0..27` and a position `(x, y, z)` with every coordinate in
//! `{-1, 0, 1}` name the same place; the functions here convert between the two
//! and turn a position a quarter of the way round an axis.

use vstd::prelude::*;

verus! {

/// A place in the grid as a triple of mathematical integers.
pub type Coords = (int, int, int);

/// The coordinate of `p` along `axis` (0, 1 or 2).
pub open spec fn axis_coord(p: Coords, axis: int) -> int {
    if axis == 0 {
        p.0
    } else if axis == 1 {
        p.1
    } else {
        p.2
    }
}

/// `p` with its coordinate along `axis` replaced by `v`.
pub open spec fn with_coord(p: Coords, axis: int, v: int) -> Coords {
    if axis == 0 {
        (v, p.1, p.2)
    } else if axis == 1 {
        (p.0, v, p.2)
    } else {
        (p.0, p.1, v)
    }
}

/// Every coordinate lies in `{-1, 0, 1}`.
pub open spec fn in_grid(p: Coords) -> bool {
    &&& -1 <= p.0 <= 1
    &&& -1 <= p.1 <= 1
    &&& -1 <= p.2 <= 1
}

/// The position of slot `slot`.
pub open spec fn slot_position(slot: int) -> Coords {
    (slot / 9 - 1, (slot / 3) % 3 - 1, slot % 3 - 1)
}

/// The slot at position `p`.
pub open spec fn position_slot(p: Coords) -> int {
    (p.0 + 1) * 9 + (p.1 + 1) * 3 + (p.2 + 1)
}

/// `fixed`, `a` and `b` are the three axes, each once.
pub open spec fn axes_distinct(fixed: int, a: int, b: int) -> bool {
    &&& 0 <= fixed < 3
    &&& 0 <= a < 3
    &&& 0 <= b < 3
    &&& fixed != a
    &&& fixed != b
    &&& a != b
}

/// Where a quarter turn of the layer `layer` about `fixed` sends `p`: inside the
/// layer the coordinate on `a` becomes the negated coordinate on `b` and the
/// coordinate on `b` becomes the coordinate on `a`; outside it nothing moves.
pub open spec fn turned(p: Coords, fixed: int, a: int, b: int, layer: int) -> Coords {
    if axis_coord(p, fixed) == layer {
        with_coord(with_coord(p, a, -axis_coord(p, b)), b, axis_coord(p, a))
    } else {
        p
    }
}

/// Slots and grid positions correspond one to one.
pub proof fn lemma_slot_position_bijection()
    ensures
        forall|slot: int|
            0 <= slot < 27 ==> in_grid(#[trigger] slot_position(slot)) && position_slot(
                slot_position(slot),
            ) == slot,
        forall|p: Coords|
            in_grid(p) ==> 0 <= #[trigger] position_slot(p) < 27 && slot_position(
                position_slot(p),
            ) == p,
{
}

/// A grid position: three signed coordinates, each meant to lie in `{-1, 0, 1}`.
#[derive(Clone, Copy, Debug, PartialEq, Eq)]
pub struct Position {
    pub x: isize,
    pub y: isize,
    pub z: isize,
}

impl View for Position {
    type V = Coords;

    open spec fn view(&self) -> Coords {
        (self.x as int, self.y as int, self.z as int)
    }
}

impl Position {
    /// The coordinates stay inside the grid.
    pub open spec fn wf(&self) -> bool {
        in_grid(self@)
    }

    /// The position whose zero-based grid indices are `x`, `y` and `z`.
    pub fn new(x: usize, y: usize, z: usize) -> (p: Position)
        requires
            x < 3,
            y < 3,
            z < 3,
        ensures
            p@ == (x - 1, y - 1, z - 1),
            p.wf(),
    {
        Position { x: x as isize - 1, y: y as isize - 1, z: z as isize - 1 }
    }

    /// A mutable handle on the coordinate along axis `n`.
    pub fn n(&mut self, n: usize) -> (r: &mut isize)
        requires
            n < 3,
        ensures
            *r == axis_coord(old(self)@, n as int),
            final(self)@ == with_coord(old(self)@, n as int, *final(r) as int),
    {
        if n == 0 {
            &mut self.x
        } else if n == 1 {
            &mut self.y
        } else {
            &mut self.z
        }
    }
}

} // verus!
