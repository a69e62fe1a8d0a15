//! The cube as 27 slots of pieces, and the quarter turn of a face.

use vstd::prelude::*;
use crate::position::{
    axes_distinct, axis_coord, in_grid, lemma_slot_position_bijection, position_slot,
    slot_position, turned, Coords, Position,
};

verus! {

/// A piece: the slot it started in, and how far it is twisted from solved.
pub type Piece = (u8, u8);

/// The slot lies on a corner of the grid: no coordinate is zero.
pub open spec fn is_corner_slot(slot: int) -> bool {
    let p = slot_position(slot);
    p.0 != 0 && p.1 != 0 && p.2 != 0
}

/// The slot lies on an edge of the grid: exactly one coordinate is zero.
pub open spec fn is_edge_slot(slot: int) -> bool {
    let p = slot_position(slot);
    ||| p.0 == 0 && p.1 != 0 && p.2 != 0
    ||| p.0 != 0 && p.1 == 0 && p.2 != 0
    ||| p.0 != 0 && p.1 != 0 && p.2 == 0
}

/// The slot holds a piece that turns can move: a corner or an edge.
pub open spec fn is_movable_slot(slot: int) -> bool {
    is_corner_slot(slot) || is_edge_slot(slot)
}

/// The number of orientations a piece in `slot` can take: three for a corner,
/// two for an edge, one for a centre or the core.
pub open spec fn orientation_modulus(slot: int) -> int {
    if is_corner_slot(slot) {
        3
    } else if is_edge_slot(slot) {
        2
    } else {
        1
    }
}

/// The state every cube reachable by face turns is in: the origins are a
/// permutation of `0..27`, each orientation is below its slot's modulus, and
/// the centres and the core have neither moved nor turned.
pub open spec fn valid_state(c: Seq<Piece>) -> bool {
    &&& c.len() == 27
    &&& forall|i: int| 0 <= i < 27 ==> (#[trigger] c[i]).0 < 27
    &&& forall|i: int, j: int| 0 <= i < j < 27 ==> (#[trigger] c[i]).0 != (#[trigger] c[j]).0
    &&& forall|i: int| 0 <= i < 27 ==> (#[trigger] c[i]).1 < orientation_modulus(i)
    &&& forall|i: int| 0 <= i < 27 && !is_movable_slot(i) ==> (#[trigger] c[i]).0 == i
}

/// The solved cube: slot `i` holds piece `i`, untwisted.
pub open spec fn solved_state() -> Seq<Piece> {
    Seq::new(27, |i: int| (i as u8, 0u8))
}

/// The slot whose piece a quarter turn brings to `slot`.
pub open spec fn source_slot(slot: int, fixed: int, a: int, b: int, layer: int) -> int {
    position_slot(turned(slot_position(slot), fixed, a, b, layer))
}

/// The twist a quarter turn gives the corner that arrives at `p`.
pub open spec fn twist(p: Coords, fixed: int, a: int, b: int, layer: int) -> int {
    axis_coord(p, a) * axis_coord(p, b) * (fixed - 1) * layer
}

/// `p` has exactly one zero among its coordinates along `a` and `b`: in a
/// layer turned in that plane, it is the place of an edge.
pub open spec fn on_layer_edge(p: Coords, a: int, b: int) -> bool {
    (axis_coord(p, a) == 0) != (axis_coord(p, b) == 0)
}

/// `p` has no zero among its coordinates along `a` and `b`: in a layer turned
/// in that plane, it is the place of a corner.
pub open spec fn on_layer_corner(p: Coords, a: int, b: int) -> bool {
    axis_coord(p, a) * axis_coord(p, b) != 0
}

/// The piece `piece` after a quarter turn has brought it to position `p`.
/// Outside the turned layer nothing changes. Inside it, a turn about axis 2
/// flips the edges, a turn about axis 0 or 2 twists the corners by `twist`,
/// and the centre of the layer stays as it is.
pub open spec fn reoriented(piece: Piece, p: Coords, fixed: int, a: int, b: int, layer: int) -> Piece {
    if axis_coord(p, fixed) != layer {
        piece
    } else if on_layer_edge(p, a, b) && fixed == 2 {
        (piece.0, ((piece.1 + 1) % 2) as u8)
    } else if on_layer_corner(p, a, b) && fixed != 1 {
        (piece.0, ((piece.1 + twist(p, fixed, a, b, layer) + 3) % 3) as u8)
    } else {
        piece
    }
}

/// The cube after a quarter turn of the layer `layer` about `fixed`, in the
/// plane of the axes `a` and `b`.
pub open spec fn rotated(c: Seq<Piece>, fixed: int, a: int, b: int, layer: int) -> Seq<Piece> {
    Seq::new(
        27,
        |i: int|
            reoriented(
                c[source_slot(i, fixed, a, b, layer)],
                slot_position(i),
                fixed,
                a,
                b,
                layer,
            ),
    )
}

/// A product of two grid coordinates is their sign product.
pub proof fn lemma_unit_product(a: int, b: int)
    by (nonlinear_arith)
    requires
        -1 <= a <= 1,
        -1 <= b <= 1,
    ensures
        a * b == (if a == 0 || b == 0 {
            0int
        } else if a == b {
            1int
        } else {
            -1int
        }),
{
}

/// The twist of a corner of the turned layer is -1, 0 or 1, and so is each of
/// the partial products it is computed through.
pub proof fn lemma_twist_bounds(p: Coords, fixed: int, a: int, b: int, layer: int)
    requires
        in_grid(p),
        axes_distinct(fixed, a, b),
        layer == 1 || layer == -1,
    ensures
        -1 <= axis_coord(p, a) * axis_coord(p, b) <= 1,
        -1 <= axis_coord(p, a) * axis_coord(p, b) * (fixed - 1) <= 1,
        -1 <= twist(p, fixed, a, b, layer) <= 1,
        axis_coord(p, a) != 0 && axis_coord(p, b) != 0 ==> twist(p, fixed, a, b, layer) == (if axis_coord(
            p,
            a,
        ) == axis_coord(p, b) {
            (fixed - 1) * layer
        } else {
            -((fixed - 1) * layer)
        }),
        -1 <= (fixed - 1) * layer <= 1,
{
    let x = axis_coord(p, a);
    let y = axis_coord(p, b);
    lemma_unit_product(x, y);
    lemma_unit_product(x * y, fixed - 1);
    lemma_unit_product(x * y * (fixed - 1), layer);
    lemma_unit_product(fixed - 1, layer);
    assert(x * y * (fixed - 1) * layer == x * y * ((fixed - 1) * layer)) by (nonlinear_arith);
    lemma_unit_product(x * y, (fixed - 1) * layer);
}

/// The slot a quarter turn draws from is a slot of the same kind, the turn is
/// one to one, and it leaves the centres and the core where they are.
pub proof fn lemma_source_slot(slot: int, fixed: int, a: int, b: int, layer: int)
    requires
        0 <= slot < 27,
        axes_distinct(fixed, a, b),
        layer == 1 || layer == -1,
    ensures
        0 <= source_slot(slot, fixed, a, b, layer) < 27,
        in_grid(slot_position(slot)),
        is_corner_slot(source_slot(slot, fixed, a, b, layer)) == is_corner_slot(slot),
        is_edge_slot(source_slot(slot, fixed, a, b, layer)) == is_edge_slot(slot),
        !is_movable_slot(slot) ==> source_slot(slot, fixed, a, b, layer) == slot,
        slot_position(source_slot(slot, fixed, a, b, layer)) == turned(
            slot_position(slot),
            fixed,
            a,
            b,
            layer,
        ),
{
    let p = slot_position(slot);
    let q = turned(p, fixed, a, b, layer);
    assert(in_grid(p));
    assert(in_grid(q));
    lemma_slot_position_bijection();
    assert(slot_position(position_slot(q)) == q);
}

/// A quarter turn of a face keeps a reachable state reachable.
pub proof fn lemma_rotated_valid(c: Seq<Piece>, fixed: int, a: int, b: int, layer: int)
    requires
        valid_state(c),
        axes_distinct(fixed, a, b),
        layer == 1 || layer == -1,
    ensures
        valid_state(rotated(c, fixed, a, b, layer)),
        rotated(c, fixed, a, b, layer)[13] == c[13],
{
    let r = rotated(c, fixed, a, b, layer);
    assert forall|i: int| 0 <= i < 27 implies (#[trigger] r[i]).0 < 27 && r[i].1
        < orientation_modulus(i) && (!is_movable_slot(i) ==> r[i].0 == i) by {
        lemma_source_slot(i, fixed, a, b, layer);
        let p = slot_position(i);
        lemma_unit_product(axis_coord(p, a), axis_coord(p, b));
        lemma_twist_bounds(p, fixed, a, b, layer);
    }
    assert forall|i: int, j: int| 0 <= i < j < 27 implies (#[trigger] r[i]).0 != (#[trigger] r[j]).0 by {
        lemma_source_slot(i, fixed, a, b, layer);
        lemma_source_slot(j, fixed, a, b, layer);
        let si = source_slot(i, fixed, a, b, layer);
        let sj = source_slot(j, fixed, a, b, layer);
        lemma_slot_position_bijection();
        assert(si != sj);
        if si < sj {
            assert(c[si].0 != c[sj].0);
        } else {
            assert(c[sj].0 != c[si].0);
        }
    }
    lemma_source_slot(13, fixed, a, b, layer);
}

/// The 27 slots of the puzzle, each holding one piece.
#[derive(Debug, PartialEq, Eq)]
pub struct Cube {
    rep: [Piece; 27],
}

impl View for Cube {
    type V = Seq<Piece>;

    closed spec fn view(&self) -> Seq<Piece> {
        self.rep@
    }
}

impl Cube {
    /// The cube is in a state that face turns can reach.
    pub open spec fn wf(&self) -> bool {
        valid_state(self@)
    }

    /// The solved cube.
    pub fn new() -> (cube: Cube)
        ensures
            cube@ == solved_state(),
            cube.wf(),
    {
        let mut rep: [Piece; 27] = [(0u8, 0u8); 27];
        let mut i: usize = 0;
        while i < 27
            invariant
                i <= 27,
                forall|k: int| 0 <= k < i ==> rep@[k] == (k as u8, 0u8),
            decreases 27 - i,
        {
            rep[i] = (i as u8, 0u8);
            i += 1;
        }
        assert(rep@ =~= solved_state());
        Cube { rep }
    }

    /// The position of slot `idx` together with a mutable handle on its piece.
    pub fn mut_iter(&mut self, idx: usize) -> (r: (Position, &mut Piece))
        requires
            idx < 27,
        ensures
            r.0@ == slot_position(idx as int),
            r.0.wf(),
            *r.1 == old(self)@[idx as int],
            final(self)@ == old(self)@.update(idx as int, *final(r.1)),
    {
        let pos = Position::new(idx / 9, (idx / 3) % 3, idx % 3);
        (pos, &mut self.rep[idx])
    }

    /// Turns the layer `filter` about the axis `fixed` by a quarter, in the plane
    /// of the axes `axis_a` and `axis_b`: every slot receives the piece that the
    /// turn brings to it, and the pieces of the layer are re-oriented.
    pub fn rotate(&mut self, fixed: usize, axis_a: usize, axis_b: usize, filter: isize)
        requires
            old(self).wf(),
            axes_distinct(fixed as int, axis_a as int, axis_b as int),
            filter == 1 || filter == -1,
        ensures
            final(self)@ == rotated(
                old(self)@,
                fixed as int,
                axis_a as int,
                axis_b as int,
                filter as int,
            ),
            final(self).wf(),
            final(self)@[13] == old(self)@[13],
    {
        let ghost before = self@;
        let mut n: Vec<Position> = Vec::new();
        let mut i: usize = 0;
        while i < 27
            invariant
                i <= 27,
                n.len() == i,
                self@ == before,
                axes_distinct(fixed as int, axis_a as int, axis_b as int),
                forall|k: int|
                    0 <= k < i ==> (#[trigger] n[k])@ == turned(
                        slot_position(k),
                        fixed as int,
                        axis_a as int,
                        axis_b as int,
                        filter as int,
                    ) && n[k].wf(),
            decreases 27 - i,
        {
            let (mut pos, _) = self.mut_iter(i);
            assert(self@ =~= before);
            if *pos.n(fixed) == filter {
                let mut new_pos = Position::new(0, 0, 0);
                *new_pos.n(fixed) = *pos.n(fixed);
                let b: isize = *pos.n(axis_b);
                assert(b * -1 == -b) by (nonlinear_arith);
                *new_pos.n(axis_a) = b * -1;
                *new_pos.n(axis_b) = *pos.n(axis_a);
                n.push(new_pos);
            } else {
                n.push(pos);
            }
            i += 1;
        }
        let mut new_rep: [Piece; 27] = [(0u8, 0u8); 27];
        let mut i: usize = 0;
        while i < 27
            invariant
                i <= 27,
                n.len() == 27,
                self@ == before,
                forall|k: int|
                    0 <= k < 27 ==> (#[trigger] n[k])@ == turned(
                        slot_position(k),
                        fixed as int,
                        axis_a as int,
                        axis_b as int,
                        filter as int,
                    ) && n[k].wf(),
                forall|k: int|
                    0 <= k < i ==> new_rep@[k] == before[source_slot(
                        k,
                        fixed as int,
                        axis_a as int,
                        axis_b as int,
                        filter as int,
                    )],
            decreases 27 - i,
        {
            new_rep[i] = self.get(&n[i]);
            i += 1;
        }
        self.rep = new_rep;
        let ghost gathered = self@;
        let mut i: usize = 0;
        while i < 27
            invariant
                i <= 27,
                before.len() == 27,
                gathered.len() == 27,
                self@.len() == 27,
                axes_distinct(fixed as int, axis_a as int, axis_b as int),
                filter == 1 || filter == -1,
                valid_state(before),
                forall|k: int|
                    0 <= k < 27 ==> gathered[k] == before[source_slot(
                        k,
                        fixed as int,
                        axis_a as int,
                        axis_b as int,
                        filter as int,
                    )],
                forall|k: int| i <= k < 27 ==> self@[k] == gathered[k],
                forall|k: int|
                    0 <= k < i ==> self@[k] == reoriented(
                        gathered[k],
                        slot_position(k),
                        fixed as int,
                        axis_a as int,
                        axis_b as int,
                        filter as int,
                    ),
            decreases 27 - i,
        {
            proof {
                lemma_source_slot(i as int, fixed as int, axis_a as int, axis_b as int, filter as int);
                let src = source_slot(
                    i as int,
                    fixed as int,
                    axis_a as int,
                    axis_b as int,
                    filter as int,
                );
                assert(self@[i as int] == gathered[i as int]);
                assert(gathered[i as int] == before[src]);
                assert(before[src].1 < orientation_modulus(src));
            }
            let (mut pos, piece) = self.mut_iter(i);
            assert(piece.1 < 3);
            if *pos.n(fixed) == filter {
                let a: isize = *pos.n(axis_a);
                let b: isize = *pos.n(axis_b);
                proof {
                    lemma_unit_product(a as int, b as int);
                }
                if (a == 0) != (b == 0) {
                    if fixed == 2 {
                        piece.1 = (piece.1 + 1) % 2;
                    }
                } else if a * b != 0 && fixed != 1 {
                    proof {
                        lemma_twist_bounds(pos@, fixed as int, axis_a as int, axis_b as int, filter as int);
                    }
                    let tw: isize = a * b * (fixed as isize - 1) * filter;
                    piece.1 = (piece.1 + (tw + 3) as u8) % 3;
                }
            }
            i += 1;
        }
        proof {
            assert(self@ =~= rotated(
                before,
                fixed as int,
                axis_a as int,
                axis_b as int,
                filter as int,
            ));
            lemma_rotated_valid(before, fixed as int, axis_a as int, axis_b as int, filter as int);
        }
    }

    /// The piece in slot `slot`.
    pub fn piece(&self, slot: usize) -> (piece: Piece)
        requires
            slot < 27,
        ensures
            piece == self@[slot as int],
    {
        self.rep[slot]
    }

    /// The piece at position `pos`.
    pub fn get(&self, pos: &Position) -> (piece: Piece)
        requires
            pos.wf(),
        ensures
            piece == self@[position_slot(pos@)],
    {
        self.rep[((pos.x + 1) * 9 + (pos.y + 1) * 3 + (pos.z + 1)) as usize]
    }
}

} // verus!
