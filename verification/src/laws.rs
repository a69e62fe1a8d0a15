//! What holds of the model as a whole.

use vstd::prelude::*;
use vstd::set_lib::{lemma_int_range, lemma_len_subset, lemma_subset_equality, set_int_range};
use crate::bits::{bit, field, lemma_bit_not, lemma_bit_shl, lemma_bit_shr, lemma_field_by_bits};
use crate::bulk::{
    applied, carries, distinct_deltas, in_source, lemma_compiled_bit, lemma_distinct_deltas,
    lemma_entries_in_word, lemma_group_mask_bit, lemma_touched_mask_bit, moved_bit,
    shift_entries, source_bit, touched_mask, wanted, SOLVED,
};
use crate::cycles::{covered, is_cycle_decomposition, is_cycle_of};
use crate::transposition::{
    all_transpositions, bit_position, is_pair, lemma_all_transpositions, lemma_bit_position,
    lemma_pair_facts, lemma_transpositions_valid, pair_at, successor,
};
use crate::cube::{
    is_corner_slot, is_movable_slot, lemma_source_slot, lemma_twist_bounds, lemma_unit_product,
    orientation_modulus, reoriented, rotated, source_slot, valid_state, Piece,
};
use crate::moves::{
    face_turns, is_face, lemma_face_turn_valid, lemma_token_len, lemma_token_len_is,
    sequence_result, token_len, token_result, token_turns, valid_sequence,
};
use crate::position::{
    axes_distinct, axis_coord, in_grid, lemma_slot_position_bijection, slot_position, turned,
    Coords,
};

verus! {

/// The origins of a reachable state are a permutation of `0..27`: besides
/// being different from one another they leave no gap, so every piece stands
/// in some slot.
pub proof fn lemma_origins_cover(c: Seq<Piece>, piece: int)
    requires
        valid_state(c),
        0 <= piece < 27,
    ensures
        exists|slot: int| 0 <= slot < 27 && (#[trigger] c[slot]).0 == piece,
{
    let origins = Seq::new(27, |i: int| c[i].0 as int);
    assert forall|i: int, j: int|
        0 <= i < origins.len() && 0 <= j < origins.len() && i != j implies origins[i]
        != origins[j] by {
        if i < j {
            assert(c[i].0 != c[j].0);
        } else {
            assert(c[j].0 != c[i].0);
        }
    }
    origins.unique_seq_to_set();
    lemma_int_range(0, 27);
    assert forall|x: int| origins.to_set().contains(x) implies set_int_range(0, 27).contains(
        x,
    ) by {
        let k = choose|k: int| 0 <= k < origins.len() && origins[k] == x;
        assert(c[k].0 < 27);
    }
    lemma_len_subset(origins.to_set(), set_int_range(0, 27));
    lemma_subset_equality(origins.to_set(), set_int_range(0, 27));
    assert(set_int_range(0, 27).contains(piece));
    assert(origins.to_set().contains(piece));
    let slot = choose|k: int| 0 <= k < origins.len() && origins[k] == piece;
    assert(c[slot].0 == piece);
}

/// Any number of turns of a face keeps a reachable state reachable.
pub proof fn lemma_face_turns_valid(c: Seq<Piece>, face: char, times: nat)
    requires
        valid_state(c),
    ensures
        valid_state(face_turns(c, face, times)),
        face_turns(c, face, times)[13] == c[13],
    decreases times,
{
    if times > 0 {
        lemma_face_turns_valid(c, face, (times - 1) as nat);
        lemma_face_turn_valid(face_turns(c, face, (times - 1) as nat), face);
    }
}

/// A move sequence keeps a reachable state reachable: after every move the
/// origins are still a permutation of `0..27`, and the core piece has neither
/// moved nor turned.
pub proof fn lemma_sequence_valid(c: Seq<Piece>, s: Seq<char>)
    requires
        valid_state(c),
    ensures
        valid_state(sequence_result(c, s)),
        sequence_result(c, s)[13] == c[13],
    decreases s.len(),
{
    let n = token_len(s) as int;
    lemma_token_len(s);
    let token = s.take(n);
    lemma_face_turns_valid(c, token[0], token_turns(token));
    if n < s.len() {
        lemma_sequence_valid(token_result(c, token), s.skip(n + 1));
    }
}

/// Four quarter turns carry a position of the layer round and back.
proof fn lemma_turned_round(p: Coords, fixed: int, a: int, b: int, layer: int)
    requires
        in_grid(p),
        axes_distinct(fixed, a, b),
    ensures
        ({
            let once = turned(p, fixed, a, b, layer);
            let twice = turned(once, fixed, a, b, layer);
            let thrice = turned(twice, fixed, a, b, layer);
            &&& in_grid(once) && in_grid(twice) && in_grid(thrice)
            &&& turned(thrice, fixed, a, b, layer) == p
            &&& axis_coord(once, fixed) == axis_coord(p, fixed)
            &&& axis_coord(twice, fixed) == axis_coord(p, fixed)
            &&& axis_coord(thrice, fixed) == axis_coord(p, fixed)
            &&& axis_coord(p, fixed) == layer ==> {
                &&& axis_coord(once, a) == -axis_coord(p, b) && axis_coord(once, b) == axis_coord(p, a)
                &&& axis_coord(twice, a) == -axis_coord(p, a) && axis_coord(twice, b) == -axis_coord(p, b)
                &&& axis_coord(thrice, a) == axis_coord(p, b) && axis_coord(thrice, b) == -axis_coord(p, a)
            }
        }),
{
}

/// The orientation of a piece of the turned layer after one quarter turn has
/// brought it to a place whose coordinates in the plane of the turn are `x`
/// and `y`; `s` is the twist where the two are equal.
spec fn turned_orientation(o: int, x: int, y: int, fixed: int, s: int) -> int {
    if (x == 0) != (y == 0) {
        if fixed == 2 {
            (o + 1) % 2
        } else {
            o
        }
    } else if x != 0 && y != 0 && fixed != 1 {
        if x == y {
            (o + s + 3) % 3
        } else {
            (o - s + 3) % 3
        }
    } else {
        o
    }
}

/// `reoriented`, inside the layer, in terms of the two coordinates alone.
proof fn lemma_reoriented_in_layer(piece: Piece, p: Coords, fixed: int, a: int, b: int, layer: int)
    requires
        in_grid(p),
        axes_distinct(fixed, a, b),
        layer == 1 || layer == -1,
        axis_coord(p, fixed) == layer,
        piece.1 < 3,
    ensures
        reoriented(piece, p, fixed, a, b, layer) == (
            piece.0,
            turned_orientation(
                piece.1 as int,
                axis_coord(p, a),
                axis_coord(p, b),
                fixed,
                (fixed - 1) * layer,
            ) as u8,
        ),
        0 <= turned_orientation(
            piece.1 as int,
            axis_coord(p, a),
            axis_coord(p, b),
            fixed,
            (fixed - 1) * layer,
        ) < 3,
{
    lemma_twist_bounds(p, fixed, a, b, layer);
    lemma_unit_product(axis_coord(p, a), axis_coord(p, b));
}

/// Four quarter turns, seen from the two coordinates in the plane of the turn,
/// give a piece its orientation back.
proof fn lemma_orientation_round(o: int, x: int, y: int, fixed: int, s: int)
    requires
        -1 <= x <= 1,
        -1 <= y <= 1,
        -1 <= s <= 1,
        0 <= fixed < 3,
        0 <= o < 3,
        (x == 0) != (y == 0) ==> o < 2,
    ensures
        turned_orientation(
            turned_orientation(
                turned_orientation(turned_orientation(o, y, -x, fixed, s), -x, -y, fixed, s),
                -y,
                x,
                fixed,
                s,
            ),
            x,
            y,
            fixed,
            s,
        ) == o,
{
}

/// The slot four quarter turns draw from is the slot itself, and the piece
/// comes back as it was.
proof fn lemma_four_turns_at(c: Seq<Piece>, fixed: int, a: int, b: int, layer: int, i: int)
    requires
        valid_state(c),
        axes_distinct(fixed, a, b),
        layer == 1 || layer == -1,
        0 <= i < 27,
    ensures
        rotated(rotated(rotated(rotated(c, fixed, a, b, layer), fixed, a, b, layer), fixed, a, b, layer), fixed, a, b, layer)[i]
            == c[i],
{
    let r1 = rotated(c, fixed, a, b, layer);
    let r2 = rotated(r1, fixed, a, b, layer);
    let r3 = rotated(r2, fixed, a, b, layer);
    let r4 = rotated(r3, fixed, a, b, layer);
    let i1 = source_slot(i, fixed, a, b, layer);
    lemma_source_slot(i, fixed, a, b, layer);
    let i2 = source_slot(i1, fixed, a, b, layer);
    lemma_source_slot(i1, fixed, a, b, layer);
    let i3 = source_slot(i2, fixed, a, b, layer);
    lemma_source_slot(i2, fixed, a, b, layer);
    let i4 = source_slot(i3, fixed, a, b, layer);
    lemma_source_slot(i3, fixed, a, b, layer);
    let home = slot_position(i);
    let once = slot_position(i1);
    let twice = slot_position(i2);
    let thrice = slot_position(i3);
    lemma_turned_round(home, fixed, a, b, layer);
    assert(i4 == i) by {
        lemma_slot_position_bijection();
    }
    let q3 = reoriented(c[i], thrice, fixed, a, b, layer);
    let q2 = reoriented(q3, twice, fixed, a, b, layer);
    let q1 = reoriented(q2, once, fixed, a, b, layer);
    let q0 = reoriented(q1, home, fixed, a, b, layer);
    assert(r1[i3] == q3);
    assert(r2[i2] == q2);
    assert(r3[i1] == q1);
    assert(r4[i] == q0);
    assert(c[i].1 < orientation_modulus(i));
    if axis_coord(home, fixed) == layer {
        let x = axis_coord(home, a);
        let y = axis_coord(home, b);
        let s = (fixed - 1) * layer;
        lemma_reoriented_in_layer(c[i], thrice, fixed, a, b, layer);
        lemma_reoriented_in_layer(q3, twice, fixed, a, b, layer);
        lemma_reoriented_in_layer(q2, once, fixed, a, b, layer);
        lemma_reoriented_in_layer(q1, home, fixed, a, b, layer);
        lemma_orientation_round(c[i].1 as int, x, y, fixed, s);
    }
}

/// Four quarter turns of the same layer bring a cube back to the state it was
/// in, permutation and orientations alike.
pub proof fn lemma_four_turns(c: Seq<Piece>, fixed: int, a: int, b: int, layer: int)
    requires
        valid_state(c),
        axes_distinct(fixed, a, b),
        layer == 1 || layer == -1,
    ensures
        rotated(rotated(rotated(rotated(c, fixed, a, b, layer), fixed, a, b, layer), fixed, a, b, layer), fixed, a, b, layer)
            == c,
{
    let r4 = rotated(rotated(rotated(rotated(c, fixed, a, b, layer), fixed, a, b, layer), fixed, a, b, layer), fixed, a, b, layer);
    assert forall|i: int| 0 <= i < 27 implies r4[i] == c[i] by {
        lemma_four_turns_at(c, fixed, a, b, layer, i);
    }
    assert(r4 =~= c);
}

/// Applying a face move four times returns the cube to the state it was in.
pub proof fn lemma_face_four_turns(c: Seq<Piece>, face: char)
    requires
        valid_state(c),
    ensures
        face_turns(c, face, 4) == c,
{
    reveal_with_fuel(face_turns, 5);
    if face == 'U' {
        lemma_four_turns(c, 1, 0, 2, 1);
    } else if face == 'D' {
        lemma_four_turns(c, 1, 2, 0, -1);
    } else if face == 'F' {
        lemma_four_turns(c, 2, 0, 1, -1);
    } else if face == 'B' {
        lemma_four_turns(c, 2, 1, 0, 1);
    } else if face == 'L' {
        lemma_four_turns(c, 0, 1, 2, -1);
    } else if face == 'R' {
        lemma_four_turns(c, 0, 2, 1, 1);
    }
}

/// A face move followed by its inverse, the primed move, returns the cube to
/// the state it was in.
pub proof fn lemma_move_then_inverse(c: Seq<Piece>, face: char)
    requires
        valid_state(c),
        is_face(face),
    ensures
        valid_sequence(seq![face]),
        valid_sequence(seq![face, '\'']),
        sequence_result(sequence_result(c, seq![face]), seq![face, '\'']) == c,
{
    let plain = seq![face];
    let primed = seq![face, '\''];
    lemma_token_len_is(plain, 1);
    lemma_token_len_is(primed, 2);
    assert(plain.take(1) =~= plain);
    assert(primed.take(2) =~= primed);
    reveal_with_fuel(face_turns, 5);
    lemma_face_four_turns(c, face);
}

/// The packed state that compiling the transpositions of `cycles` into one
/// transform, and applying it, makes of `state`.
pub open spec fn transformed(cycles: Seq<Seq<usize>>, state: u128) -> u128 {
    let trans = all_transpositions(cycles, cycles.len());
    applied(
        state,
        !touched_mask(trans, trans.len()),
        shift_entries(trans, false, trans.len(), trans.len()),
        shift_entries(trans, true, trans.len(), trans.len()),
    )
}

/// A bit belongs to the field of at most one slot.
proof fn lemma_field_owner(s: int, t: int, i: int)
    requires
        0 <= s < 27,
        0 <= t < 27,
        is_movable_slot(s),
        is_movable_slot(t),
        bit_position(s) <= i < bit_position(s) + 5,
        bit_position(t) <= i < bit_position(t) + 5,
    ensures
        s == t,
{
    lemma_bit_position(s);
}

/// A slot stands at one place of one cycle only.
proof fn lemma_same_place(c: Seq<Piece>, cycles: Seq<Seq<usize>>, j: int, k: int, j2: int, k2: int)
    requires
        is_cycle_decomposition(c, cycles),
        0 <= j < cycles.len(),
        0 <= k < cycles[j].len(),
        0 <= j2 < cycles.len(),
        0 <= k2 < cycles[j2].len(),
        cycles[j][k] == cycles[j2][k2],
    ensures
        j == j2,
        k == k2,
{
    if j < j2 {
        assert(cycles[j].disjoint(cycles[j2]));
    } else if j2 < j {
        assert(cycles[j2].disjoint(cycles[j]));
    } else {
        assert(is_cycle_of(c, cycles[j]));
    }
}

/// The place before `k` in a loop of `len` places.
spec fn predecessor(k: int, len: nat) -> int {
    if k == 0 {
        len - 1
    } else {
        k - 1
    }
}

/// A transposition whose source field holds a bit of the field of `slot` is
/// the one that empties that field: `slot` follows the transposition's slot in
/// a cycle of two slots or more.
proof fn lemma_source_owner(
    c: Seq<Piece>,
    cycles: Seq<Seq<usize>>,
    slot: int,
    i: int,
    q: int,
) -> (place: (int, int))
    requires
        valid_state(c),
        is_cycle_decomposition(c, cycles),
        0 <= slot < 27,
        is_movable_slot(slot),
        bit_position(slot) <= i < bit_position(slot) + 5,
        0 <= q < all_transpositions(cycles, cycles.len()).len(),
        in_source(all_transpositions(cycles, cycles.len())[q], i),
    ensures
        0 <= place.0 < cycles.len(),
        cycles[place.0].len() >= 2,
        0 <= place.1 < cycles[place.0].len(),
        cycles[place.0][place.1] == slot,
{
    let trans = all_transpositions(cycles, cycles.len());
    lemma_all_transpositions(cycles, cycles.len());
    assert(is_pair(cycles, cycles.len(), trans[q]));
    let (j, k) = choose|j: int, k: int|
        0 <= j < cycles.len() && cycles[j].len() >= 2 && 0 <= k < cycles[j].len() && trans[q]
            == #[trigger] pair_at(cycles, j, k);
    lemma_pair_facts(c, cycles, j, k);
    let next = successor(k, cycles[j].len());
    lemma_field_owner(slot, cycles[j][next] as int, i);
    (j, next)
}

/// A transposition that carries a bit into the field of `slot` is the one of
/// `slot` itself, which then stands in a cycle of two slots or more.
proof fn lemma_carry_owner(
    c: Seq<Piece>,
    cycles: Seq<Seq<usize>>,
    state: u128,
    slot: int,
    i: int,
    q: int,
) -> (place: (int, int))
    requires
        valid_state(c),
        is_cycle_decomposition(c, cycles),
        0 <= slot < 27,
        is_movable_slot(slot),
        bit_position(slot) <= i < bit_position(slot) + 5,
        0 <= q < all_transpositions(cycles, cycles.len()).len(),
        carries(all_transpositions(cycles, cycles.len())[q], state, i),
    ensures
        0 <= place.0 < cycles.len(),
        cycles[place.0].len() >= 2,
        0 <= place.1 < cycles[place.0].len(),
        cycles[place.0][place.1] == slot,
        all_transpositions(cycles, cycles.len())[q] == pair_at(cycles, place.0, place.1),
{
    let trans = all_transpositions(cycles, cycles.len());
    lemma_all_transpositions(cycles, cycles.len());
    assert(is_pair(cycles, cycles.len(), trans[q]));
    let (j, k) = choose|j: int, k: int|
        0 <= j < cycles.len() && cycles[j].len() >= 2 && 0 <= k < cycles[j].len() && trans[q]
            == #[trigger] pair_at(cycles, j, k);
    lemma_pair_facts(c, cycles, j, k);
    lemma_field_owner(slot, cycles[j][k] as int, i);
    (j, k)
}

/// The transposition of the `k`-th slot of the `j`-th cycle is among those of
/// the whole list.
proof fn lemma_pair_index(cycles: Seq<Seq<usize>>, j: int, k: int) -> (q: int)
    requires
        0 <= j < cycles.len(),
        cycles[j].len() >= 2,
        0 <= k < cycles[j].len(),
    ensures
        0 <= q < all_transpositions(cycles, cycles.len()).len(),
        all_transpositions(cycles, cycles.len())[q] == pair_at(cycles, j, k),
{
    let trans = all_transpositions(cycles, cycles.len());
    lemma_all_transpositions(cycles, cycles.len());
    assert(trans.contains(pair_at(cycles, j, k)));
    choose|q: int| 0 <= q < trans.len() && trans[q] == pair_at(cycles, j, k)
}

/// One bit of the round trip: inside the field of a corner or edge slot, the
/// transform puts the bit that `state` has at the same place in the field of
/// the slot the piece came from.
proof fn lemma_round_trip_bit(c: Seq<Piece>, cycles: Seq<Seq<usize>>, state: u128, slot: int, m: int)
    requires
        valid_state(c),
        is_cycle_decomposition(c, cycles),
        0 <= slot < 27,
        is_movable_slot(slot),
        0 <= m < 5,
    ensures
        is_movable_slot(c[slot].0 as int),
        0 <= bit_position(slot) <= 99,
        0 <= bit_position(c[slot].0 as int) <= 99,
        bit(transformed(cycles, state), (bit_position(slot) + m) as usize) == bit(
            state,
            (bit_position(c[slot].0 as int) + m) as usize,
        ),
{
    let trans = all_transpositions(cycles, cycles.len());
    lemma_bit_position(slot);
    let i = (bit_position(slot) + m) as usize;
    lemma_transpositions_valid(c, cycles);
    lemma_compiled_bit(trans, state, i);
    assert(covered(cycles, slot as usize));
    let j = choose|j: int| 0 <= j < cycles.len() && (#[trigger] cycles[j]).contains(slot as usize);
    let cyc = cycles[j];
    let k = choose|k: int| 0 <= k < cyc.len() && cyc[k] == slot as usize;
    assert(is_cycle_of(c, cyc));
    if cyc.len() >= 2 {
        let prev = predecessor(k, cyc.len());
        lemma_pair_facts(c, cycles, j, k);
        lemma_pair_facts(c, cycles, j, prev);
        let q1 = lemma_pair_index(cycles, j, prev);
        assert(in_source(trans[q1], i as int));
        let q2 = lemma_pair_index(cycles, j, k);
        let own = pair_at(cycles, j, k);
        assert(i - own.1 == bit_position(c[slot].0 as int) + m);
        if bit(state, (bit_position(c[slot].0 as int) + m) as usize) {
            assert(carries(trans[q2], state, i as int));
        }
        if moved_bit(trans, state, i as int) {
            let q = choose|q: int|
                0 <= q < trans.len() && carries(#[trigger] trans[q], state, i as int);
            let place = lemma_carry_owner(c, cycles, state, slot, i as int, q);
            lemma_same_place(c, cycles, j, k, place.0, place.1);
        }
    } else {
        assert(c[slot].0 == slot);
        if source_bit(trans, trans.len(), i as int) {
            let q = choose|q: int| 0 <= q < trans.len() && in_source(#[trigger] trans[q], i as int);
            let place = lemma_source_owner(c, cycles, slot, i as int, q);
            lemma_same_place(c, cycles, j, k, place.0, place.1);
        }
        if moved_bit(trans, state, i as int) {
            let q = choose|q: int|
                0 <= q < trans.len() && carries(#[trigger] trans[q], state, i as int);
            let place = lemma_carry_owner(c, cycles, state, slot, i as int, q);
            lemma_same_place(c, cycles, j, k, place.0, place.1);
        }
    }
}

/// Round trip. Compile the transpositions of a reachable cube into one
/// transform and apply it to a packed state: the field of every corner and
/// edge slot then holds what the state held in the field of the slot that the
/// slot's piece started in.
pub proof fn lemma_round_trip(c: Seq<Piece>, cycles: Seq<Seq<usize>>, state: u128, slot: int)
    requires
        valid_state(c),
        is_cycle_decomposition(c, cycles),
        0 <= slot < 27,
        is_movable_slot(slot),
    ensures
        is_movable_slot(c[slot].0 as int),
        field(transformed(cycles, state), bit_position(slot) as usize) == field(
            state,
            bit_position(c[slot].0 as int) as usize,
        ),
{
    let p = bit_position(slot) as usize;
    let q = bit_position(c[slot].0 as int) as usize;
    lemma_round_trip_bit(c, cycles, state, slot, 0);
    lemma_round_trip_bit(c, cycles, state, slot, 1);
    lemma_round_trip_bit(c, cycles, state, slot, 2);
    lemma_round_trip_bit(c, cycles, state, slot, 3);
    lemma_round_trip_bit(c, cycles, state, slot, 4);
    lemma_bit_position(slot);
    lemma_bit_position(c[slot].0 as int);
    lemma_field_by_bits(transformed(cycles, state), p, state, q);
}

/// Bit `i` lies in the field of some corner or edge slot.
pub open spec fn in_some_field(i: int) -> bool {
    exists|slot: int|
        0 <= slot < 27 && is_movable_slot(slot) && #[trigger] bit_position(slot) <= i
            < bit_position(slot) + 5
}

/// Round trip, the rest of the word: the transform leaves every bit outside
/// the fields of the corner and edge slots as it was.
pub proof fn lemma_round_trip_rest(c: Seq<Piece>, cycles: Seq<Seq<usize>>, state: u128, i: usize)
    requires
        valid_state(c),
        is_cycle_decomposition(c, cycles),
        i < 128,
        !in_some_field(i as int),
    ensures
        bit(transformed(cycles, state), i) == bit(state, i),
{
    let trans = all_transpositions(cycles, cycles.len());
    lemma_transpositions_valid(c, cycles);
    lemma_compiled_bit(trans, state, i);
    lemma_all_transpositions(cycles, cycles.len());
    assert forall|q: int| 0 <= q < trans.len() implies !in_source(#[trigger] trans[q], i as int)
        && !carries(trans[q], state, i as int) by {
        assert(is_pair(cycles, cycles.len(), trans[q]));
        let (j, k) = choose|j: int, k: int|
            0 <= j < cycles.len() && cycles[j].len() >= 2 && 0 <= k < cycles[j].len() && trans[q]
                == #[trigger] pair_at(cycles, j, k);
        lemma_pair_facts(c, cycles, j, k);
        let cur = cycles[j][k] as int;
        let next = c[cur].0 as int;
        if in_source(trans[q], i as int) {
            assert(bit_position(next) <= i < bit_position(next) + 5);
        }
        if carries(trans[q], state, i as int) {
            assert(bit_position(cur) <= i < bit_position(cur) + 5);
        }
    }
}

/// What the field of a piece holds in the solved state: the piece's number
/// among the corners, or among the edges, above orientation bits that are
/// zero. Corners have two orientation bits, edges one.
pub open spec fn piece_code(piece: int) -> int {
    if is_corner_slot(piece) {
        4 * ((99 - bit_position(piece)) / 5)
    } else {
        2 * ((55 - bit_position(piece)) / 5)
    }
}

/// The fields of the solved state hold the codes of their own pieces.
pub proof fn lemma_solved_fields(slot: int)
    requires
        0 <= slot < 27,
        is_movable_slot(slot),
    ensures
        field(SOLVED, bit_position(slot) as usize) == piece_code(slot),
{
    lemma_bit_position(slot);
    assert(field(SOLVED, 99) == 0 && field(SOLVED, 94) == 4 && field(SOLVED, 89) == 8 && field(
        SOLVED,
        84,
    ) == 12 && field(SOLVED, 79) == 16 && field(SOLVED, 74) == 20 && field(SOLVED, 69) == 24
        && field(SOLVED, 64) == 28 && field(SOLVED, 55) == 0 && field(SOLVED, 50) == 2 && field(
        SOLVED,
        45,
    ) == 4 && field(SOLVED, 40) == 6 && field(SOLVED, 35) == 8 && field(SOLVED, 30) == 10
        && field(SOLVED, 25) == 12 && field(SOLVED, 20) == 14 && field(SOLVED, 15) == 16 && field(
        SOLVED,
        10,
    ) == 18 && field(SOLVED, 5) == 20 && field(SOLVED, 0) == 22) by (bit_vector);
}

/// Round trip from the solved state. Compile the transpositions of a reachable
/// cube and apply the transform to the solved packed state: the field of every
/// corner and edge slot then holds the code of the piece that the cube has in
/// that slot. The transform moves whole fields and the solved state has every
/// orientation bit zero, so the orientation bits of the result are zero too.
pub proof fn lemma_round_trip_solved(c: Seq<Piece>, cycles: Seq<Seq<usize>>, slot: int)
    requires
        valid_state(c),
        is_cycle_decomposition(c, cycles),
        0 <= slot < 27,
        is_movable_slot(slot),
    ensures
        field(transformed(cycles, SOLVED), bit_position(slot) as usize) == piece_code(
            c[slot].0 as int,
        ),
{
    lemma_round_trip(c, cycles, SOLVED, slot);
    lemma_solved_fields(c[slot].0 as int);
}

/// The field of every slot that a transposition fills is also a source field:
/// in a cycle each slot is emptied as well as filled.
proof fn lemma_destination_is_source(c: Seq<Piece>, cycles: Seq<Seq<usize>>, q: int, i: int)
    requires
        valid_state(c),
        is_cycle_decomposition(c, cycles),
        0 <= q < all_transpositions(cycles, cycles.len()).len(),
        in_source(
            all_transpositions(cycles, cycles.len())[q],
            i - all_transpositions(cycles, cycles.len())[q].1,
        ),
    ensures
        source_bit(
            all_transpositions(cycles, cycles.len()),
            all_transpositions(cycles, cycles.len()).len(),
            i,
        ),
{
    let trans = all_transpositions(cycles, cycles.len());
    lemma_all_transpositions(cycles, cycles.len());
    assert(is_pair(cycles, cycles.len(), trans[q]));
    let (j, k) = choose|j: int, k: int|
        0 <= j < cycles.len() && cycles[j].len() >= 2 && 0 <= k < cycles[j].len() && trans[q]
            == #[trigger] pair_at(cycles, j, k);
    lemma_pair_facts(c, cycles, j, k);
    let prev = predecessor(k, cycles[j].len());
    lemma_pair_facts(c, cycles, j, prev);
    let q1 = lemma_pair_index(cycles, j, prev);
    assert(in_source(trans[q1], i));
}

/// No double contribution. In the transform compiled from the transpositions
/// of a reachable cube, no bit that a shift entry writes is a bit that the
/// keep mask keeps.
pub proof fn lemma_no_double_contribution(
    c: Seq<Piece>,
    cycles: Seq<Seq<usize>>,
    left: bool,
    p: int,
    i: usize,
)
    requires
        valid_state(c),
        is_cycle_decomposition(c, cycles),
        0 <= p < shift_entries(
            all_transpositions(cycles, cycles.len()),
            left,
            all_transpositions(cycles, cycles.len()).len(),
            all_transpositions(cycles, cycles.len()).len(),
        ).len(),
        i < 128,
    ensures
        ({
            let trans = all_transpositions(cycles, cycles.len());
            let entry = shift_entries(trans, left, trans.len(), trans.len())[p];
            let written = if left {
                entry.0 << entry.1
            } else {
                entry.0 >> entry.1
            };
            !(bit(written, i) && bit(!touched_mask(trans, trans.len()), i))
        }),
{
    let trans = all_transpositions(cycles, cycles.len());
    let len = trans.len();
    let entries = shift_entries(trans, left, len, len);
    let deltas = distinct_deltas(trans, left, len);
    let entry = entries[p];
    let delta = deltas[p];
    lemma_transpositions_valid(c, cycles);
    lemma_distinct_deltas(trans, left, len);
    lemma_entries_in_word(trans, left, len, len);
    assert(wanted(delta, left));
    assert(0 < entry.1 < 128);
    lemma_bit_not(touched_mask(trans, len), i);
    lemma_touched_mask_bit(trans, len, i);
    if left {
        lemma_bit_shl(entry.0, entry.1, i);
        if bit(entry.0 << entry.1, i) {
            let src = (i - entry.1) as usize;
            lemma_group_mask_bit(trans, delta, len, src);
            let k = choose|k: int|
                0 <= k < len && (#[trigger] trans[k]).1 == delta && in_source(trans[k], src as int);
            lemma_destination_is_source(c, cycles, k, i as int);
        }
    } else {
        lemma_bit_shr(entry.0, entry.1, i);
        if bit(entry.0 >> entry.1, i) {
            let src = (i + entry.1) as usize;
            lemma_group_mask_bit(trans, delta, len, src);
            let k = choose|k: int|
                0 <= k < len && (#[trigger] trans[k]).1 == delta && in_source(trans[k], src as int);
            lemma_destination_is_source(c, cycles, k, i as int);
        }
    }
}

} // verus!
