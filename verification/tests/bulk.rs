use cubebits::bulk::{apply_transposition, transpositions_to_operations, BulkOperation, SOLVED};
use cubebits::cube::Cube;
use cubebits::transposition::bit_map;

const MOVABLE: [usize; 20] =
    [0, 2, 6, 8, 18, 20, 24, 26, 1, 3, 5, 7, 9, 11, 15, 17, 19, 21, 23, 25];

fn field(state: u128, offset: usize) -> u128 {
    (state >> offset) & 0b11111
}

#[test]
fn solved_constant_has_the_documented_bits() {
    assert_eq!(SOLVED, 0x0001_10c8_531c_0008_8642_98e8_4a96u128);
    assert_eq!(SOLVED >> 104, 0);
    assert_eq!((SOLVED >> 60) & 0b1111, 0);
}

#[test]
fn solved_fields_number_the_pieces() {
    let corners = [0usize, 2, 6, 8, 18, 20, 24, 26];
    for (rank, slot) in corners.iter().enumerate() {
        assert_eq!(field(SOLVED, bit_map(*slot)), (rank as u128) << 2);
    }
    let edges = [1usize, 3, 5, 7, 9, 11, 15, 17, 19, 21, 23, 25];
    for (rank, slot) in edges.iter().enumerate() {
        assert_eq!(field(SOLVED, bit_map(*slot)), (rank as u128) << 1);
    }
}

#[test]
fn no_transposition_compiles_to_the_identity() {
    let op = transpositions_to_operations(Vec::new());
    assert_eq!(op, BulkOperation { mask: !0u128, rshifts: vec![], lshifts: vec![] });
    assert_eq!(apply_transposition(SOLVED, op), SOLVED);
}

#[test]
fn one_swap_compiles_to_one_left_and_one_right_shift() {
    let op = transpositions_to_operations(vec![(64, 15), (79, -15)]);
    assert_eq!(
        op,
        BulkOperation {
            mask: !((0b11111u128 << 64) | (0b11111u128 << 79)),
            rshifts: vec![(0b11111u128 << 79, 15)],
            lshifts: vec![(0b11111u128 << 64, 15)],
        }
    );
}

#[test]
fn equal_distances_share_one_entry() {
    let op = transpositions_to_operations(vec![
        (64, 15),
        (79, -15),
        (0, 15),
        (15, -15),
        (69, 5),
        (74, -5),
        (5, 5),
        (10, -5),
    ]);
    assert_eq!(op.mask, 0xffff_ffff_fff0_0000_ffff_ffff_fff0_0000u128);
    assert_eq!(
        op.rshifts,
        vec![(0xf800000000000000f8000u128, 15), (0x7c000000000000007c00u128, 5)]
    );
    assert_eq!(
        op.lshifts,
        vec![(0x1f000000000000001fu128, 15), (0x3e000000000000003e0u128, 5)]
    );
}

#[test]
fn entries_stand_where_their_distance_first_occurs() {
    let op = transpositions_to_operations(vec![(0, 10), (20, 5), (40, 10), (60, -5), (80, 5)]);
    assert_eq!(
        op.lshifts,
        vec![
            ((0b11111u128 << 0) | (0b11111u128 << 40), 10),
            ((0b11111u128 << 20) | (0b11111u128 << 80), 5),
        ]
    );
    assert_eq!(op.rshifts, vec![(0b11111u128 << 60, 5)]);
}

#[test]
fn a_field_that_travels_nowhere_is_cleared() {
    let op = transpositions_to_operations(vec![(10, 0)]);
    assert_eq!(op, BulkOperation { mask: !(0b11111u128 << 10), rshifts: vec![], lshifts: vec![] });
    assert_eq!(apply_transposition(!0u128, op), !(0b11111u128 << 10));
}

#[test]
fn a_field_at_the_top_of_the_word_is_cut() {
    let op = transpositions_to_operations(vec![(125, -5)]);
    assert_eq!(
        op,
        BulkOperation {
            mask: !(0b111u128 << 125),
            rshifts: vec![(0b111u128 << 125, 5)],
            lshifts: vec![],
        }
    );
    assert_eq!(apply_transposition(!0u128, op), !0u128 >> 3);
}

#[test]
fn apply_keeps_masks_and_shifts() {
    let op = BulkOperation {
        mask: 0xff00u128,
        rshifts: vec![(0xf0_0000u128, 20)],
        lshifts: vec![(0x0fu128, 28), (0xf0u128, 100)],
    };
    // kept: 0x3400; right: 0x500000 >> 20 = 0x5; left: 0x2 << 28, 0x10 << 100.
    assert_eq!(
        apply_transposition(0x51_3412u128, op),
        0x3400u128 | 0x5u128 | (0x2u128 << 28) | (0x10u128 << 100)
    );
}

#[test]
fn apply_drops_bits_shifted_out_of_the_word() {
    let op = BulkOperation {
        mask: 0,
        rshifts: vec![(0b11111u128, 3)],
        lshifts: vec![(0b11111u128 << 123, 2)],
    };
    assert_eq!(apply_transposition(!0u128, op), 0b11u128 | (0b111u128 << 125));
}

#[test]
fn compiled_r_move() {
    let mut cube = Cube::new();
    cube.apply_sequence("R");
    let op = transpositions_to_operations(cube.transpositions());
    assert_eq!(op.mask, 0xffff_ffff_fff0_0000_ffff_ffff_fff0_0000u128);
    assert_eq!(
        op.rshifts,
        vec![(0x3e000000000000f8000u128, 5), (0xf80000000000000007c00u128, 10)]
    );
    assert_eq!(
        op.lshifts,
        vec![(0x7c00000000000000001fu128, 5), (0x1f00000000000003e0u128, 10)]
    );
    assert_eq!(apply_transposition(SOLVED, op), 0x0001_10ca_7218_0008_8642_98ea_42d2u128);
}

#[test]
fn kept_bits_and_moved_fields_never_overlap() {
    let mut cube = Cube::new();
    cube.apply_sequence("D' L' B D F' U' R F U2 F R2 U2 F2 D2 L2 F U2 R2 F' D R'");
    let op = transpositions_to_operations(cube.transpositions());
    let mut written = 0u128;
    for (mask, shift) in &op.rshifts {
        let target = mask >> shift;
        assert_eq!(target & op.mask, 0);
        assert_eq!(target & written, 0);
        written |= target;
    }
    for (mask, shift) in &op.lshifts {
        let target = mask << shift;
        assert_eq!(target & op.mask, 0);
        assert_eq!(target & written, 0);
        written |= target;
    }
    assert_eq!(written, !op.mask);
}

#[test]
fn bulk_operation_agrees_with_the_pieces() {
    for alg in [
        "R",
        "U D",
        "F",
        "R2",
        "R'",
        "F B L R U D",
        "D' L' B D F' U' R F U2 F R2 U2 F2 D2 L2 F U2 R2 F' D R'",
    ] {
        let mut cube = Cube::new();
        cube.apply_sequence(alg);
        let op = transpositions_to_operations(cube.transpositions());
        let state = apply_transposition(SOLVED, op);
        for slot in MOVABLE {
            let origin = cube.piece(slot).0 as usize;
            assert_eq!(field(state, bit_map(slot)), field(SOLVED, bit_map(origin)));
        }
        assert_eq!(state >> 104, 0);
        assert_eq!((state >> 60) & 0b1111, 0);
    }
}

#[test]
fn long_scramble_packs_to_the_known_state() {
    let mut cube = Cube::new();
    cube.apply_sequence("D' L' B D F' U' R F U2 F R2 U2 F2 D2 L2 F U2 R2 F' D R'");
    let op = transpositions_to_operations(cube.transpositions());
    assert_eq!(op.mask, 0xffff_ff00_0000_7c00_f000_0000_01ff_8000u128);
    assert_eq!(op.rshifts.len(), 6);
    assert_eq!(op.lshifts.len(), 5);
    assert_eq!(apply_transposition(SOLVED, op), 0x0086_3840_510c_0622_4405_2ce8_1942u128);
}

#[test]
fn the_transform_moves_fields_of_any_state() {
    let mut cube = Cube::new();
    cube.apply_sequence("F R U");
    let op = transpositions_to_operations(cube.transpositions());
    let state: u128 = 0x00ff_0123_4567_89ab_cdef_0f1e_2d3c_4b5au128;
    let moved = apply_transposition(state, op);
    for slot in MOVABLE {
        let origin = cube.piece(slot).0 as usize;
        assert_eq!(field(moved, bit_map(slot)), field(state, bit_map(origin)));
    }
    assert_eq!(moved >> 104, state >> 104);
    assert_eq!((moved >> 60) & 0b1111, (state >> 60) & 0b1111);
}
