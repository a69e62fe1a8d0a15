use cubebits::cube::Cube;
use cubebits::moves::is_valid_sequence;
use cubebits::position::Position;

fn origins_form_a_permutation(cube: &Cube) -> bool {
    let mut seen = [false; 27];
    for slot in 0..27usize {
        let origin = cube.piece(slot).0 as usize;
        if origin >= 27 || seen[origin] {
            return false;
        }
        seen[origin] = true;
    }
    seen.iter().all(|s| *s)
}

#[test]
fn solved_cube_holds_each_piece_in_its_slot() {
    let cube = Cube::new();
    for slot in 0..27usize {
        assert_eq!(cube.piece(slot), (slot as u8, 0));
    }
}

#[test]
fn position_new_centres_the_grid_indices() {
    assert_eq!(Position::new(0, 0, 0), Position { x: -1, y: -1, z: -1 });
    assert_eq!(Position::new(1, 1, 1), Position { x: 0, y: 0, z: 0 });
    assert_eq!(Position::new(2, 0, 1), Position { x: 1, y: -1, z: 0 });
}

#[test]
fn position_n_reads_and_writes_one_axis() {
    let mut p = Position::new(2, 1, 0);
    assert_eq!(*p.n(0), 1);
    assert_eq!(*p.n(1), 0);
    assert_eq!(*p.n(2), -1);
    *p.n(1) = -1;
    assert_eq!(p, Position { x: 1, y: -1, z: -1 });
    *p.n(2) = 0;
    assert_eq!(p, Position { x: 1, y: -1, z: 0 });
    *p.n(0) = -1;
    assert_eq!(p, Position { x: -1, y: -1, z: 0 });
}

#[test]
fn slots_and_positions_correspond() {
    let mut cube = Cube::new();
    for slot in 0..27usize {
        let (pos, piece) = cube.mut_iter(slot);
        assert_eq!(pos, Position::new(slot / 9, (slot / 3) % 3, slot % 3));
        assert_eq!(*piece, (slot as u8, 0));
        let found = cube.get(&pos);
        assert_eq!(found, (slot as u8, 0));
    }
    let (pos, _) = cube.mut_iter(13);
    assert_eq!(pos, Position { x: 0, y: 0, z: 0 });
    let (pos, _) = cube.mut_iter(26);
    assert_eq!(pos, Position { x: 1, y: 1, z: 1 });
    let (pos, _) = cube.mut_iter(5);
    assert_eq!(pos, Position { x: -1, y: 0, z: 1 });
}

#[test]
fn mut_iter_hands_out_the_piece_itself() {
    let mut cube = Cube::new();
    {
        let (_, piece) = cube.mut_iter(7);
        piece.1 = 1;
    }
    assert_eq!(cube.piece(7), (7, 1));
    assert_eq!(cube.piece(6), (6, 0));
    assert_eq!(cube.piece(8), (8, 0));
}

#[test]
fn rotate_moves_the_layer_and_nothing_else() {
    // A quarter turn about axis 0 of the layer x = 1, in the plane (2, 1).
    let mut cube = Cube::new();
    cube.rotate(0, 2, 1, 1);
    for slot in 0..18usize {
        assert_eq!(cube.piece(slot), (slot as u8, 0));
    }
    assert_eq!(cube.piece(18), (20, 2));
    assert_eq!(cube.piece(19), (23, 0));
    assert_eq!(cube.piece(20), (26, 1));
    assert_eq!(cube.piece(21), (19, 0));
    assert_eq!(cube.piece(22), (22, 0));
    assert_eq!(cube.piece(23), (25, 0));
    assert_eq!(cube.piece(24), (18, 1));
    assert_eq!(cube.piece(25), (21, 0));
    assert_eq!(cube.piece(26), (24, 2));
}

#[test]
fn rotate_about_axis_two_flips_edges_and_twists_corners() {
    // The face F: axis 2, layer -1, plane (0, 1). The centre, slot 12, stays.
    let mut cube = Cube::new();
    cube.rotate(2, 0, 1, -1);
    let expected: [(usize, (u8, u8)); 9] = [
        (0, (18, 2)),
        (3, (9, 1)),
        (6, (0, 1)),
        (9, (21, 1)),
        (12, (12, 0)),
        (15, (3, 1)),
        (18, (24, 1)),
        (21, (15, 1)),
        (24, (6, 2)),
    ];
    for (slot, piece) in expected {
        assert_eq!(cube.piece(slot), piece);
    }
    for slot in 0..27usize {
        if slot % 3 != 0 {
            assert_eq!(cube.piece(slot), (slot as u8, 0));
        }
    }
}

#[test]
fn rotate_about_axis_one_changes_no_orientation() {
    let mut cube = Cube::new();
    cube.rotate(1, 0, 2, 1);
    for slot in 0..27usize {
        assert_eq!(cube.piece(slot).1, 0);
    }
    assert_eq!(cube.piece(6), (24, 0));
    assert_eq!(cube.piece(7), (15, 0));
    assert_eq!(cube.piece(8), (6, 0));
    assert_eq!(cube.piece(15), (25, 0));
    assert_eq!(cube.piece(16), (16, 0));
    assert_eq!(cube.piece(17), (7, 0));
    assert_eq!(cube.piece(24), (26, 0));
    assert_eq!(cube.piece(25), (17, 0));
    assert_eq!(cube.piece(26), (8, 0));
}

#[test]
fn do_move_is_the_turn_of_the_named_face() {
    let faces: [(&str, (usize, usize, usize, isize)); 6] = [
        ("U", (1, 0, 2, 1)),
        ("D", (1, 2, 0, -1)),
        ("F", (2, 0, 1, -1)),
        ("B", (2, 1, 0, 1)),
        ("L", (0, 1, 2, -1)),
        ("R", (0, 2, 1, 1)),
    ];
    for (name, (fixed, a, b, layer)) in faces {
        let mut by_name = Cube::new();
        by_name.apply_sequence("F R");
        by_name.do_move(name);
        let mut by_axes = Cube::new();
        by_axes.apply_sequence("F R");
        by_axes.rotate(fixed, a, b, layer);
        assert_eq!(by_name, by_axes);
    }
}

#[test]
fn sequence_syntax() {
    assert!(is_valid_sequence("U"));
    assert!(is_valid_sequence("U D' R2"));
    assert!(is_valid_sequence("D' L' B D F' U' R F U2 F R2 U2 F2 D2 L2 F U2 R2 F' D R'"));
    assert!(!is_valid_sequence(""));
    assert!(!is_valid_sequence(" "));
    assert!(!is_valid_sequence("U  D"));
    assert!(!is_valid_sequence("X"));
    assert!(!is_valid_sequence("u"));
    assert!(!is_valid_sequence("U3"));
    assert!(!is_valid_sequence("U2'"));
    assert!(!is_valid_sequence("U "));
    assert!(!is_valid_sequence(" U"));
    assert!(!is_valid_sequence("'"));
    assert!(!is_valid_sequence("2U"));
    assert!(!is_valid_sequence("U\u{e9}"));
}

#[test]
fn modifiers_repeat_the_move() {
    let mut twice = Cube::new();
    twice.apply_sequence("R2");
    let mut by_hand = Cube::new();
    by_hand.do_move("R");
    by_hand.do_move("R");
    assert_eq!(twice, by_hand);

    let mut primed = Cube::new();
    primed.apply_sequence("R'");
    by_hand.do_move("R");
    assert_eq!(primed, by_hand);
    assert_eq!(primed.piece(18), (24, 2));
    assert_eq!(primed.piece(20), (18, 1));
}

#[test]
fn sequence_is_applied_from_left_to_right() {
    let mut all_at_once = Cube::new();
    all_at_once.apply_sequence("F R U' L2");
    let mut step_by_step = Cube::new();
    step_by_step.apply_sequence("F");
    step_by_step.apply_sequence("R");
    step_by_step.apply_sequence("U'");
    step_by_step.apply_sequence("L2");
    assert_eq!(all_at_once, step_by_step);

    let mut reversed = Cube::new();
    reversed.apply_sequence("R F");
    let mut forward = Cube::new();
    forward.apply_sequence("F R");
    assert_ne!(forward, reversed);
}

#[test]
fn origins_stay_a_permutation_after_every_move() {
    let mut cube = Cube::new();
    assert!(origins_form_a_permutation(&cube));
    for token in "D' L' B D F' U' R F U2 F R2 U2 F2 D2 L2 F U2 R2 F' D R'".split(' ') {
        let face = &token[..1];
        cube.do_move(face);
        assert!(origins_form_a_permutation(&cube));
        if token.len() > 1 {
            cube.do_move(face);
            assert!(origins_form_a_permutation(&cube));
            if &token[1..2] == "'" {
                cube.do_move(face);
                assert!(origins_form_a_permutation(&cube));
            }
        }
    }
}

#[test]
fn four_turns_of_a_face_restore_the_cube() {
    for face in ["U", "D", "F", "B", "L", "R"] {
        let mut cube = Cube::new();
        cube.apply_sequence("D' L' B D F' U' R F U2");
        let mut turned = Cube::new();
        turned.apply_sequence("D' L' B D F' U' R F U2");
        turned.do_move(face);
        assert_ne!(turned, cube);
        turned.do_move(face);
        turned.do_move(face);
        turned.do_move(face);
        assert_eq!(turned, cube);
    }
}

#[test]
fn a_move_and_its_inverse_cancel() {
    for face in ["U", "D", "F", "B", "L", "R"] {
        let mut cube = Cube::new();
        cube.apply_sequence("R F' U2 B L D'");
        let mut there_and_back = Cube::new();
        there_and_back.apply_sequence("R F' U2 B L D'");
        there_and_back.apply_sequence(face);
        there_and_back.apply_sequence(&format!("{}'", face));
        assert_eq!(there_and_back, cube);
        there_and_back.apply_sequence(&format!("{}' {}", face, face));
        assert_eq!(there_and_back, cube);
    }
}

#[test]
fn the_core_piece_never_changes() {
    let mut cube = Cube::new();
    for token in "F F B' U D2 L R' F2 B U' D L' R2".split(' ') {
        cube.apply_sequence(token);
        assert_eq!(cube.piece(13), (13, 0));
    }
    for (fixed, a, b, layer) in
        [(1, 0, 2, 1), (1, 2, 0, -1), (2, 0, 1, -1), (2, 1, 0, 1), (0, 1, 2, -1), (0, 2, 1, 1)]
    {
        cube.rotate(fixed, a, b, layer);
        assert_eq!(cube.piece(13), (13, 0));
    }
}

#[test]
fn face_centres_neither_move_nor_turn() {
    let mut cube = Cube::new();
    cube.apply_sequence("D' L' B D F' U' R F U2 F R2 U2 F2 D2 L2 F U2 R2 F' D R'");
    for slot in [4usize, 10, 12, 13, 14, 16, 22] {
        assert_eq!(cube.piece(slot), (slot as u8, 0));
    }
}

#[test]
fn a_turn_about_axis_two_leaves_the_face_centre_unflipped() {
    // F turns the layer z = -1, whose centre is slot 12; B the layer z = 1,
    // whose centre is slot 14.
    let mut cube = Cube::new();
    cube.rotate(2, 0, 1, -1);
    assert_eq!(cube.piece(12), (12, 0));
    assert_eq!(cube.piece(3), (9, 1));
    cube.rotate(2, 1, 0, 1);
    assert_eq!(cube.piece(14), (14, 0));
    assert_eq!(cube.piece(12), (12, 0));
    assert_eq!(cube.piece(5), (17, 1));
}

#[test]
fn long_scramble_reaches_the_known_cube() {
    let mut cube = Cube::new();
    cube.apply_sequence("D' L' B D F' U' R F U2 F R2 U2 F2 D2 L2 F U2 R2 F' D R'");
    let expected: [(u8, u8); 27] = [
        (18, 2),
        (15, 0),
        (24, 2),
        (9, 0),
        (4, 0),
        (21, 1),
        (26, 2),
        (5, 1),
        (2, 1),
        (1, 1),
        (10, 0),
        (23, 1),
        (12, 0),
        (13, 0),
        (14, 0),
        (25, 0),
        (16, 0),
        (17, 0),
        (0, 0),
        (19, 0),
        (20, 2),
        (7, 1),
        (22, 0),
        (11, 0),
        (6, 0),
        (3, 1),
        (8, 0),
    ];
    for slot in 0..27usize {
        assert_eq!(cube.piece(slot), expected[slot]);
    }
}
