use cubebits::cube::Cube;

#[test]
fn r_cycles_four_corners_and_four_edges() {
    let mut cube = Cube::new();
    cube.apply_sequence("R");
    // The layer x = 1 holds the slots 18..27; everything else stays.
    for slot in 0..18usize {
        assert_eq!(cube.piece(slot), (slot as u8, 0));
    }
    // Corners: twisted by one or two thirds.
    assert_eq!(cube.piece(18), (20, 2));
    assert_eq!(cube.piece(20), (26, 1));
    assert_eq!(cube.piece(26), (24, 2));
    assert_eq!(cube.piece(24), (18, 1));
    // Edges: moved, not flipped.
    assert_eq!(cube.piece(19), (23, 0));
    assert_eq!(cube.piece(23), (25, 0));
    assert_eq!(cube.piece(25), (21, 0));
    assert_eq!(cube.piece(21), (19, 0));
    // The face centre.
    assert_eq!(cube.piece(22), (22, 0));

    let cycles: Vec<Vec<usize>> =
        cube.extract_cycles().into_iter().map(|c| c.0).filter(|c| c.len() > 1).collect();
    assert_eq!(cycles, vec![vec![18, 20, 26, 24], vec![19, 23, 25, 21]]);
}

#[test]
fn u_and_d_turn_separate_layers() {
    let mut cube = Cube::new();
    cube.apply_sequence("U D");
    let top = [6usize, 7, 8, 15, 16, 17, 24, 25, 26];
    let middle = [3usize, 4, 5, 12, 13, 14, 21, 22, 23];
    let bottom = [0usize, 1, 2, 9, 10, 11, 18, 19, 20];
    for slot in middle {
        assert_eq!(cube.piece(slot), (slot as u8, 0));
    }
    let cycles: Vec<Vec<usize>> =
        cube.extract_cycles().into_iter().map(|c| c.0).filter(|c| c.len() > 1).collect();
    assert_eq!(
        cycles,
        vec![vec![0, 2, 20, 18], vec![1, 11, 19, 9], vec![6, 24, 26, 8], vec![7, 15, 25, 17]]
    );
    for cycle in &cycles {
        let in_top = cycle.iter().all(|s| top.contains(s));
        let in_bottom = cycle.iter().all(|s| bottom.contains(s));
        assert!(in_top != in_bottom);
    }
    for i in 0..cycles.len() {
        for j in (i + 1)..cycles.len() {
            assert!(cycles[i].iter().all(|s| !cycles[j].contains(s)));
        }
    }
    // The two turns do not interact: either order gives the same cube.
    let mut other_order = Cube::new();
    other_order.apply_sequence("D U");
    assert_eq!(cube, other_order);
}
