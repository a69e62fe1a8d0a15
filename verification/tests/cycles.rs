use cubebits::cube::Cube;
use cubebits::cycles::Cycle;
use cubebits::transposition::bit_map;

fn slots(cycles: &[Cycle]) -> Vec<Vec<usize>> {
    cycles.iter().map(|c| c.0.clone()).collect()
}

#[test]
fn solved_cube_has_27_fixed_slots() {
    let cycles = Cube::new().extract_cycles();
    assert_eq!(cycles.len(), 27);
    for (slot, cycle) in cycles.iter().enumerate() {
        assert_eq!(cycle.0, vec![slot]);
    }
}

#[test]
fn cycles_partition_the_slots() {
    let mut cube = Cube::new();
    cube.apply_sequence("D' L' B D F' U' R F U2 F R2 U2 F2 D2 L2 F U2 R2 F' D R'");
    let cycles = cube.extract_cycles();
    let mut count = [0usize; 27];
    for cycle in &cycles {
        assert!(!cycle.0.is_empty());
        for slot in &cycle.0 {
            assert!(*slot < 27);
            count[*slot] += 1;
        }
    }
    assert_eq!(count, [1usize; 27]);
}

#[test]
fn cycles_follow_the_origins_and_close() {
    let mut cube = Cube::new();
    cube.apply_sequence("D' L' B D F' U' R F U2 F R2 U2 F2 D2 L2 F U2 R2 F' D R'");
    let cycles = cube.extract_cycles();
    for cycle in &cycles {
        let n = cycle.0.len();
        for k in 0..n {
            let next = cycle.0[(k + 1) % n];
            assert_eq!(cube.piece(cycle.0[k]).0 as usize, next);
        }
    }
}

#[test]
fn cycles_come_lowest_slot_first() {
    let mut cube = Cube::new();
    cube.apply_sequence("D' L' B D F' U' R F U2 F R2 U2 F2 D2 L2 F U2 R2 F' D R'");
    let cycles = cube.extract_cycles();
    assert_eq!(
        slots(&cycles),
        vec![
            vec![0, 18],
            vec![1, 15, 25, 3, 9],
            vec![2, 24, 6, 26, 8],
            vec![4],
            vec![5, 21, 7],
            vec![10],
            vec![11, 23],
            vec![12],
            vec![13],
            vec![14],
            vec![16],
            vec![17],
            vec![19],
            vec![20],
            vec![22],
        ]
    );
}

#[test]
fn bit_map_is_the_fixed_table() {
    let corners: [(usize, usize); 8] =
        [(0, 99), (2, 94), (6, 89), (8, 84), (18, 79), (20, 74), (24, 69), (26, 64)];
    let edges: [(usize, usize); 12] = [
        (1, 55),
        (3, 50),
        (5, 45),
        (7, 40),
        (9, 35),
        (11, 30),
        (15, 25),
        (17, 20),
        (19, 15),
        (21, 10),
        (23, 5),
        (25, 0),
    ];
    for (slot, offset) in corners {
        assert_eq!(bit_map(slot), offset);
    }
    for (slot, offset) in edges {
        assert_eq!(bit_map(slot), offset);
    }
}

#[test]
fn a_fixed_slot_yields_no_transposition() {
    assert_eq!(Cycle(vec![13]).into_transposition(), Vec::<(usize, isize)>::new());
    assert_eq!(Cycle(vec![0]).into_transposition(), Vec::<(usize, isize)>::new());
}

#[test]
fn a_pair_of_slots_yields_two_transpositions() {
    // Slots 18 and 26 have their fields at bits 79 and 64.
    assert_eq!(Cycle(vec![18, 26]).into_transposition(), vec![(64, 15), (79, -15)]);
}

#[test]
fn transpositions_wrap_from_the_last_slot_to_the_first() {
    assert_eq!(
        Cycle(vec![18, 20, 26, 24]).into_transposition(),
        vec![(74, 5), (64, 10), (69, -5), (79, -10)]
    );
    assert_eq!(
        Cycle(vec![1, 15, 25, 3, 9]).into_transposition(),
        vec![(25, 30), (0, 25), (50, -50), (35, 15), (55, -20)]
    );
}

#[test]
fn transpositions_of_a_cube_run_cycle_by_cycle() {
    let mut cube = Cube::new();
    cube.apply_sequence("R");
    assert_eq!(
        cube.transpositions(),
        vec![(74, 5), (64, 10), (69, -5), (79, -10), (5, 10), (0, 5), (10, -10), (15, -5)]
    );
    assert_eq!(Cube::new().transpositions(), Vec::<(usize, isize)>::new());
}

#[test]
fn transpositions_are_those_of_the_extracted_cycles() {
    let mut cube = Cube::new();
    cube.apply_sequence("D' L' B D F' U' R F U2 F R2 U2 F2 D2 L2 F U2 R2 F' D R'");
    let mut flat: Vec<(usize, isize)> = Vec::new();
    for cycle in cube.extract_cycles() {
        flat.extend(cycle.into_transposition());
    }
    assert_eq!(cube.transpositions(), flat);
    assert_eq!(
        flat,
        vec![
            (79, 20),
            (99, -20),
            (25, 30),
            (0, 25),
            (50, -50),
            (35, 15),
            (55, -20),
            (69, 25),
            (89, -20),
            (64, 25),
            (84, -20),
            (94, -10),
            (10, 35),
            (40, -30),
            (45, -5),
            (5, 25),
            (30, -25),
        ]
    );
}
