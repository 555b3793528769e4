use fpga_place::{make_coors, BLIFInfo, BoundBox, Coor, Problem, ProblemError};

#[test]
fn make_coors_lists_every_cell_x_major() {
    let coors = make_coors(2, 3);
    assert_eq!(
        coors,
        vec![Coor(0, 0), Coor(0, 1), Coor(0, 2), Coor(1, 0), Coor(1, 1), Coor(1, 2)]
    );
    assert!(make_coors(0, 5).is_empty());
}

#[test]
fn problem_inverts_the_net_list() {
    let blif = BLIFInfo {
        filename: String::from("inv"),
        net_list: vec![
            (String::from("n0"), vec![0, 1]),
            (String::from("n1"), vec![2]),
            (String::from("n2"), vec![1, 2, 0]),
        ],
        n_pin: 4,
    };
    let problem = Problem::new(&blif, 2, 2).unwrap();
    assert_eq!(problem.n_pin, 4);
    assert_eq!(problem.coors.len(), 4);
    let ids: Vec<usize> = problem.nets.iter().map(|n| n.id).collect();
    assert_eq!(ids, vec![0, 1, 2]);
    assert_eq!(problem.nets[2].name, "n2");
    assert_eq!(problem.pins[0].net_ids, vec![0, 2]);
    assert_eq!(problem.pins[1].net_ids, vec![0, 2]);
    assert_eq!(problem.pins[2].net_ids, vec![1, 2]);
    assert!(problem.pins[3].net_ids.is_empty());
    assert_eq!(problem.pins[3].id, 3);
}

#[test]
fn problem_rejects_more_pins_than_cells() {
    let blif = BLIFInfo { filename: String::from("full"), net_list: vec![], n_pin: 7 };
    assert!(matches!(Problem::new(&blif, 2, 3), Err(ProblemError::Capacity)));
    let blif = BLIFInfo { filename: String::from("fits"), net_list: vec![], n_pin: 6 };
    assert!(Problem::new(&blif, 2, 3).is_ok());
}

#[test]
fn bound_box_tracks_extremes() {
    let mut bb = BoundBox::new();
    assert!(!bb.initialized);
    bb.add_coor(Coor(3, 1));
    assert_eq!(bb.half_perimeter(), 0);
    bb.add_coor(Coor(1, 4));
    assert_eq!((bb.left, bb.right, bb.top, bb.bottom), (1, 3, 1, 4));
    assert_eq!(bb.half_perimeter(), 5);
    bb.add_coor(Coor(2, 2));
    assert_eq!(bb.half_perimeter(), 5);
    bb.add_coor(Coor(0, 0));
    assert_eq!(bb.half_perimeter(), 7);
}
