use fpga_place::{BLIFInfo, Coor, Placement, Problem};
use rand::SeedableRng;

fn two_net_problem() -> Problem {
    let blif = BLIFInfo {
        filename: String::from("two_nets"),
        net_list: vec![
            (String::from("0"), vec![0, 1]),
            (String::from("1"), vec![0, 2]),
        ],
        n_pin: 3,
    };
    Problem::new(&blif, 4, 3).unwrap()
}

fn fixture_grid() -> Vec<Vec<Option<usize>>> {
    vec![
        //   y=0      y=1      y=2
        vec![Some(0), None, None],    // x=0
        vec![None, None, None],       // x=1
        vec![None, Some(1), None],    // x=2
        vec![None, None, Some(2)],    // x=3
    ]
}

#[test]
fn placement_it_should_swap_correctly() {
    let problem = two_net_problem();
    assert_eq!((problem.nx, problem.ny), (4, 3));
    let coor2pin = fixture_grid();
    let pin2coor = vec![Coor(0, 0), Coor(2, 1), Coor(3, 2)];
    let mut p = Placement { problem: &problem, coor2pin, pin2coor, _cost: None };

    p.swap(Coor(0, 0), Coor(2, 1));
    assert_eq!(p.coor2pin[0][0], Some(1));
    assert_eq!(p.coor2pin[2][1], Some(0));
    assert_eq!(p.pin2coor, vec![Coor(2, 1), Coor(0, 0), Coor(3, 2)]);
    p.swap(Coor(0, 0), Coor(2, 1));

    p.swap(Coor(0, 0), Coor(1, 0));
    assert_eq!(p.coor2pin[0][0], None);
    assert_eq!(p.coor2pin[1][0], Some(0));
    assert_eq!(p.pin2coor, vec![Coor(1, 0), Coor(2, 1), Coor(3, 2)]);
    p.swap(Coor(0, 0), Coor(1, 0));

    p.swap(Coor(3, 1), Coor(0, 0));
    assert_eq!(p.coor2pin[3][1], Some(0));
    assert_eq!(p.coor2pin[1][0], None);
    assert_eq!(p.pin2coor, vec![Coor(3, 1), Coor(2, 1), Coor(3, 2)]);
}

#[test]
fn placement_should_calculate_cost_correctly() {
    let problem = two_net_problem();
    let coor2pin = fixture_grid();
    let pin2coor = vec![Coor(0, 0), Coor(2, 1), Coor(3, 2)];
    let mut p = Placement { problem: &problem, coor2pin, pin2coor, _cost: None };

    assert_eq!(p.cost_mut(), 8);

    p.swap(Coor(0, 0), Coor(2, 1));
    assert_eq!(p.cost_mut(), 5);
    p.swap(Coor(0, 0), Coor(2, 1));

    p.swap(Coor(0, 0), Coor(1, 0));
    assert_eq!(p.cost_mut(), 6);
    p.swap(Coor(0, 0), Coor(1, 0));

    p.swap(Coor(3, 1), Coor(0, 0));
    assert_eq!(p.cost_mut(), 2);
}

#[test]
fn cached_cost_tracks_full_recomputation() {
    let problem = two_net_problem();
    let mut p = Placement { problem: &problem, coor2pin: fixture_grid(), pin2coor: vec![Coor(0, 0), Coor(2, 1), Coor(3, 2)], _cost: None };
    p.cost_force();
    let moves = [
        (Coor(0, 0), Coor(2, 1)),
        (Coor(3, 2), Coor(1, 1)),
        (Coor(0, 2), Coor(0, 0)),
        (Coor(2, 1), Coor(2, 1)),
        (Coor(1, 1), Coor(2, 0)),
        (Coor(0, 1), Coor(0, 2)),
    ];
    for (a, b) in moves.iter() {
        p.swap(*a, *b);
        assert_eq!(p.cost_panic(), p.cost());
    }
}

#[test]
fn swap_twice_restores_both_maps() {
    let problem = two_net_problem();
    let mut p = Placement { problem: &problem, coor2pin: fixture_grid(), pin2coor: vec![Coor(0, 0), Coor(2, 1), Coor(3, 2)], _cost: None };
    for (a, b) in [(Coor(0, 0), Coor(2, 1)), (Coor(0, 0), Coor(1, 0)), (Coor(1, 0), Coor(1, 1)), (Coor(3, 2), Coor(3, 2))] {
        p.swap(a, b);
        p.swap(a, b);
        assert_eq!(p.coor2pin, fixture_grid());
        assert_eq!(p.pin2coor, vec![Coor(0, 0), Coor(2, 1), Coor(3, 2)]);
    }
}

#[test]
fn cell_cost_sums_the_nets_of_the_pin() {
    let problem = two_net_problem();
    let p = Placement { problem: &problem, coor2pin: fixture_grid(), pin2coor: vec![Coor(0, 0), Coor(2, 1), Coor(3, 2)], _cost: None };
    // pin 0 is in both nets: 3 + 5
    assert_eq!(p.cell_cost(Coor(0, 0)), 8);
    assert_eq!(p.cell_cost(Coor(2, 1)), 3);
    assert_eq!(p.cell_cost(Coor(3, 2)), 5);
    assert_eq!(p.cell_cost(Coor(1, 1)), 0);
    assert_eq!(p.cost(), 8);
}

#[test]
fn cost_is_zero_when_each_net_shares_one_cell() {
    let blif = BLIFInfo {
        filename: String::from("singles"),
        net_list: vec![(String::from("a"), vec![0]), (String::from("b"), vec![1])],
        n_pin: 2,
    };
    let problem = Problem::new(&blif, 3, 3).unwrap();
    let grid = vec![vec![Some(0), None, None], vec![None, None, None], vec![None, None, Some(1)]];
    let p = Placement { problem: &problem, coor2pin: grid, pin2coor: vec![Coor(0, 0), Coor(2, 2)], _cost: None };
    assert_eq!(p.cost(), 0);
}

#[test]
fn random_placement_is_a_bijection() {
    let problem = two_net_problem();
    let mut rng = rand::rngs::StdRng::seed_from_u64(7);
    for _ in 0..20 {
        let p = problem.make_placement(&mut rng);
        assert_eq!(p._cost, None);
        let mut seen = 0;
        for x in 0..4 {
            for y in 0..3 {
                if let Some(pin) = p.coor2pin[x][y] {
                    assert_eq!(p.pin2coor[pin], Coor(x, y));
                    seen += 1;
                }
            }
        }
        assert_eq!(seen, 3);
    }
}
