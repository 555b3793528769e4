use fpga_place::annealing::{batch_size, metropolis_swap};
use fpga_place::crossover::{crossover_half, derive_pin2coor};
use fpga_place::genetic::{
    crossover, genetic_placement, improve, last_n_equal, mutate, selection, sort_by_cost, sus_select,
    Params,
};
use fpga_place::util::take_2;
use fpga_place::{BLIFInfo, Coor, Placement, Problem};
use rand::rngs::StdRng;
use rand::SeedableRng;

fn is_bijection(p: &Placement) -> bool {
    let problem = p.problem;
    if p.pin2coor.len() != problem.n_pin || p.coor2pin.len() != problem.nx {
        return false;
    }
    let mut seen = 0;
    for x in 0..problem.nx {
        if p.coor2pin[x].len() != problem.ny {
            return false;
        }
        for y in 0..problem.ny {
            if let Some(pin) = p.coor2pin[x][y] {
                if pin >= problem.n_pin || p.pin2coor[pin] != Coor(x, y) {
                    return false;
                }
                seen += 1;
            }
        }
    }
    seen == problem.n_pin
}

/// A netlist of 300 pins on a 50 by 40 grid, with three pins per net.
fn make_fixture() -> Problem {
    let n_pin = 300;
    let mut net_list = Vec::new();
    for k in 0..200usize {
        let a = k % n_pin;
        let b = (k * 7 + 3) % n_pin;
        let c = (k * 13 + 5) % n_pin;
        let mut pins = vec![a];
        if !pins.contains(&b) {
            pins.push(b);
        }
        if !pins.contains(&c) {
            pins.push(c);
        }
        net_list.push((format!("n{}", k), pins));
    }
    let info = BLIFInfo { filename: String::from("fixture"), net_list, n_pin };
    Problem::new(&info, 50, 40).unwrap()
}

fn empty_problem(nx: usize, ny: usize, n_pin: usize) -> Problem {
    let info = BLIFInfo { filename: String::from("empty"), net_list: vec![], n_pin };
    Problem::new(&info, nx, ny).unwrap()
}

#[test]
fn test_selection() {
    let problem = make_fixture();
    let mut rng = StdRng::seed_from_u64(1);
    let mut population: Vec<Placement> = (0..10).map(|_| problem.make_placement(&mut rng)).collect();
    population.iter_mut().for_each(|p| {
        p.cost_mut();
    });
    sort_by_cost(&mut population, &problem);
    let costs: Vec<usize> = population.iter().map(|i| i.cost_panic()).collect();
    println!("{:?}", costs);
    let selected = selection(population, 6, true, &mut rng);
    let picked: Vec<usize> = selected.iter().map(|i| i.cost_panic()).collect();
    println!("{:?}", picked);
    assert!(!picked.is_empty());
    assert!(picked.len() <= 10);
    // the survivors keep the pool's ascending order
    assert!(picked.windows(2).all(|w| w[0] <= w[1]));
    for c in &picked {
        assert!(costs.contains(c));
    }
}

#[test]
fn should_crossover_without_problem() {
    let problem = make_fixture();
    let mut rng = StdRng::seed_from_u64(2);
    let a = problem.make_placement(&mut rng);
    let b = problem.make_placement(&mut rng);
    let mut out = b.clone();
    crossover_half(&a, &b, &mut out, problem.nx / 2, &mut rng);
    assert!(is_bijection(&out));
}

#[test]
fn should_crossover_if_no_overlap() {
    let (nx, ny) = (4, 3);
    let n_pin = 3;
    let problem = empty_problem(nx, ny, n_pin);

    let coor2pin = vec![
        //   y=0      y=1      y=2
        vec![None,    Some(0), None   ], // x=0
        vec![None,    None,    None   ], // x=1
        vec![Some(1), None,    None   ], // x=2
        vec![None,    Some(2), None   ], // x=3
    ];
    let pin2coor = derive_pin2coor(&coor2pin, nx, ny, n_pin);
    let a = Placement { problem: &problem, coor2pin, pin2coor, _cost: None };

    let coor2pin = vec![
        //   y=0      y=1      y=2
        vec![Some(0), None,    None   ], // x=0
        vec![None,    None,    None   ], // x=1
        vec![None,    Some(1), None   ], // x=2
        vec![None,    None,    Some(2)], // x=3
    ];
    let pin2coor = derive_pin2coor(&coor2pin, nx, ny, n_pin);
    let b = Placement { problem: &problem, coor2pin, pin2coor, _cost: None };

    let mut out = b.clone();
    crossover_half(&a, &b, &mut out, 2, &mut StdRng::seed_from_u64(3));

    assert_eq!(&out.coor2pin, &vec![
        //   y=0      y=1      y=2
        vec![None,    Some(0), None   ], // x=0
        vec![None,    None,    None   ], // x=1
        vec![None,    Some(1), None   ], // x=2
        vec![None,    None,    Some(2)], // x=3
    ]);
}

#[test]
fn should_crossover_if_a_left_b_right_do_not_cover_all_pins() {
    let (nx, ny) = (4, 3);
    let n_pin = 3;
    let problem = empty_problem(nx, ny, n_pin);

    let coor2pin = vec![
        //   y=0      y=1      y=2
        vec![None,    Some(0), None   ], // x=0
        vec![None,    None,    None   ], // x=1
        vec![Some(1), None,    None   ], // x=2
        vec![None,    Some(2), None   ], // x=3
    ];
    let pin2coor = derive_pin2coor(&coor2pin, nx, ny, n_pin);
    let a = Placement { problem: &problem, coor2pin, pin2coor, _cost: None };

    let coor2pin = vec![
        //   y=0      y=1      y=2
        vec![Some(0), Some(1), None   ], // x=0
        vec![None,    None,    None   ], // x=1
        vec![None,    None,    None   ], // x=2
        vec![None,    None,    Some(2)], // x=3
    ];
    let pin2coor = derive_pin2coor(&coor2pin, nx, ny, n_pin);
    let b = Placement { problem: &problem, coor2pin, pin2coor, _cost: None };

    let mut out = b.clone();
    crossover_half(&a, &b, &mut out, 2, &mut StdRng::seed_from_u64(4));

    assert_eq!(&out.coor2pin[3][2], &Some(2));
    assert_eq!(&out.coor2pin[0][1], &Some(0));
    assert!(is_bijection(&out));
}

#[test]
fn should_crossover_if_a_left_b_right_have_overlapped_pins() {
    let (nx, ny) = (4, 3);
    let n_pin = 3;
    let problem = empty_problem(nx, ny, n_pin);

    let coor2pin = vec![
        //   y=0      y=1      y=2
        vec![Some(1), Some(0), None   ], // x=0
        vec![None,    None,    None   ], // x=1
        vec![None,    None,    None   ], // x=2
        vec![None,    Some(2), None   ], // x=3
    ];
    let pin2coor = derive_pin2coor(&coor2pin, nx, ny, n_pin);
    let a = Placement { problem: &problem, coor2pin, pin2coor, _cost: None };

    let coor2pin = vec![
        //   y=0      y=1      y=2
        vec![None,    None,    None   ], // x=0
        vec![None,    None,    Some(0)], // x=1
        vec![None,    None,    None   ], // x=2
        vec![None,    Some(1), Some(2)], // x=3
    ];
    let pin2coor = derive_pin2coor(&coor2pin, nx, ny, n_pin);
    let b = Placement { problem: &problem, coor2pin, pin2coor, _cost: None };

    let mut out = b.clone();
    crossover_half(&a, &b, &mut out, 2, &mut StdRng::seed_from_u64(5));

    assert_eq!(&out.coor2pin[0][1], &Some(0));
    assert_eq!(&out.coor2pin[3][1], &Some(1));
    assert_eq!(&out.coor2pin[3][2], &Some(2));
}

#[test]
fn crossover_children_are_bijections_for_every_divide() {
    let problem = make_fixture();
    let mut rng = StdRng::seed_from_u64(6);
    let a = problem.make_placement(&mut rng);
    let b = problem.make_placement(&mut rng);
    for d in 0..=problem.nx {
        let mut out = a.clone();
        crossover_half(&a, &b, &mut out, d, &mut rng);
        assert!(is_bijection(&out));
        assert_eq!(out._cost, None);
    }
    let mut c = a.clone();
    let mut d = b.clone();
    crossover(&a, &b, &mut c, &mut d, &mut rng);
    assert!(is_bijection(&c) && is_bijection(&d));
}

#[test]
fn last_n_equal_looks_at_the_tail() {
    assert!(!last_n_equal(&vec![1, 1], 3));
    assert!(last_n_equal(&vec![4, 2, 2, 2], 3));
    assert!(!last_n_equal(&vec![2, 3, 2, 2], 4));
    assert!(last_n_equal(&vec![5, 5], 2));
}

#[test]
fn sus_select_walks_the_pointers() {
    // running sums 3, 4, 9, 11, 12; pointers at 2, 6, 10, 14
    let picks = sus_select(&vec![3, 1, 5, 2, 1], 2, 4);
    assert_eq!(picks, vec![true, false, true, true, false]);
    // a member spanning two pointers moves the pointer once, so the
    // members after it are picked too
    let picks = sus_select(&vec![10, 1, 1], 0, 3);
    assert_eq!(picks, vec![true, true, true]);
    // zero spacing picks every member whose running sum passes the offset
    let picks = sus_select(&vec![0, 0, 1, 0], 0, 0);
    assert_eq!(picks, vec![false, false, true, true]);
}

#[test]
fn mutate_and_improve_keep_a_bijection() {
    let problem = make_fixture();
    let mut rng = StdRng::seed_from_u64(8);
    let mut p = problem.make_placement(&mut rng);
    p.cost_force();
    mutate(&mut p, &0, &mut rng);
    assert!(is_bijection(&p));
    assert_eq!(p.cost_panic(), p.cost());
    mutate(&mut p, &20_000, &mut rng);
    assert!(is_bijection(&p));
    assert_eq!(p.cost_panic(), p.cost());
    for _ in 0..20 {
        let q = p.clone();
        if let Some(r) = improve(q, &mut rng) {
            assert!(is_bijection(&r));
            assert_eq!(r.cost_panic(), r.cost());
        }
    }
}

#[test]
fn take_2_draws_distinct_positions() {
    let v: Vec<usize> = (0..5).collect();
    let mut rng = StdRng::seed_from_u64(9);
    for _ in 0..50 {
        let (a, b) = take_2(&v, &mut rng);
        assert!(a != b && a < 5 && b < 5);
    }
}

#[test]
fn genetic_loop_stops_on_a_plateau() {
    let info = BLIFInfo {
        filename: String::from("one_pin"),
        net_list: vec![(String::from("only"), vec![0])],
        n_pin: 1,
    };
    let problem = Problem::new(&info, 2, 2).unwrap();
    let params = Params {
        n_generation: 1_000_000,
        n_population: 6,
        n_elite: 2,
        n_select: 4,
        n_crossover: 1,
        p_mutation_ppm: 500_000,
    };
    let run = genetic_placement(&problem, &params, &mut StdRng::seed_from_u64(10));
    assert_eq!(run.generations, 9000);
    assert_eq!(run.best_costs, vec![0; 10]);
    assert!(run.population.len() > params.n_elite);
}

#[test]
fn genetic_loop_runs_to_the_generation_limit() {
    let problem = make_fixture();
    let params = Params {
        n_generation: 30,
        n_population: 12,
        n_elite: 2,
        n_select: 8,
        n_crossover: 2,
        p_mutation_ppm: 500_000,
    };
    let run = genetic_placement(&problem, &params, &mut StdRng::seed_from_u64(11));
    assert_eq!(run.generations, 31);
    assert_eq!(run.best_costs.len(), 1);
    let costs: Vec<usize> = run.population.iter().map(|p| p.cost_panic()).collect();
    assert!(costs.windows(2).all(|w| w[0] <= w[1]));
    for p in &run.population {
        assert!(is_bijection(p));
        assert_eq!(p.cost_panic(), p.cost());
    }
}

#[test]
fn batch_size_is_floor_of_hundred_n_to_four_thirds() {
    assert_eq!(batch_size(0), 0);
    assert_eq!(batch_size(1), 100);
    assert_eq!(batch_size(8), 1600);
    assert_eq!(batch_size(27), 8100);
    assert_eq!(batch_size(1000), 1_000_000);
    // 100 * 2^(4/3) = 251.98...
    assert_eq!(batch_size(2), 251);
}

#[test]
fn metropolis_keeps_improving_swaps_and_reverts_rejected_ones() {
    let info = BLIFInfo {
        filename: String::from("two_nets"),
        net_list: vec![(String::from("0"), vec![0, 1]), (String::from("1"), vec![0, 2])],
        n_pin: 3,
    };
    let problem = Problem::new(&info, 4, 3).unwrap();
    let grid = vec![
        vec![Some(0), None, None],
        vec![None, None, None],
        vec![None, Some(1), None],
        vec![None, None, Some(2)],
    ];
    let mut p = Placement { problem: &problem, coor2pin: grid.clone(), pin2coor: vec![Coor(0, 0), Coor(2, 1), Coor(3, 2)], _cost: None };
    p.cost_force();
    // moving pin 0 next to pin 2 lowers the two cells' costs from 8 to 2
    assert_eq!(metropolis_swap(&mut p, Coor(0, 0), Coor(3, 1), 1), Some(-6));
    assert_eq!(p.cost_panic(), 2);
    // moving it back raises them by 6: rejected at a tolerance of 6
    assert_eq!(metropolis_swap(&mut p, Coor(3, 1), Coor(0, 0), 6), None);
    assert_eq!(p.pin2coor, vec![Coor(3, 1), Coor(2, 1), Coor(3, 2)]);
    assert_eq!(p.cost_panic(), 2);
    // and kept above it
    assert_eq!(metropolis_swap(&mut p, Coor(3, 1), Coor(0, 0), 7), Some(6));
    assert_eq!(p.coor2pin, grid);
    assert_eq!(p.cost_panic(), 8);
}

#[test]
fn derive_pin2coor_reads_the_grid() {
    let coor2pin = vec![vec![None, Some(2)], vec![Some(0), None], vec![None, Some(1)]];
    assert_eq!(derive_pin2coor(&coor2pin, 3, 2, 3), vec![Coor(1, 0), Coor(2, 1), Coor(0, 1)]);
}

#[test]
fn zero_temperature_trials_end_in_a_local_optimum() {
    let problem = make_fixture();
    let mut rng = StdRng::seed_from_u64(12);
    let mut sol = problem.make_placement(&mut rng);
    let start = sol.cost_force();
    // at zero temperature a trial is kept only when it does not raise the cost
    let mut last = start;
    for _ in 0..200_000 {
        let (ca, cb) = take_2(&problem.coors, &mut rng);
        if let Some(delta) = metropolis_swap(&mut sol, ca, cb, 1) {
            assert!(delta <= 0);
            let now = sol.cost_panic();
            assert_eq!(now as i128, last as i128 + delta);
            last = now;
        }
    }
    assert!(last < start);
    assert_eq!(sol.cost(), last);
    // a sample of single swaps finds few that lower the cost
    let mut lowering = 0;
    for _ in 0..2_000 {
        let (ca, cb) = take_2(&problem.coors, &mut rng);
        if metropolis_swap(&mut sol, ca, cb, 0).is_some() {
            lowering += 1;
        }
    }
    assert!(lowering < 20, "{} lowering swaps", lowering);
}
