//! A placement: the pin and cell maps with a cached total cost.

use vstd::prelude::*;

use rand::rngs::StdRng;

use crate::bound_box::{lemma_half_perimeter_bounds, BoundBox};
use crate::cost::{
    lemma_nets_cost_bounds, lemma_total_cost_bounds, net_coors, net_cost, nets_cost, total_cost,
};
use crate::layout::{
    at, cell_cost_of, empty_grid, grid_of, layout_ok, lemma_incident_below, lemma_swap_cost,
    lemma_set_at_all, lemma_swap_grid_at, lemma_swap_layout, set_at, swap_grid, swap_p2c, Grid,
};
use crate::problem::{lemma_grid_coors, Problem};
use crate::random::sample_indices;
use crate::typing::{Coor, PinID};

verus! {

/// One candidate solution: a bijection between the pins and some cells of
/// the grid, held both ways, with an optional cache of its total cost.
#[derive(Clone)]
pub struct Placement<'a> {
    pub problem: &'a Problem,
    pub pin2coor: Vec<Coor>,
    pub coor2pin: Vec<Vec<Option<PinID>>>,
    pub _cost: Option<usize>,
}

impl<'a> Placement<'a> {
    /// The occupancy grid as a sequence of rows.
    pub open spec fn grid(&self) -> Grid {
        grid_of(self.coor2pin@)
    }

    /// The two maps form a bijection over a well-formed problem.
    pub open spec fn layout_wf(&self) -> bool {
        &&& self.problem.wf()
        &&& layout_ok(
            self.pin2coor@,
            self.grid(),
            self.problem.nx as int,
            self.problem.ny as int,
            self.problem.n_pin as int,
        )
    }

    /// Total half-perimeter wirelength over all nets.
    pub open spec fn spec_cost(&self) -> int {
        total_cost(self.problem.netlist(), self.pin2coor@)
    }

    /// Wirelength of the nets of the pin at `c`; zero for an empty cell.
    pub open spec fn spec_cell_cost(&self, c: Coor) -> int {
        cell_cost_of(self.problem.netlist(), self.pin2coor@, self.grid(), c)
    }

    /// A bijection whose cached cost, when present, is the total cost.
    pub open spec fn wf(&self) -> bool {
        &&& self.layout_wf()
        &&& self._cost matches Some(c) ==> c == self.spec_cost()
    }

    pub open spec fn on_grid(&self, c: Coor) -> bool {
        c.in_grid(self.problem.nx as int, self.problem.ny as int)
    }

    /// A random placement: `n_pin` distinct cells drawn without replacement,
    /// pin `i` on the `i`-th, and no cached cost.
    pub fn new(problem: &'a Problem, rng: &mut StdRng) -> (r: Self)
        requires
            problem.wf(),
        ensures
            r.wf(),
            r.problem == problem,
            r._cost is None,
    {
        let nx = problem.nx;
        let ny = problem.ny;
        let n_pin = problem.n_pin;
        proof {
            lemma_grid_coors(nx, ny);
        }
        let picks = sample_indices(rng, problem.coors.len(), n_pin);

        let mut grid = empty_grid(nx, ny);

        let mut cell_assignment: Vec<Coor> = Vec::new();
        for i_pin in 0..n_pin
            invariant
                problem.wf(),
                nx == problem.nx,
                ny == problem.ny,
                n_pin == problem.n_pin,
                picks.len() == n_pin,
                forall|i: int| 0 <= i < picks.len() ==> #[trigger] picks@[i] < problem.coors.len(),
                picks@.no_duplicates(),
                forall|i: int| 0 <= i < nx * ny ==> (#[trigger] problem.coors@[i]).in_grid(nx as int, ny as int),
                forall|i: int, j: int|
                    0 <= i < nx * ny && 0 <= j < nx * ny && i != j ==> #[trigger] problem.coors@[i]
                        != #[trigger] problem.coors@[j],
                cell_assignment.len() == i_pin,
                forall|k: int| 0 <= k < i_pin ==> #[trigger] cell_assignment@[k] == problem.coors@[picks@[k] as int],
                layout_ok(
                    cell_assignment@,
                    grid_of(grid@),
                    nx as int,
                    ny as int,
                    i_pin as int,
                ),
        {
            let ghost g0 = grid_of(grid@);
            let coor = problem.coors[picks[i_pin]];
            assert(coor.in_grid(nx as int, ny as int));
            assert(at(g0, coor) is None) by {
                if at(g0, coor) is Some {
                    let p = at(g0, coor)->Some_0 as int;
                    assert(cell_assignment@[p] == coor);
                    assert(picks@[p] != picks@[i_pin as int]);
                }
            }
            grid[coor.0][coor.1] = Some(i_pin);
            cell_assignment.push(coor);
            proof {
                let g1 = grid_of(grid@);
                assert(g1 =~= set_at(g0, coor, Some(i_pin)));
                lemma_set_at_all(g0, coor, Some(i_pin), nx as int, ny as int);
                assert forall|p: int| 0 <= p < i_pin + 1 implies (#[trigger] cell_assignment@[p]).in_grid(
                    nx as int,
                    ny as int,
                ) && at(g1, cell_assignment@[p]) == Some(p as usize) by {
                    if p < i_pin {
                        assert(at(g0, cell_assignment@[p]) == Some(p as usize));
                    }
                }
            }
        }
        let r = Placement { problem, coor2pin: grid, pin2coor: cell_assignment, _cost: None };
        assert(r.grid() == grid_of(grid@));
        r
    }

    /// Wirelength of one net of the problem.
    fn net_half_perimeter(&self, pins: &Vec<PinID>) -> (r: usize)
        requires
            self.layout_wf(),
            pins.len() > 0,
            forall|j: int| 0 <= j < pins.len() ==> #[trigger] pins@[j] < self.problem.n_pin,
            self.problem.nx + self.problem.ny <= usize::MAX,
        ensures
            r == net_cost(pins@, self.pin2coor@),
    {
        let ghost p2c = self.pin2coor@;
        let mut bb = BoundBox::new();
        for j in 0..pins.len()
            invariant
                self.layout_wf(),
                p2c == self.pin2coor@,
                forall|j: int| 0 <= j < pins.len() ==> #[trigger] pins@[j] < self.problem.n_pin,
                bb.wf(),
                bb.models(net_coors(pins@.subrange(0, j as int), p2c)),
        {
            let ghost before = net_coors(pins@.subrange(0, j as int), p2c);
            let pin = pins[j];
            bb.add_coor(self.pin2coor[pin]);
            assert(net_coors(pins@.subrange(0, j as int + 1), p2c) =~= before.push(p2c[pin as int]));
        }
        let ghost cs = net_coors(pins@, p2c);
        assert(pins@.subrange(0, pins.len() as int) =~= pins@);
        proof {
            let nx = self.problem.nx as int;
            let ny = self.problem.ny as int;
            assert forall|i: int| 0 <= i < cs.len() implies (#[trigger] cs[i]).in_grid(nx, ny) by {
                assert(cs[i] == p2c[pins@[i] as int]);
            }
            lemma_half_perimeter_bounds(cs, nx, ny);
        }
        bb.half_perimeter()
    }

    /// Total cost recomputed from scratch over every net; the cache is
    /// neither read nor written.
    pub fn cost(&self) -> (r: usize)
        requires
            self.layout_wf(),
        ensures
            r == self.spec_cost(),
    {
        let problem = self.problem;
        let ghost nl = problem.netlist();
        let ghost p2c = self.pin2coor@;
        proof {
            problem.lemma_bounds();
        }
        let mut hp_cost: usize = 0;
        for i in 0..problem.nets.len()
            invariant
                self.layout_wf(),
                problem == self.problem,
                nl == problem.netlist(),
                p2c == self.pin2coor@,
                nl.len() == problem.nets.len(),
                problem.nets.len() * (problem.nx + problem.ny) <= usize::MAX,
                problem.nets.len() > 0 ==> problem.nx + problem.ny <= usize::MAX,
                hp_cost == total_cost(nl.subrange(0, i as int), p2c),
        {
            let net = &problem.nets[i];
            assert(net.pins@ == nl[i as int]);
            assert forall|j: int| 0 <= j < net.pins.len() implies #[trigger] net.pins@[j] < problem.n_pin by {
                assert(nl[i as int][j] < problem.n_pin);
            }
            let h = self.net_half_perimeter(&net.pins);
            proof {
                let sub = nl.subrange(0, i as int + 1);
                assert(sub.drop_last() =~= nl.subrange(0, i as int));
                assert forall|a: int, b: int| 0 <= a < sub.len() && 0 <= b < sub[a].len() implies #[trigger] sub[a][b]
                    < p2c.len() by {
                    assert(sub[a] == nl[a]);
                }
                lemma_total_cost_bounds(sub, p2c, problem.nx as int, problem.ny as int);
                assert((i + 1) * (problem.nx + problem.ny) <= problem.nets.len() * (problem.nx + problem.ny))
                    by (nonlinear_arith)
                    requires i + 1 <= problem.nets.len();
            }
            hp_cost = hp_cost + h;
        }
        assert(nl.subrange(0, nl.len() as int) =~= nl);
        hp_cost
    }

    /// Recomputes the total cost and caches it.
    pub fn cost_force(&mut self) -> (r: usize)
        requires
            old(self).layout_wf(),
        ensures
            r == old(self).spec_cost(),
            final(self).wf(),
            final(self)._cost == Some(r),
            final(self).problem == old(self).problem,
            final(self).pin2coor == old(self).pin2coor,
            final(self).coor2pin == old(self).coor2pin,
    {
        let hp_cost = self.cost();
        self._cost = Some(hp_cost);
        hp_cost
    }

    /// The cached total cost, computed and cached first when absent.
    pub fn cost_mut(&mut self) -> (r: usize)
        requires
            old(self).wf(),
        ensures
            r == old(self).spec_cost(),
            final(self).wf(),
            final(self)._cost == Some(r),
            final(self).problem == old(self).problem,
            final(self).pin2coor == old(self).pin2coor,
            final(self).coor2pin == old(self).coor2pin,
    {
        if let Some(cost) = self._cost {
            return cost;
        }
        self.cost_force()
    }

    /// The cached total cost; it must be present.
    pub fn cost_panic(&self) -> (r: usize)
        requires
            self.wf(),
            self._cost is Some,
        ensures
            r == self.spec_cost(),
    {
        self._cost.unwrap()
    }

    /// Sum of the wirelengths of the nets of the pin at `coor`, each from
    /// the current cells of its pins; zero for an empty cell.
    pub fn cell_cost(&self, coor: Coor) -> (r: usize)
        requires
            self.layout_wf(),
            self.on_grid(coor),
        ensures
            r == self.spec_cell_cost(coor),
    {
        let problem = self.problem;
        let ghost nl = problem.netlist();
        let ghost p2c = self.pin2coor@;
        proof {
            problem.lemma_bounds();
        }
        assert(self.coor2pin@[coor.0 as int]@[coor.1 as int] == at(self.grid(), coor));
        if let Some(pin) = self.coor2pin[coor.0][coor.1] {
            assert(pin < problem.n_pin);
            let net_ids = &problem.pins[pin].net_ids;
            let ghost ids = crate::cost::incident(nl, pin);
            assert(net_ids@ == ids);
            proof {
                lemma_incident_below(nl, pin);
            }
            let mut hp_cost: usize = 0;
            for k in 0..net_ids.len()
                invariant
                    self.layout_wf(),
                    problem == self.problem,
                    nl == problem.netlist(),
                    p2c == self.pin2coor@,
                    nl.len() == problem.nets.len(),
                    net_ids@ == ids,
                    forall|k: int| 0 <= k < ids.len() ==> #[trigger] ids[k] < nl.len(),
                    ids.len() * (problem.nx + problem.ny) <= usize::MAX,
                    problem.nets.len() > 0 ==> problem.nx + problem.ny <= usize::MAX,
                    hp_cost == nets_cost(nl, ids.subrange(0, k as int), p2c),
            {
                let net_id = net_ids[k];
                let net = &problem.nets[net_id];
                assert(net.pins@ == nl[net_id as int]);
                assert forall|j: int| 0 <= j < net.pins.len() implies #[trigger] net.pins@[j] < problem.n_pin by {
                    assert(nl[net_id as int][j] < problem.n_pin);
                }
                let h = self.net_half_perimeter(&net.pins);
                proof {
                    let sub = ids.subrange(0, k as int + 1);
                    assert(sub.drop_last() =~= ids.subrange(0, k as int));
                    assert forall|a: int| 0 <= a < sub.len() implies #[trigger] sub[a] < nl.len() by {
                        assert(sub[a] == ids[a]);
                    }
                    lemma_nets_cost_bounds(nl, sub, p2c, problem.nx as int, problem.ny as int);
                    assert((k + 1) * (problem.nx + problem.ny) <= ids.len() * (problem.nx + problem.ny))
                        by (nonlinear_arith)
                        requires k + 1 <= ids.len();
                }
                hp_cost = hp_cost + h;
            }
            assert(ids.subrange(0, ids.len() as int) =~= ids);
            hp_cost
        } else {
            0
        }
    }

    /// Exchanges the occupants (a pin or nothing) of two cells, keeping both
    /// maps consistent, and updates a cached total cost by the change of the
    /// two cells' costs.
    pub fn swap(&mut self, ca: Coor, cb: Coor)
        requires
            old(self).wf(),
            old(self).on_grid(ca),
            old(self).on_grid(cb),
        ensures
            final(self).wf(),
            final(self).problem == old(self).problem,
            final(self).pin2coor@ == swap_p2c(old(self).pin2coor@, old(self).grid(), ca, cb),
            final(self).grid() == swap_grid(old(self).grid(), ca, cb),
            final(self).spec_cost() == old(self).spec_cost() - old(self).spec_cell_cost(ca)
                - old(self).spec_cell_cost(cb) + final(self).spec_cell_cost(ca) + final(self).spec_cell_cost(cb),
            final(self)._cost is Some <==> old(self)._cost is Some,
            old(self)._cost matches Some(c) ==> final(self)._cost == Some(
                (c - old(self).spec_cell_cost(ca) - old(self).spec_cell_cost(cb) + final(self).spec_cell_cost(ca)
                    + final(self).spec_cell_cost(cb)) as usize,
            ),
    {
        let ghost g0 = self.grid();
        let ghost p2c_before = self.pin2coor@;
        let ghost nx = self.problem.nx as int;
        let ghost ny = self.problem.ny as int;
        let before = self.cell_cost(ca) as u128 + self.cell_cost(cb) as u128;

        assert(self.coor2pin@[ca.0 as int]@[ca.1 as int] == at(g0, ca));
        assert(self.coor2pin@[cb.0 as int]@[cb.1 as int] == at(g0, cb));
        let pa = self.coor2pin[ca.0][ca.1];
        let pb = self.coor2pin[cb.0][cb.1];
        proof {
            lemma_swap_layout(p2c_before, g0, ca, cb, nx, ny, self.problem.n_pin as int);
            lemma_swap_grid_at(g0, ca, cb, nx, ny);
        }

        self.coor2pin[ca.0][ca.1] = pb;
        assert(self.grid() =~= set_at(g0, ca, pb));
        self.coor2pin[cb.0][cb.1] = pa;
        assert(self.grid() =~= swap_grid(g0, ca, cb));
        if let Some(q) = pb {
            self.pin2coor[q] = ca;
        }
        if let Some(p) = pa {
            self.pin2coor[p] = cb;
        }
        assert(self.pin2coor@ =~= swap_p2c(p2c_before, g0, ca, cb));

        let after = self.cell_cost(ca) as u128 + self.cell_cost(cb) as u128;
        proof {
            self.problem.lemma_bounds();
            lemma_swap_cost(self.problem.netlist(), p2c_before, g0, ca, cb, nx, ny);
        }
        if let Some(c) = self._cost {
            proof {
                let problem = self.problem;
                lemma_total_cost_bounds(problem.netlist(), self.pin2coor@, nx, ny);
                assert(problem.nets.len() * (problem.nx + problem.ny) <= usize::MAX);
            }
            self._cost = Some((c as u128 + after - before) as usize);
        }
    }
}

impl Problem {
    /// A new random placement of this problem.
    pub fn make_placement<'a>(&'a self, rng: &mut StdRng) -> (r: Placement<'a>)
        requires
            self.wf(),
        ensures
            r.wf(),
            r.problem == self,
            r._cost is None,
    {
        Placement::new(self, rng)
    }
}

} // verus!
