//! The placement instance: grid, nets and the pin-to-net index.

use vstd::arithmetic::div_mod::{
    lemma_fundamental_div_mod,
    lemma_fundamental_div_mod_converse_div,
    lemma_fundamental_div_mod_converse_mod,
};
use vstd::prelude::*;

use crate::blif::BLIFInfo;
use crate::cost::{
    count_of, incident, lemma_incident_len, lemma_nets_le_memberships, memberships, pins_below,
};
use crate::typing::{Coor, Net, Pin};

verus! {

/// Every cell of an `nx` by `ny` grid, x major: cell `i` is `(i / ny, i % ny)`.
pub open spec fn grid_coors(nx: usize, ny: usize) -> Seq<Coor> {
    Seq::new((nx * ny) as nat, |i: int| Coor((i / (ny as int)) as usize, (i % (ny as int)) as usize))
}

proof fn lemma_grid_index(nx: usize, ny: usize, i: int)
    requires
        0 <= i < nx * ny,
    ensures
        ny > 0,
        0 <= i / (ny as int) < nx,
        0 <= i % (ny as int) < ny,
        i == ny * (i / (ny as int)) + i % (ny as int),
{
    assert(ny > 0) by (nonlinear_arith)
        requires 0 <= i < nx * ny, nx >= 0, ny >= 0;
    lemma_fundamental_div_mod(i, ny as int);
    let q = i / (ny as int);
    let r = i % (ny as int);
    vstd::arithmetic::div_mod::lemma_mod_bound(i, ny as int);
    assert(0 <= q < nx) by (nonlinear_arith)
        requires i == ny * q + r, 0 <= r < ny, 0 <= i < nx * ny, ny > 0;
}

/// The grid list holds each cell of the grid once.
pub proof fn lemma_grid_coors(nx: usize, ny: usize)
    ensures
        forall|i: int| 0 <= i < nx * ny ==> (#[trigger] grid_coors(nx, ny)[i]).in_grid(nx as int, ny as int),
        forall|i: int, j: int|
            0 <= i < nx * ny && 0 <= j < nx * ny && i != j ==> #[trigger] grid_coors(nx, ny)[i] != #[trigger] grid_coors(nx, ny)[j],
{
    let g = grid_coors(nx, ny);
    assert forall|i: int| 0 <= i < nx * ny implies (#[trigger] g[i]).in_grid(nx as int, ny as int) by {
        lemma_grid_index(nx, ny, i);
    }
    assert forall|i: int, j: int|
        0 <= i < nx * ny && 0 <= j < nx * ny && i != j implies #[trigger] g[i] != #[trigger] g[j] by {
        lemma_grid_index(nx, ny, i);
        lemma_grid_index(nx, ny, j);
        if g[i] == g[j] {
            assert(i / (ny as int) == j / (ny as int));
            assert(i % (ny as int) == j % (ny as int));
        }
    }
}

/// An error for a grid with fewer cells than pins.
#[derive(Debug, PartialEq, Eq, Structural)]
pub enum ProblemError {
    Capacity,
}

/// The immutable description of a placement instance.
pub struct Problem {
    pub nx: usize,
    pub ny: usize,
    pub n_pin: usize,
    pub coors: Vec<Coor>,
    pub nets: Vec<Net>,
    pub pins: Vec<Pin>,
}

/// The list of every cell of the grid, x major.
pub fn make_coors(nx: usize, ny: usize) -> (coors: Vec<Coor>)
    requires
        nx * ny <= usize::MAX,
    ensures
        coors@ == grid_coors(nx, ny),
{
    let mut coors: Vec<Coor> = Vec::new();
    for x in 0..nx
        invariant
            nx * ny <= usize::MAX,
            coors.len() == x * ny,
            forall|i: int| 0 <= i < coors.len() ==> coors@[i] == #[trigger] grid_coors(nx, ny)[i],
    {
        assert((x + 1) * ny <= nx * ny) by (nonlinear_arith)
            requires x < nx;
        for y in 0..ny
            invariant
                nx * ny <= usize::MAX,
                x < nx,
                (x + 1) * ny <= nx * ny,
                coors.len() == x * ny + y,
                forall|i: int| 0 <= i < coors.len() ==> coors@[i] == #[trigger] grid_coors(nx, ny)[i],
        {
            proof {
                let i = x * ny + y;
                assert(i < nx * ny) by (nonlinear_arith)
                    requires y < ny, (x + 1) * ny <= nx * ny, i == x * ny + y;
                lemma_fundamental_div_mod_converse_div(i, ny as int, x as int, y as int);
                lemma_fundamental_div_mod_converse_mod(i, ny as int, x as int, y as int);
            }
            coors.push(Coor(x, y));
        }
        assert(x * ny + ny == (x + 1) * ny) by (nonlinear_arith);
    }
    assert(coors@ =~= grid_coors(nx, ny));
    coors
}

impl Problem {
    /// The pin lists of the nets, in order.
    pub open spec fn netlist(&self) -> Seq<Seq<usize>> {
        self.nets@.map_values(|n: Net| n.pins@)
    }

    /// The instance is consistent: the cell list covers the grid, each net
    /// is a non-empty list of distinct valid pins, the pin list inverts the
    /// net list, and every cost fits in a `usize`.
    pub open spec fn wf(&self) -> bool {
        &&& self.n_pin <= self.nx * self.ny
        &&& self.nx * self.ny <= usize::MAX
        &&& self.coors@ == grid_coors(self.nx, self.ny)
        &&& forall|i: int| 0 <= i < self.nets.len() ==> (#[trigger] self.nets@[i]).id == i
        &&& forall|i: int| 0 <= i < self.nets.len() ==> (#[trigger] self.nets@[i]).pins.len() > 0
        &&& forall|i: int| 0 <= i < self.nets.len() ==> (#[trigger] self.nets@[i]).pins@.no_duplicates()
        &&& pins_below(self.netlist(), self.n_pin as int)
        &&& self.pins.len() == self.n_pin
        &&& forall|p: int| 0 <= p < self.n_pin ==> (#[trigger] self.pins@[p]).id == p
        &&& forall|p: int|
            0 <= p < self.n_pin ==> (#[trigger] self.pins@[p]).net_ids@ == incident(self.netlist(), p as usize)
        &&& memberships(self.netlist()) * (self.nx + self.ny) <= usize::MAX
    }

    /// Size facts that keep every cost within a `usize`.
    pub proof fn lemma_bounds(&self)
        requires
            self.wf(),
        ensures
            self.netlist().len() == self.nets.len(),
            self.nets.len() * (self.nx + self.ny) <= usize::MAX,
            self.nets.len() > 0 ==> self.nx + self.ny <= usize::MAX,
            forall|p: usize| #[trigger]
                incident(self.netlist(), p).len() * (self.nx + self.ny) <= usize::MAX,
    {
        let nl = self.netlist();
        let m = memberships(nl);
        let s = self.nx + self.ny;
        assert forall|i: int| 0 <= i < nl.len() implies (#[trigger] nl[i]).len() > 0 by {
            assert(nl[i] == self.nets@[i].pins@);
        }
        lemma_nets_le_memberships(nl);
        assert(nl.len() * s <= m * s) by (nonlinear_arith)
            requires nl.len() <= m, s >= 0;
        if self.nets.len() > 0 {
            assert(s <= m * s) by (nonlinear_arith)
                requires 1 <= m, s >= 0;
        }
        assert forall|p: usize| #[trigger] incident(nl, p).len() * s <= usize::MAX by {
            lemma_incident_len(nl, p);
            assert(incident(nl, p).len() * s <= m * s) by (nonlinear_arith)
                requires incident(nl, p).len() <= m, s >= 0;
        }
    }

    /// Builds the instance of a netlist on an `nx` by `ny` grid: the nets in
    /// the netlist's order, numbered from zero, and for each pin the nets
    /// that hold it. Fails when the grid has fewer cells than pins.
    pub fn new(blif: &BLIFInfo, nx: usize, ny: usize) -> (r: Result<Self, ProblemError>)
        requires
            nx * ny <= usize::MAX,
            forall|i: int| 0 <= i < blif.net_list.len() ==> (#[trigger] blif.netlist()[i]).len() > 0,
            forall|i: int| 0 <= i < blif.net_list.len() ==> (#[trigger] blif.netlist()[i]).no_duplicates(),
            pins_below(blif.netlist(), blif.n_pin as int),
            memberships(blif.netlist()) * (nx + ny) <= usize::MAX,
        ensures
            r is Err <==> blif.n_pin > nx * ny,
            r is Err ==> r->Err_0 == ProblemError::Capacity,
            r matches Ok(p) ==> {
                &&& p.wf()
                &&& p.nx == nx
                &&& p.ny == ny
                &&& p.n_pin == blif.n_pin
                &&& p.netlist() == blif.netlist()
                &&& p.nets.len() == blif.net_list.len()
                &&& forall|i: int| 0 <= i < p.nets.len() ==> (#[trigger] p.nets@[i]).name@ == blif.net_list@[i].0@
            },
    {
        if blif.n_pin > nx * ny {
            return Err(ProblemError::Capacity);
        }
        let coors = make_coors(nx, ny);
        let ghost netlist = blif.netlist();

        let mut nets: Vec<Net> = Vec::new();
        let mut i_net: usize = 0;
        while i_net < blif.net_list.len()
            invariant
                i_net <= blif.net_list.len(),
                netlist == blif.netlist(),
                nets.len() == i_net,
                forall|i: int| 0 <= i < i_net ==> (#[trigger] nets@[i]).id == i,
                forall|i: int| 0 <= i < i_net ==> (#[trigger] nets@[i]).pins@ == netlist[i],
                forall|i: int| 0 <= i < i_net ==> (#[trigger] nets@[i]).name@ == blif.net_list@[i].0@,
            decreases blif.net_list.len() - i_net,
        {
            let entry = &blif.net_list[i_net];
            let pins = entry.1.clone();
            assert(pins@ =~= netlist[i_net as int]);
            nets.push(Net { id: i_net, name: entry.0.clone(), pins });
            i_net += 1;
        }
        let ghost nl = nets@.map_values(|n: Net| n.pins@);
        assert(nl =~= netlist);

        let mut pins: Vec<Pin> = Vec::new();
        let mut i_pin: usize = 0;
        while i_pin < blif.n_pin
            invariant
                i_pin <= blif.n_pin,
                pins.len() == i_pin,
                forall|p: int| 0 <= p < i_pin ==> (#[trigger] pins@[p]).id == p,
                forall|p: int| 0 <= p < i_pin ==> (#[trigger] pins@[p]).net_ids@ == Seq::<usize>::empty(),
            decreases blif.n_pin - i_pin,
        {
            pins.push(Pin { id: i_pin, net_ids: Vec::new() });
            i_pin += 1;
        }
        assert(incident(netlist.subrange(0, 0), 0) == Seq::<usize>::empty());

        let mut i: usize = 0;
        while i < nets.len()
            invariant
                i <= nets.len(),
                nets.len() == netlist.len(),
                nl == netlist,
                nl == nets@.map_values(|n: Net| n.pins@),
                pins_below(netlist, blif.n_pin as int),
                pins.len() == blif.n_pin,
                forall|p: int| 0 <= p < blif.n_pin ==> (#[trigger] pins@[p]).id == p,
                forall|p: int|
                    0 <= p < blif.n_pin ==> (#[trigger] pins@[p]).net_ids@ == incident(
                        netlist.subrange(0, i as int),
                        p as usize,
                    ),
            decreases nets.len() - i,
        {
            let net = &nets[i];
            let ghost row = netlist[i as int];
            assert(net.pins@ == row);
            let mut j: usize = 0;
            while j < net.pins.len()
                invariant
                    i < nets.len(),
                    nets.len() == netlist.len(),
                    net == nets@[i as int],
                    net.pins@ == row,
                    row == netlist[i as int],
                    pins_below(netlist, blif.n_pin as int),
                    j <= row.len(),
                    pins.len() == blif.n_pin,
                    forall|p: int| 0 <= p < blif.n_pin ==> (#[trigger] pins@[p]).id == p,
                    forall|p: int|
                        0 <= p < blif.n_pin ==> (#[trigger] pins@[p]).net_ids@ == incident(
                            netlist.subrange(0, i as int),
                            p as usize,
                        ) + Seq::new(count_of(row.subrange(0, j as int), p as usize), |k: int| i),
                decreases row.len() - j,
            {
                let pin_id = net.pins[j];
                assert(pin_id < blif.n_pin);
                let ghost before = pins@;
                pins[pin_id].net_ids.push(i);
                proof {
                    assert(row.subrange(0, j as int + 1).drop_last() =~= row.subrange(0, j as int));
                    assert forall|p: int| 0 <= p < blif.n_pin implies (#[trigger] pins@[p]).net_ids@
                        == incident(netlist.subrange(0, i as int), p as usize) + Seq::new(
                        count_of(row.subrange(0, j as int + 1), p as usize),
                        |k: int| i,
                    ) by {
                        let c = count_of(row.subrange(0, j as int), p as usize);
                        if p == pin_id {
                            assert(Seq::new(c + 1, |k: int| i) =~= Seq::new(c, |k: int| i).push(i));
                        } else {
                            assert(pins@[p] == before[p]);
                        }
                    }
                }
                j += 1;
            }
            proof {
                assert(row.subrange(0, row.len() as int) =~= row);
                let pre = netlist.subrange(0, i as int + 1);
                assert(pre.drop_last() =~= netlist.subrange(0, i as int));
                assert(pre.last() == row);
                assert forall|p: int| 0 <= p < blif.n_pin implies (#[trigger] pins@[p]).net_ids@
                    == incident(pre, p as usize) by {
                    assert(Seq::new(count_of(row, p as usize), |k: int| i) =~= Seq::new(
                        count_of(row, p as usize),
                        |k: int| (pre.len() - 1) as usize,
                    ));
                }
            }
            i += 1;
        }
        assert(netlist.subrange(0, nets.len() as int) =~= netlist);

        let problem = Problem { n_pin: blif.n_pin, nx, ny, coors, nets, pins };
        assert(problem.netlist() =~= netlist);
        Ok(problem)
    }
}

} // verus!
