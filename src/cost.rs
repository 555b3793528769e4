//! The wirelength model: cost of a net, of all nets and of a pin's nets.

use vstd::prelude::*;

use crate::bound_box::{half_perimeter_of, lemma_half_perimeter_bounds};
use crate::typing::Coor;

verus! {

/// The cells that `p2c` gives to the pins of one net, in the net's order.
pub open spec fn net_coors(pins: Seq<usize>, p2c: Seq<Coor>) -> Seq<Coor> {
    pins.map_values(|p: usize| p2c[p as int])
}

/// Half-perimeter wirelength of one net.
pub open spec fn net_cost(pins: Seq<usize>, p2c: Seq<Coor>) -> int {
    half_perimeter_of(net_coors(pins, p2c))
}

/// Sum of the wirelengths of all nets of `netlist`.
pub open spec fn total_cost(netlist: Seq<Seq<usize>>, p2c: Seq<Coor>) -> int
    decreases netlist.len(),
{
    if netlist.len() == 0 {
        0
    } else {
        total_cost(netlist.drop_last(), p2c) + net_cost(netlist.last(), p2c)
    }
}

/// Sum of the wirelengths of the nets whose indices are listed in `ids`
/// (a net listed twice counts twice).
pub open spec fn nets_cost(netlist: Seq<Seq<usize>>, ids: Seq<usize>, p2c: Seq<Coor>) -> int
    decreases ids.len(),
{
    if ids.len() == 0 {
        0
    } else {
        nets_cost(netlist, ids.drop_last(), p2c) + net_cost(netlist[ids.last() as int], p2c)
    }
}

/// How often `p` occurs in `s`.
pub open spec fn count_of(s: Seq<usize>, p: usize) -> nat
    decreases s.len(),
{
    if s.len() == 0 {
        0
    } else {
        count_of(s.drop_last(), p) + if s.last() == p { 1nat } else { 0nat }
    }
}

/// Indices of the nets that hold pin `p`, in net order, once per occurrence.
pub open spec fn incident(netlist: Seq<Seq<usize>>, p: usize) -> Seq<usize>
    decreases netlist.len(),
{
    if netlist.len() == 0 {
        Seq::empty()
    } else {
        incident(netlist.drop_last(), p) + Seq::new(
            count_of(netlist.last(), p),
            |k: int| (netlist.len() - 1) as usize,
        )
    }
}

/// Total number of (net, pin) memberships.
pub open spec fn memberships(netlist: Seq<Seq<usize>>) -> nat
    decreases netlist.len(),
{
    if netlist.len() == 0 {
        0
    } else {
        memberships(netlist.drop_last()) + netlist.last().len()
    }
}

/// Every pin of every net is a valid pin id under `n_pin`.
pub open spec fn pins_below(netlist: Seq<Seq<usize>>, n_pin: int) -> bool {
    forall|i: int, j: int|
        0 <= i < netlist.len() && 0 <= j < netlist[i].len() ==> #[trigger] netlist[i][j] < n_pin
}

/// Each pin of `p2c` sits on the `nx` by `ny` grid.
pub open spec fn all_in_grid(p2c: Seq<Coor>, nx: int, ny: int) -> bool {
    forall|p: int| 0 <= p < p2c.len() ==> (#[trigger] p2c[p]).in_grid(nx, ny)
}

pub proof fn lemma_count_of_bound(s: Seq<usize>, p: usize)
    ensures
        count_of(s, p) <= s.len(),
    decreases s.len(),
{
    if s.len() > 0 {
        lemma_count_of_bound(s.drop_last(), p);
    }
}

/// No pin is in more nets than there are memberships, and no net is empty
/// beyond what the memberships allow.
pub proof fn lemma_incident_len(netlist: Seq<Seq<usize>>, p: usize)
    ensures
        incident(netlist, p).len() <= memberships(netlist),
    decreases netlist.len(),
{
    if netlist.len() > 0 {
        lemma_incident_len(netlist.drop_last(), p);
        lemma_count_of_bound(netlist.last(), p);
    }
}

/// With no empty net there are at least as many memberships as nets.
pub proof fn lemma_nets_le_memberships(netlist: Seq<Seq<usize>>)
    requires
        forall|i: int| 0 <= i < netlist.len() ==> (#[trigger] netlist[i]).len() > 0,
    ensures
        netlist.len() <= memberships(netlist),
    decreases netlist.len(),
{
    if netlist.len() > 0 {
        let d = netlist.drop_last();
        assert forall|i: int| 0 <= i < d.len() implies (#[trigger] d[i]).len() > 0 by {
            assert(d[i] == netlist[i]);
        }
        lemma_nets_le_memberships(d);
        assert(netlist[netlist.len() - 1] == netlist.last());
    }
}

/// Cost of one net on the grid.
pub proof fn lemma_net_cost_bounds(pins: Seq<usize>, p2c: Seq<Coor>, nx: int, ny: int)
    requires
        all_in_grid(p2c, nx, ny),
        forall|j: int| 0 <= j < pins.len() ==> #[trigger] pins[j] < p2c.len(),
        nx + ny >= 0,
    ensures
        0 <= net_cost(pins, p2c),
        net_cost(pins, p2c) <= nx + ny,
{
    let cs = net_coors(pins, p2c);
    assert forall|i: int| 0 <= i < cs.len() implies (#[trigger] cs[i]).in_grid(nx, ny) by {
        assert(cs[i] == p2c[pins[i] as int]);
    }
    lemma_half_perimeter_bounds(cs, nx, ny);
}

/// The total cost is bounded by the number of nets times `nx + ny`.
pub proof fn lemma_total_cost_bounds(netlist: Seq<Seq<usize>>, p2c: Seq<Coor>, nx: int, ny: int)
    requires
        all_in_grid(p2c, nx, ny),
        pins_below(netlist, p2c.len() as int),
        nx + ny >= 0,
    ensures
        0 <= total_cost(netlist, p2c),
        total_cost(netlist, p2c) <= netlist.len() * (nx + ny),
    decreases netlist.len(),
{
    if netlist.len() > 0 {
        let d = netlist.drop_last();
        assert forall|i: int, j: int| 0 <= i < d.len() && 0 <= j < d[i].len() implies #[trigger] d[i][j] < p2c.len() by {
            assert(d[i] == netlist[i]);
        }
        lemma_total_cost_bounds(d, p2c, nx, ny);
        let last = netlist.last();
        assert forall|j: int| 0 <= j < last.len() implies #[trigger] last[j] < p2c.len() by {
            assert(netlist[netlist.len() - 1] == last);
        }
        lemma_net_cost_bounds(last, p2c, nx, ny);
        assert(netlist.len() * (nx + ny) == d.len() * (nx + ny) + (nx + ny)) by (nonlinear_arith)
            requires netlist.len() == d.len() + 1;
    }
}

/// The cost of a list of nets is bounded by its length times `nx + ny`.
pub proof fn lemma_nets_cost_bounds(
    netlist: Seq<Seq<usize>>,
    ids: Seq<usize>,
    p2c: Seq<Coor>,
    nx: int,
    ny: int,
)
    requires
        all_in_grid(p2c, nx, ny),
        pins_below(netlist, p2c.len() as int),
        forall|k: int| 0 <= k < ids.len() ==> #[trigger] ids[k] < netlist.len(),
        nx + ny >= 0,
    ensures
        0 <= nets_cost(netlist, ids, p2c),
        nets_cost(netlist, ids, p2c) <= ids.len() * (nx + ny),
    decreases ids.len(),
{
    if ids.len() > 0 {
        let d = ids.drop_last();
        assert forall|k: int| 0 <= k < d.len() implies #[trigger] d[k] < netlist.len() by {
            assert(d[k] == ids[k]);
        }
        lemma_nets_cost_bounds(netlist, d, p2c, nx, ny);
        let n = ids.last() as int;
        assert(ids[ids.len() - 1] == ids.last());
        assert forall|j: int| 0 <= j < netlist[n].len() implies #[trigger] netlist[n][j] < p2c.len() by {}
        lemma_net_cost_bounds(netlist[n], p2c, nx, ny);
        assert(ids.len() * (nx + ny) == d.len() * (nx + ny) + (nx + ny)) by (nonlinear_arith)
            requires ids.len() == d.len() + 1;
    }
}

} // verus!

verus! {

/// The total cost is never negative, and it is zero exactly when, in every
/// net, all pins sit on one cell.
pub proof fn lemma_cost_zero_iff(netlist: Seq<Seq<usize>>, p2c: Seq<Coor>, nx: int, ny: int)
    requires
        all_in_grid(p2c, nx, ny),
        pins_below(netlist, p2c.len() as int),
        nx + ny >= 0,
    ensures
        total_cost(netlist, p2c) >= 0,
        total_cost(netlist, p2c) == 0 <==> forall|i: int, j: int|
            0 <= i < netlist.len() && 0 <= j < netlist[i].len() ==> p2c[#[trigger] netlist[i][j] as int]
                == p2c[netlist[i][0] as int],
    decreases netlist.len(),
{
    if netlist.len() > 0 {
        let d = netlist.drop_last();
        let last = netlist.last();
        let n = netlist.len() - 1;
        assert(netlist[n] == last);
        assert forall|i: int, j: int| 0 <= i < d.len() && 0 <= j < d[i].len() implies #[trigger] d[i][j] < p2c.len() by {
            assert(d[i] == netlist[i]);
        }
        lemma_cost_zero_iff(d, p2c, nx, ny);
        let cs = net_coors(last, p2c);
        assert forall|i: int| 0 <= i < cs.len() implies (#[trigger] cs[i]).in_grid(nx, ny) by {
            assert(last[i] < p2c.len());
        }
        lemma_half_perimeter_bounds(cs, nx, ny);
        if total_cost(netlist, p2c) == 0 {
            assert forall|i: int, j: int| 0 <= i < netlist.len() && 0 <= j < netlist[i].len() implies p2c[#[trigger] netlist[i][j] as int]
                == p2c[netlist[i][0] as int] by {
                if i < n {
                    assert(d[i] == netlist[i]);
                    assert(d[i][j] == netlist[i][j]);
                } else {
                    assert(cs[j] == cs[0]);
                }
            }
        }
        if forall|i: int, j: int| 0 <= i < netlist.len() && 0 <= j < netlist[i].len() ==> p2c[#[trigger] netlist[i][j] as int]
            == p2c[netlist[i][0] as int] {
            assert forall|i: int, j: int| 0 <= i < d.len() && 0 <= j < d[i].len() implies p2c[#[trigger] d[i][j] as int]
                == p2c[d[i][0] as int] by {
                assert(d[i] == netlist[i]);
                assert(netlist[i][j] == d[i][j]);
            }
            assert forall|k: int| 0 <= k < cs.len() implies #[trigger] cs[k] == cs[0] by {
                assert(netlist[n][k] == last[k]);
            }
        }
    }
}

} // verus!
