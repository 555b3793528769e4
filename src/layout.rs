//! The pin and cell maps as sequences, the swap of two cells on them, and
//! the laws of the swap: it keeps a bijection, undoes itself, and changes the
//! total cost by exactly the change of the two cells' costs.

use vstd::prelude::*;

use crate::bound_box::lemma_same_cells;
use crate::cost::{count_of, incident, net_coors, net_cost, nets_cost, pins_below, total_cost};
use crate::typing::Coor;

verus! {

/// Occupancy of the grid: row `x`, column `y` holds the pin there, if any.
pub type Grid = Seq<Seq<Option<usize>>>;

/// The grid seen through the rows of a `Vec<Vec<_>>`.
pub open spec fn grid_of(v: Seq<Vec<Option<usize>>>) -> Grid {
    v.map_values(|r: Vec<Option<usize>>| r@)
}

pub open spec fn at(g: Grid, c: Coor) -> Option<usize> {
    g[c.0 as int][c.1 as int]
}

pub open spec fn set_at(g: Grid, c: Coor, v: Option<usize>) -> Grid {
    g.update(c.0 as int, g[c.0 as int].update(c.1 as int, v))
}

/// The grid after exchanging the occupants of `a` and `b`.
pub open spec fn swap_grid(g: Grid, a: Coor, b: Coor) -> Grid {
    set_at(set_at(g, a, at(g, b)), b, at(g, a))
}

/// The pin-to-cell map after exchanging the occupants of `a` and `b` of `g`:
/// the pin at `b` moves to `a`, the pin at `a` moves to `b`.
pub open spec fn swap_p2c(p2c: Seq<Coor>, g: Grid, a: Coor, b: Coor) -> Seq<Coor> {
    let s1 = match at(g, b) {
        Some(q) => p2c.update(q as int, a),
        None => p2c,
    };
    match at(g, a) {
        Some(p) => s1.update(p as int, b),
        None => s1,
    }
}

pub open spec fn grid_shape(g: Grid, nx: int, ny: int) -> bool {
    &&& g.len() == nx
    &&& forall|x: int| 0 <= x < nx ==> (#[trigger] g[x]).len() == ny
}

/// `p2c` and `g` are two views of one bijection between the `n_pin` pins
/// and some cells of the `nx` by `ny` grid.
pub open spec fn layout_ok(p2c: Seq<Coor>, g: Grid, nx: int, ny: int, n_pin: int) -> bool {
    &&& p2c.len() == n_pin
    &&& n_pin <= usize::MAX
    &&& grid_shape(g, nx, ny)
    &&& forall|p: int|
        0 <= p < n_pin ==> (#[trigger] p2c[p]).in_grid(nx, ny) && at(g, p2c[p]) == Some(p as usize)
    &&& forall|c: Coor|
        c.in_grid(nx, ny) && (#[trigger] at(g, c)) is Some ==> at(g, c)->Some_0 < n_pin
            && p2c[at(g, c)->Some_0 as int] == c
}

/// Cost of the nets of the pin at cell `c` (zero for an empty cell).
pub open spec fn cell_cost_of(netlist: Seq<Seq<usize>>, p2c: Seq<Coor>, g: Grid, c: Coor) -> int {
    match at(g, c) {
        Some(p) => nets_cost(netlist, incident(netlist, p), p2c),
        None => 0,
    }
}

/// A grid of `nx` rows of `ny` empty cells.
pub fn empty_grid(nx: usize, ny: usize) -> (g: Vec<Vec<Option<usize>>>)
    ensures
        grid_shape(grid_of(g@), nx as int, ny as int),
        forall|c: Coor| c.in_grid(nx as int, ny as int) ==> #[trigger] at(grid_of(g@), c) is None,
{
    let mut grid: Vec<Vec<Option<usize>>> = Vec::new();
    for x in 0..nx
        invariant
            grid.len() == x,
            forall|i: int| 0 <= i < x ==> (#[trigger] grid@[i])@ == Seq::new(ny as nat, |j: int| None::<usize>),
    {
        let mut row: Vec<Option<usize>> = Vec::new();
        for y in 0..ny
            invariant
                row@ == Seq::new(y as nat, |j: int| None::<usize>),
        {
            row.push(None);
            assert(row@ =~= Seq::new((y + 1) as nat, |j: int| None::<usize>));
        }
        grid.push(row);
    }
    let ghost g = grid_of(grid@);
    assert forall|c: Coor| c.in_grid(nx as int, ny as int) implies #[trigger] at(g, c) is None by {
        assert(g[c.0 as int] == grid@[c.0 as int]@);
    }
    grid
}

pub proof fn lemma_at_set_at(g: Grid, c: Coor, v: Option<usize>, d: Coor, nx: int, ny: int)
    requires
        grid_shape(g, nx, ny),
        c.in_grid(nx, ny),
        d.in_grid(nx, ny),
    ensures
        grid_shape(set_at(g, c, v), nx, ny),
        at(set_at(g, c, v), d) == if d == c { v } else { at(g, d) },
{
    let g2 = set_at(g, c, v);
    assert forall|x: int| 0 <= x < nx implies (#[trigger] g2[x]).len() == ny by {
        if x != c.0 {
            assert(g2[x] == g[x]);
        }
    }
}

pub proof fn lemma_set_at_all(g: Grid, c: Coor, v: Option<usize>, nx: int, ny: int)
    requires
        grid_shape(g, nx, ny),
        c.in_grid(nx, ny),
    ensures
        grid_shape(set_at(g, c, v), nx, ny),
        forall|d: Coor|
            d.in_grid(nx, ny) ==> #[trigger] at(set_at(g, c, v), d) == if d == c { v } else { at(g, d) },
{
    lemma_at_set_at(g, c, v, c, nx, ny);
    assert forall|d: Coor| d.in_grid(nx, ny) implies #[trigger] at(set_at(g, c, v), d) == if d == c {
        v
    } else {
        at(g, d)
    } by {
        lemma_at_set_at(g, c, v, d, nx, ny);
    }
}

/// Swapping moves the occupant of `b` to `a` and that of `a` to `b`, and
/// leaves every other cell alone.
pub proof fn lemma_swap_grid_at(g: Grid, a: Coor, b: Coor, nx: int, ny: int)
    requires
        grid_shape(g, nx, ny),
        a.in_grid(nx, ny),
        b.in_grid(nx, ny),
    ensures
        grid_shape(swap_grid(g, a, b), nx, ny),
        forall|c: Coor|
            c.in_grid(nx, ny) ==> #[trigger] at(swap_grid(g, a, b), c) == if c == b {
                at(g, a)
            } else if c == a {
                at(g, b)
            } else {
                at(g, c)
            },
{
    let g1 = set_at(g, a, at(g, b));
    lemma_at_set_at(g, a, at(g, b), a, nx, ny);
    assert forall|c: Coor| c.in_grid(nx, ny) implies #[trigger] at(swap_grid(g, a, b), c) == if c == b {
        at(g, a)
    } else if c == a {
        at(g, b)
    } else {
        at(g, c)
    } by {
        lemma_at_set_at(g, a, at(g, b), c, nx, ny);
        lemma_at_set_at(g1, b, at(g, a), c, nx, ny);
    }
    lemma_at_set_at(g1, b, at(g, a), a, nx, ny);
}

/// A swap keeps the pin and cell maps a bijection.
pub proof fn lemma_swap_layout(p2c: Seq<Coor>, g: Grid, a: Coor, b: Coor, nx: int, ny: int, n_pin: int)
    requires
        layout_ok(p2c, g, nx, ny, n_pin),
        a.in_grid(nx, ny),
        b.in_grid(nx, ny),
    ensures
        layout_ok(swap_p2c(p2c, g, a, b), swap_grid(g, a, b), nx, ny, n_pin),
{
    lemma_swap_grid_at(g, a, b, nx, ny);
    let g2 = swap_grid(g, a, b);
    let q2 = swap_p2c(p2c, g, a, b);
    let pa = at(g, a);
    let pb = at(g, b);
    assert forall|p: int| 0 <= p < n_pin implies (#[trigger] q2[p]).in_grid(nx, ny) && at(g2, q2[p]) == Some(
        p as usize,
    ) by {
        if pa == Some(p as usize) {
            assert(q2[p] == b);
        } else if pb == Some(p as usize) {
            assert(q2[p] == a);
        } else {
            assert(q2[p] == p2c[p]);
            assert(at(g, p2c[p]) == Some(p as usize));
        }
    }
    assert forall|c: Coor| c.in_grid(nx, ny) && (#[trigger] at(g2, c)) is Some implies at(g2, c)->Some_0 < n_pin
        && q2[at(g2, c)->Some_0 as int] == c by {
        if c == b {
            let p = pa->Some_0;
            assert(at(g, a) is Some);
            assert(p2c[p as int] == a);
            assert(q2[p as int] == b);
        } else if c == a {
            let q = pb->Some_0;
            assert(at(g, b) is Some);
            assert(p2c[q as int] == b);
            if pa == Some(q) {
                assert(p2c[q as int] == a);
            }
            assert(q2[q as int] == a);
        } else {
            let p = at(g, c)->Some_0;
            assert(p2c[p as int] == c);
            if pa == Some(p) {
                assert(p2c[p as int] == a);
            }
            if pb == Some(p) {
                assert(p2c[p as int] == b);
            }
            assert(q2[p as int] == p2c[p as int]);
        }
    }
}

/// Swapping the same two cells twice restores both maps exactly.
pub proof fn lemma_swap_involution(p2c: Seq<Coor>, g: Grid, a: Coor, b: Coor, nx: int, ny: int, n_pin: int)
    requires
        layout_ok(p2c, g, nx, ny, n_pin),
        a.in_grid(nx, ny),
        b.in_grid(nx, ny),
    ensures
        swap_grid(swap_grid(g, a, b), a, b) == g,
        swap_p2c(swap_p2c(p2c, g, a, b), swap_grid(g, a, b), a, b) == p2c,
{
    let g1 = swap_grid(g, a, b);
    let g2 = swap_grid(g1, a, b);
    lemma_swap_grid_at(g, a, b, nx, ny);
    lemma_swap_grid_at(g1, a, b, nx, ny);
    assert forall|x: int| 0 <= x < nx implies #[trigger] g2[x] == g[x] by {
        assert forall|y: int| 0 <= y < ny implies g2[x][y] == g[x][y] by {
            let c = Coor(x as usize, y as usize);
            assert(at(g2, c) == at(g, c));
        }
        assert(g2[x] =~= g[x]);
    }
    assert(g2 =~= g);
    let q1 = swap_p2c(p2c, g, a, b);
    let q2 = swap_p2c(q1, g1, a, b);
    assert forall|p: int| 0 <= p < p2c.len() implies #[trigger] q2[p] == p2c[p] by {
        if at(g, a) == Some(p as usize) {
            assert(p2c[p] == a);
        }
        if at(g, b) == Some(p as usize) {
            assert(p2c[p] == b);
        }
    }
    assert(q2 =~= p2c);
}

/// Without duplicates a value occurs at most once.
pub proof fn lemma_count_of_distinct(s: Seq<usize>, p: usize)
    requires
        s.no_duplicates(),
    ensures
        count_of(s, p) == if s.contains(p) { 1nat } else { 0nat },
    decreases s.len(),
{
    if s.len() > 0 {
        let d = s.drop_last();
        assert(d.no_duplicates());
        lemma_count_of_distinct(d, p);
        if s.last() == p {
            if d.contains(p) {
                let k = choose|k: int| 0 <= k < d.len() && d[k] == p;
                assert(s[k] == s[s.len() - 1]);
            }
        }
        if s.contains(p) && s.last() != p {
            let k = choose|k: int| 0 <= k < s.len() && s[k] == p;
            assert(d[k] == p);
        }
        if d.contains(p) {
            let k = choose|k: int| 0 <= k < d.len() && d[k] == p;
            assert(s[k] == p);
        }
    }
}

/// The cost of a list of nets adds up over concatenation.
pub proof fn lemma_nets_cost_concat(nl: Seq<Seq<usize>>, a: Seq<usize>, b: Seq<usize>, p2c: Seq<Coor>)
    ensures
        nets_cost(nl, a + b, p2c) == nets_cost(nl, a, p2c) + nets_cost(nl, b, p2c),
    decreases b.len(),
{
    if b.len() == 0 {
        assert(a + b =~= a);
    } else {
        assert((a + b).drop_last() =~= a + b.drop_last());
        lemma_nets_cost_concat(nl, a, b.drop_last(), p2c);
    }
}

/// Only the nets that `ids` names matter to its cost.
pub proof fn lemma_nets_cost_prefix(nl: Seq<Seq<usize>>, d: Seq<Seq<usize>>, ids: Seq<usize>, p2c: Seq<Coor>)
    requires
        d.len() <= nl.len(),
        forall|i: int| 0 <= i < d.len() ==> nl[i] == d[i],
        forall|k: int| 0 <= k < ids.len() ==> #[trigger] ids[k] < d.len(),
    ensures
        nets_cost(nl, ids, p2c) == nets_cost(d, ids, p2c),
    decreases ids.len(),
{
    if ids.len() > 0 {
        let r = ids.drop_last();
        assert forall|k: int| 0 <= k < r.len() implies #[trigger] r[k] < d.len() by {
            assert(r[k] == ids[k]);
        }
        lemma_nets_cost_prefix(nl, d, r, p2c);
        assert(ids[ids.len() - 1] == ids.last());
    }
}

pub proof fn lemma_incident_below(nl: Seq<Seq<usize>>, p: usize)
    ensures
        forall|k: int| 0 <= k < incident(nl, p).len() ==> #[trigger] incident(nl, p)[k] < nl.len(),
    decreases nl.len(),
{
    if nl.len() > 0 {
        lemma_incident_below(nl.drop_last(), p);
        let a = incident(nl.drop_last(), p);
        let b = Seq::new(count_of(nl.last(), p), |k: int| (nl.len() - 1) as usize);
        assert forall|k: int| 0 <= k < incident(nl, p).len() implies #[trigger] incident(nl, p)[k] < nl.len() by {
            if k < a.len() {
                assert(incident(nl, p)[k] == a[k]);
            } else {
                assert(incident(nl, p)[k] == b[k - a.len()]);
            }
        }
    }
}

pub open spec fn holds(net: Seq<usize>, p: Option<usize>) -> bool {
    match p {
        Some(q) => net.contains(q),
        None => false,
    }
}

/// Change, from `p2c` to `q2c`, of the cost of the nets that hold `p`.
pub open spec fn pin_delta(nl: Seq<Seq<usize>>, p: Option<usize>, p2c: Seq<Coor>, q2c: Seq<Coor>) -> int {
    match p {
        Some(q) => nets_cost(nl, incident(nl, q), q2c) - nets_cost(nl, incident(nl, q), p2c),
        None => 0,
    }
}

/// When only pins `pa` and `pb` move, and every net holding both keeps its
/// cost, the change of the total cost is the change over the nets of `pa`
/// plus the change over the nets of `pb`.
pub proof fn lemma_total_delta(
    nl: Seq<Seq<usize>>,
    p2c: Seq<Coor>,
    q2c: Seq<Coor>,
    pa: Option<usize>,
    pb: Option<usize>,
)
    requires
        forall|i: int| 0 <= i < nl.len() ==> (#[trigger] nl[i]).no_duplicates(),
        pins_below(nl, p2c.len() as int),
        nl.len() <= usize::MAX,
        p2c.len() <= usize::MAX,
        q2c.len() == p2c.len(),
        forall|r: int|
            0 <= r < p2c.len() && pa != Some(r as usize) && pb != Some(r as usize) ==> #[trigger] q2c[r]
                == p2c[r],
        forall|i: int|
            0 <= i < nl.len() && holds(#[trigger] nl[i], pa) && holds(nl[i], pb) ==> net_cost(nl[i], q2c)
                == net_cost(nl[i], p2c),
    ensures
        total_cost(nl, q2c) - total_cost(nl, p2c) == pin_delta(nl, pa, p2c, q2c) + pin_delta(
            nl,
            pb,
            p2c,
            q2c,
        ),
    decreases nl.len(),
{
    if nl.len() > 0 {
        let d = nl.drop_last();
        let last = nl.last();
        let n = nl.len() - 1;
        assert(nl[n] == last);
        assert forall|i: int, j: int| 0 <= i < d.len() && 0 <= j < d[i].len() implies #[trigger] d[i][j]
            < p2c.len() by {
            assert(d[i] == nl[i]);
        }
        assert forall|i: int| 0 <= i < d.len() implies (#[trigger] d[i]).no_duplicates() by {
            assert(d[i] == nl[i]);
        }
        assert forall|i: int| 0 <= i < d.len() && holds(#[trigger] d[i], pa) && holds(d[i], pb) implies net_cost(
            d[i],
            q2c,
        ) == net_cost(d[i], p2c) by {
            assert(d[i] == nl[i]);
        }
        lemma_total_delta(d, p2c, q2c, pa, pb);
        let delta = net_cost(last, q2c) - net_cost(last, p2c);
        // the last net changes only if it holds a moved pin
        if !holds(last, pa) && !holds(last, pb) {
            assert forall|j: int| 0 <= j < last.len() implies q2c[last[j] as int] == p2c[last[j] as int] by {
                assert(last[j] < p2c.len());
                if pa == Some(last[j]) {
                    assert(last.contains(last[j]));
                }
                if pb == Some(last[j]) {
                    assert(last.contains(last[j]));
                }
            }
            assert(net_coors(last, q2c) =~= net_coors(last, p2c));
        }
        assert forall|p: Option<usize>| p == pa || p == pb implies #[trigger] pin_delta(nl, p, p2c, q2c)
            == pin_delta(d, p, p2c, q2c) + if holds(last, p) { delta } else { 0 } by {
            if p is Some {
                let q = p->Some_0;
                let a = incident(d, q);
                let b = Seq::new(count_of(last, q), |k: int| n as usize);
                assert(incident(nl, q) == a + b);
                assert forall|i: int| 0 <= i < d.len() implies nl[i] == d[i] by {}
                lemma_count_of_distinct(last, q);
                lemma_incident_below(d, q);
                lemma_nets_cost_concat(nl, a, b, p2c);
                lemma_nets_cost_concat(nl, a, b, q2c);
                lemma_nets_cost_prefix(nl, d, a, p2c);
                lemma_nets_cost_prefix(nl, d, a, q2c);
                if last.contains(q) {
                    assert(b.len() == 1);
                    assert(b.drop_last() =~= Seq::<usize>::empty());
                    assert(b.last() == n as usize);
                    assert(nets_cost(nl, Seq::<usize>::empty(), p2c) == 0);
                    assert(nets_cost(nl, Seq::<usize>::empty(), q2c) == 0);
                    assert(nets_cost(nl, b, p2c) == net_cost(last, p2c));
                    assert(nets_cost(nl, b, q2c) == net_cost(last, q2c));
                } else {
                    assert(b =~= Seq::<usize>::empty());
                }
            }
        }
        assert(pin_delta(nl, pa, p2c, q2c) == pin_delta(d, pa, p2c, q2c) + if holds(last, pa) {
            delta
        } else {
            0
        });
        assert(pin_delta(nl, pb, p2c, q2c) == pin_delta(d, pb, p2c, q2c) + if holds(last, pb) {
            delta
        } else {
            0
        });
    }
}

/// Exchanging the cells of two pins of one net leaves its cells, hence its
/// cost, unchanged.
pub proof fn lemma_swap_keeps_shared_net(net: Seq<usize>, p2c: Seq<Coor>, q2c: Seq<Coor>, p: usize, q: usize)
    requires
        net.contains(p),
        net.contains(q),
        forall|j: int| 0 <= j < net.len() ==> #[trigger] net[j] < p2c.len(),
        q2c.len() == p2c.len(),
        q2c[p as int] == p2c[q as int],
        q2c[q as int] == p2c[p as int],
        forall|r: int| 0 <= r < p2c.len() && r != p && r != q ==> #[trigger] q2c[r] == p2c[r],
    ensures
        net_cost(net, q2c) == net_cost(net, p2c),
{
    let a = net_coors(net, p2c);
    let b = net_coors(net, q2c);
    let ip = choose|k: int| 0 <= k < net.len() && net[k] == p;
    let iq = choose|k: int| 0 <= k < net.len() && net[k] == q;
    assert forall|c: Coor| a.contains(c) <==> b.contains(c) by {
        if a.contains(c) {
            let k = choose|k: int| 0 <= k < a.len() && a[k] == c;
            if net[k] == p {
                assert(b[iq] == c);
            } else if net[k] == q {
                assert(b[ip] == c);
            } else {
                assert(b[k] == c);
            }
        }
        if b.contains(c) {
            let k = choose|k: int| 0 <= k < b.len() && b[k] == c;
            if net[k] == p {
                assert(a[iq] == c);
            } else if net[k] == q {
                assert(a[ip] == c);
            } else {
                assert(a[k] == c);
            }
        }
    }
    lemma_same_cells(a, b);
}

/// The incremental update is exact: after a swap of cells `a` and `b`, the
/// total cost equals the total cost before, minus the cell costs of `a` and
/// `b` before the swap, plus their cell costs after it.
pub proof fn lemma_swap_cost(
    nl: Seq<Seq<usize>>,
    p2c: Seq<Coor>,
    g: Grid,
    a: Coor,
    b: Coor,
    nx: int,
    ny: int,
)
    requires
        layout_ok(p2c, g, nx, ny, p2c.len() as int),
        forall|i: int| 0 <= i < nl.len() ==> (#[trigger] nl[i]).no_duplicates(),
        pins_below(nl, p2c.len() as int),
        nl.len() <= usize::MAX,
        a.in_grid(nx, ny),
        b.in_grid(nx, ny),
    ensures
        total_cost(nl, swap_p2c(p2c, g, a, b)) == total_cost(nl, p2c) - cell_cost_of(nl, p2c, g, a)
            - cell_cost_of(nl, p2c, g, b) + cell_cost_of(nl, swap_p2c(p2c, g, a, b), swap_grid(g, a, b), a)
            + cell_cost_of(nl, swap_p2c(p2c, g, a, b), swap_grid(g, a, b), b),
{
    let q2c = swap_p2c(p2c, g, a, b);
    let g2 = swap_grid(g, a, b);
    let pa = at(g, a);
    let pb = at(g, b);
    lemma_swap_grid_at(g, a, b, nx, ny);
    assert(at(g2, a) == pb);
    assert(at(g2, b) == pa);
    if pa is Some {
        assert(p2c[pa->Some_0 as int] == a);
    }
    if pb is Some {
        assert(p2c[pb->Some_0 as int] == b);
    }
    assert forall|r: int|
        0 <= r < p2c.len() && pa != Some(r as usize) && pb != Some(r as usize) implies #[trigger] q2c[r]
            == p2c[r] by {}
    assert forall|i: int| 0 <= i < nl.len() && holds(#[trigger] nl[i], pa) && holds(nl[i], pb) implies net_cost(
        nl[i],
        q2c,
    ) == net_cost(nl[i], p2c) by {
        let p = pa->Some_0;
        let q = pb->Some_0;
        assert forall|j: int| 0 <= j < nl[i].len() implies #[trigger] nl[i][j] < p2c.len() by {}
        if p == q {
            assert(q2c =~= p2c);
        } else {
            assert forall|r: int| 0 <= r < p2c.len() && r != p && r != q implies #[trigger] q2c[r] == p2c[r] by {}
            lemma_swap_keeps_shared_net(nl[i], p2c, q2c, p, q);
        }
    }
    lemma_total_delta(nl, p2c, q2c, pa, pb);
}

} // verus!
