//! Decisions of the simulated-annealing driver: the batch size per
//! temperature step and the Metropolis trial on one pair of cells.

use vstd::prelude::*;

use crate::layout::{lemma_swap_involution, swap_grid, swap_p2c};
use crate::placement::Placement;
use crate::typing::Coor;

verus! {

/// Largest `r` with `r * r * r <= v`.
pub open spec fn is_cube_root(r: int, v: int) -> bool {
    r * r * r <= v < (r + 1) * (r + 1) * (r + 1)
}

/// Number of trial swaps per temperature step, `floor(100 * n_pin^(4/3))`,
/// computed exactly as the integer cube root of `1_000_000 * n_pin^4`.
pub fn batch_size(n_pin: u64) -> (r: u64)
    requires
        n_pin <= 100_000_000,
    ensures
        is_cube_root(r as int, 1_000_000 * (n_pin * n_pin * n_pin * n_pin)),
{
    let n = n_pin as u128;
    assert(n * n <= 10_000_000_000_000_000) by (nonlinear_arith)
        requires n <= 100_000_000;
    assert(n * n * n * n <= 100_000_000_000_000_000_000_000_000_000_000) by (nonlinear_arith)
        requires n * n <= 10_000_000_000_000_000;
    let n2 = n * n;
    assert(n2 * n2 <= 100_000_000_000_000_000_000_000_000_000_000) by (nonlinear_arith)
        requires n2 <= 10_000_000_000_000_000;
    let n4 = n2 * n2;
    assert(n4 == n * n * n * n) by (nonlinear_arith)
        requires n2 == n * n, n4 == n2 * n2;
    let v: u128 = 1_000_000 * n4;
    // the root lies in [lo, hi)
    let mut lo: u128 = 0;
    let mut hi: u128 = 5_000_000_000_000;
    assert(hi * hi * hi > v) by (nonlinear_arith)
        requires hi == 5_000_000_000_000, v <= 100_000_000_000_000_000_000_000_000_000_000_000_000;
    while lo + 1 < hi
        invariant
            lo < hi <= 5_000_000_000_000,
            lo * lo * lo <= v,
            hi * hi * hi > v,
        decreases hi - lo,
    {
        let mid = lo + (hi - lo) / 2;
        assert(mid * mid * mid <= 125_000_000_000_000_000_000_000_000_000_000_000_000) by (nonlinear_arith)
            requires mid <= 5_000_000_000_000;
        assert(mid * mid <= 25_000_000_000_000_000_000_000_000) by (nonlinear_arith)
            requires mid <= 5_000_000_000_000;
        let m2 = mid * mid;
        let m3 = m2 * mid;
        if m3 <= v {
            lo = mid;
        } else {
            hi = mid;
        }
    }
    assert(lo + 1 == hi);
    lo as u64
}

/// One Metropolis trial: swaps the occupants of `ca` and `cb` and keeps the
/// swap when the change `delta` of the two cells' costs is below
/// `tolerance`, else swaps back. Returns the change when kept; it is the
/// change of the total cost.
///
/// The caller draws `tolerance` as the least integer above `-T ln(u)`, with
/// `u` uniform in `(0, 1)`: then `delta < tolerance` exactly when
/// `u < exp(-delta / T)`, and every swap with `delta <= 0` is kept.
pub fn metropolis_swap(sol: &mut Placement, ca: Coor, cb: Coor, tolerance: i128) -> (r: Option<i128>)
    requires
        old(sol).wf(),
        old(sol).on_grid(ca),
        old(sol).on_grid(cb),
    ensures
        final(sol).wf(),
        final(sol).problem == old(sol).problem,
        final(sol)._cost is Some <==> old(sol)._cost is Some,
        ({
            let swapped_p2c = swap_p2c(old(sol).pin2coor@, old(sol).grid(), ca, cb);
            let swapped_grid = swap_grid(old(sol).grid(), ca, cb);
            let delta = crate::layout::cell_cost_of(old(sol).problem.netlist(), swapped_p2c, swapped_grid, ca)
                + crate::layout::cell_cost_of(old(sol).problem.netlist(), swapped_p2c, swapped_grid, cb)
                - old(sol).spec_cell_cost(ca) - old(sol).spec_cell_cost(cb);
            &&& r is Some <==> delta < tolerance
            &&& r matches Some(d) ==> d == delta && final(sol).pin2coor@ == swapped_p2c && final(sol).grid() == swapped_grid
                && d == final(sol).spec_cost() - old(sol).spec_cost()
            &&& r is None ==> final(sol).pin2coor@ == old(sol).pin2coor@ && final(sol).grid() == old(sol).grid()
                && final(sol)._cost == old(sol)._cost
        }),
{
    let ghost p2c_before = sol.pin2coor@;
    let ghost g0 = sol.grid();
    let cost_prev = sol.cell_cost(ca) as i128 + sol.cell_cost(cb) as i128;
    sol.swap(ca, cb);
    let cost_curr = sol.cell_cost(ca) as i128 + sol.cell_cost(cb) as i128;
    let delta = cost_curr - cost_prev;
    if delta < tolerance {
        Some(delta)
    } else {
        sol.swap(ca, cb);
        proof {
            let pr = sol.problem;
            lemma_swap_involution(p2c_before, g0, ca, cb, pr.nx as int, pr.ny as int, pr.n_pin as int);
        }
        None
    }
}

} // verus!
