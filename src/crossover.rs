//! Spatial crossover of two placements at a dividing column.

use vstd::prelude::*;

use rand::rngs::StdRng;

use crate::layout::{at, empty_grid, grid_of, grid_shape, lemma_set_at_all, set_at, Grid};
use crate::placement::Placement;
use crate::random::below;
use crate::typing::{Coor, PinID};

verus! {

/// Number of pins that already have a cell.
pub open spec fn placed_count(s: Seq<Option<Coor>>) -> nat
    decreases s.len(),
{
    if s.len() == 0 {
        0
    } else {
        placed_count(s.drop_last()) + if s.last() is Some { 1nat } else { 0nat }
    }
}

proof fn lemma_placed_set(s: Seq<Option<Coor>>, i: int, v: Coor)
    requires
        0 <= i < s.len(),
        s[i] is None,
    ensures
        placed_count(s.update(i, Some(v))) == placed_count(s) + 1,
    decreases s.len(),
{
    let t = s.update(i, Some(v));
    if i == s.len() - 1 {
        assert(t.drop_last() =~= s.drop_last());
    } else {
        assert(t.drop_last() =~= s.drop_last().update(i, Some(v)));
        lemma_placed_set(s.drop_last(), i, v);
    }
}

proof fn lemma_placed_none(s: Seq<Option<Coor>>)
    requires
        forall|i: int| 0 <= i < s.len() ==> (#[trigger] s[i]) is None,
    ensures
        placed_count(s) == 0,
    decreases s.len(),
{
    if s.len() > 0 {
        let t = s.drop_last();
        assert forall|i: int| 0 <= i < t.len() implies (#[trigger] t[i]) is None by {
            assert(t[i] == s[i]);
        }
        lemma_placed_none(t);
        assert(s[s.len() - 1] == s.last());
    }
}

proof fn lemma_placed_le(s: Seq<Option<Coor>>)
    ensures
        placed_count(s) <= s.len(),
    decreases s.len(),
{
    if s.len() > 0 {
        lemma_placed_le(s.drop_last());
    }
}

proof fn lemma_placed_lt(s: Seq<Option<Coor>>, i: int)
    requires
        0 <= i < s.len(),
        s[i] is None,
    ensures
        placed_count(s) < s.len(),
    decreases s.len(),
{
    if i == s.len() - 1 {
        lemma_placed_le(s.drop_last());
    } else {
        lemma_placed_lt(s.drop_last(), i);
    }
}

/// `c` comes before `(x, y)` in x-major order.
pub open spec fn before(c: Coor, x: int, y: int) -> bool {
    c.0 < x || (c.0 == x && c.1 < y)
}

/// After scanning the right region (columns from `d`) up to `(x, y)`: the
/// scanned cells hold `b`'s pins, the empty scanned cells are listed.
spec fn right_state(
    bp: Seq<Coor>,
    bg: Grid,
    g: Grid,
    o: Seq<Option<Coor>>,
    e: Seq<Coor>,
    nx: int,
    ny: int,
    n: int,
    d: int,
    x: int,
    y: int,
) -> bool {
    &&& grid_shape(g, nx, ny)
    &&& o.len() == n
    &&& forall|c: Coor| #[trigger]
        c.in_grid(nx, ny) ==> at(g, c) == if c.0 >= d && before(c, x, y) { at(bg, c) } else { None }
    &&& forall|p: int|
        0 <= p < n && (#[trigger] o[p]) is Some ==> {
            let c = o[p]->Some_0;
            &&& c.in_grid(nx, ny)
            &&& c.0 >= d
            &&& before(c, x, y)
            &&& at(bg, c) == Some(p as usize)
        }
    &&& forall|p: int| 0 <= p < n && (#[trigger] bp[p]).0 >= d && before(bp[p], x, y) ==> o[p] == Some(bp[p])
    &&& forall|k: int|
        0 <= k < e.len() ==> (#[trigger] e[k]).in_grid(nx, ny) && e[k].0 >= d && before(e[k], x, y) && at(
            g,
            e[k],
        ) is None
    &&& e.no_duplicates()
    &&& e.len() + placed_count(o) == (x - d) * ny + y
}

/// What the left region contributes at `c`: `a`'s pin, unless `b` placed it
/// on the right.
pub open spec fn left_val(ag: Grid, bp: Seq<Coor>, c: Coor, d: int) -> Option<usize> {
    match at(ag, c) {
        Some(p) => if bp[p as int].0 < d { Some(p) } else { None },
        None => None,
    }
}

/// After the right region and the left region up to `(x, y)`.
spec fn left_state(
    ap: Seq<Coor>,
    ag: Grid,
    bp: Seq<Coor>,
    bg: Grid,
    g: Grid,
    o: Seq<Option<Coor>>,
    e: Seq<Coor>,
    nx: int,
    ny: int,
    n: int,
    d: int,
    x: int,
    y: int,
) -> bool {
    &&& grid_shape(g, nx, ny)
    &&& o.len() == n
    &&& forall|c: Coor| #[trigger]
        c.in_grid(nx, ny) ==> at(g, c) == if c.0 >= d {
            at(bg, c)
        } else if before(c, x, y) {
            left_val(ag, bp, c, d)
        } else {
            None
        }
    &&& forall|p: int|
        0 <= p < n && (#[trigger] o[p]) is Some ==> {
            let c = o[p]->Some_0;
            &&& c.in_grid(nx, ny)
            &&& (c.0 >= d ==> at(bg, c) == Some(p as usize))
            &&& (c.0 < d ==> before(c, x, y) && at(ag, c) == Some(p as usize))
        }
    &&& forall|p: int| 0 <= p < n && (#[trigger] bp[p]).0 >= d ==> o[p] == Some(bp[p])
    &&& forall|p: int|
        0 <= p < n && (#[trigger] ap[p]).0 < d && before(ap[p], x, y) && bp[p].0 < d ==> o[p] == Some(ap[p])
    &&& forall|k: int|
        0 <= k < e.len() ==> (#[trigger] e[k]).in_grid(nx, ny) && (e[k].0 >= d || before(e[k], x, y)) && at(
            g,
            e[k],
        ) is None
    &&& e.no_duplicates()
    &&& e.len() + placed_count(o) == (nx - d) * ny + x * ny + y
}

/// While the pins left over are put on free cells.
spec fn fill_state(
    g0: Grid,
    g: Grid,
    o: Seq<Option<Coor>>,
    e: Seq<Coor>,
    nx: int,
    ny: int,
    n: int,
    k: int,
) -> bool {
    &&& grid_shape(g, nx, ny)
    &&& o.len() == n
    &&& n <= nx * ny
    &&& forall|c: Coor| #[trigger]
        c.in_grid(nx, ny) && at(g, c) is Some ==> at(g, c)->Some_0 < n && o[at(g, c)->Some_0 as int] == Some(c)
    &&& forall|p: int|
        0 <= p < n && (#[trigger] o[p]) is Some ==> o[p]->Some_0.in_grid(nx, ny) && at(g, o[p]->Some_0) == Some(
            p as usize,
        )
    &&& forall|p: int| 0 <= p < k ==> (#[trigger] o[p]) is Some
    &&& forall|i: int| 0 <= i < e.len() ==> (#[trigger] e[i]).in_grid(nx, ny) && at(g, e[i]) is None
    &&& e.no_duplicates()
    &&& e.len() + placed_count(o) == nx * ny
    &&& forall|c: Coor| #[trigger] c.in_grid(nx, ny) && at(g0, c) is Some ==> at(g, c) == at(g0, c)
}

/// `out` keeps `b`'s pins right of column `d` and `a`'s pins left of it,
/// except those of `a` that `b` placed on the right.
pub open spec fn child_of<'p>(out: Placement<'p>, a: Placement<'p>, b: Placement<'p>, d: int) -> bool {
    &&& forall|c: Coor|
        #![trigger at(out.grid(), c)]
        a.on_grid(c) && c.0 >= d && at(b.grid(), c) is Some ==> at(out.grid(), c) == at(b.grid(), c)
    &&& forall|c: Coor|
        #![trigger at(out.grid(), c)]
        a.on_grid(c) && c.0 < d && left_val(a.grid(), b.pin2coor@, c, d) is Some ==> at(out.grid(), c) == at(
            a.grid(),
            c,
        )
}

/// Builds in `out` the child of a spatial crossover at column `i_divide`:
/// `b`'s pins right of the divide stay where they are, `a`'s pins left of
/// it are copied unless `b` already placed them, and every pin still without
/// a cell goes to a cell drawn at random from those still free.
pub fn crossover_half<'p>(
    a: &Placement<'p>,
    b: &Placement<'p>,
    out: &mut Placement<'p>,
    i_divide: usize,
    rng: &mut StdRng,
)
    requires
        a.layout_wf(),
        b.layout_wf(),
        a.problem == b.problem,
        old(out).problem == a.problem,
        i_divide <= a.problem.nx,
    ensures
        final(out).wf(),
        final(out).problem == a.problem,
        final(out)._cost is None,
        child_of(*final(out), *a, *b, i_divide as int),
{
    let problem = a.problem;
    let nx = problem.nx;
    let ny = problem.ny;
    let n_pin = problem.n_pin;
    let ghost ag = a.grid();
    let ghost bg = b.grid();
    let ghost ap = a.pin2coor@;
    let ghost bp = b.pin2coor@;
    let ghost d = i_divide as int;

    let mut grid = empty_grid(nx, ny);
    let mut out_p2c: Vec<Option<Coor>> = Vec::new();
    for p in 0..n_pin
        invariant
            out_p2c@ == Seq::new(p as nat, |i: int| None::<Coor>),
    {
        out_p2c.push(None);
        assert(out_p2c@ =~= Seq::new((p + 1) as nat, |i: int| None::<Coor>));
    }
    proof {
        lemma_placed_none(out_p2c@);
    }
    let mut empty_coors: Vec<Coor> = Vec::new();

    // b's right region, copied as it is
    for x in i_divide..nx
        invariant
            a.layout_wf(),
            b.layout_wf(),
            problem == a.problem,
            problem == b.problem,
            nx == problem.nx,
            ny == problem.ny,
            n_pin == problem.n_pin,
            ag == a.grid(),
            bg == b.grid(),
            ap == a.pin2coor@,
            bp == b.pin2coor@,
            d == i_divide,
            i_divide <= nx,
            right_state(bp, bg, grid_of(grid@), out_p2c@, empty_coors@, nx as int, ny as int, n_pin as int, d, x as int, 0),
    {
        for y in 0..ny
            invariant
                a.layout_wf(),
                b.layout_wf(),
                problem == a.problem,
                problem == b.problem,
                nx == problem.nx,
                ny == problem.ny,
                n_pin == problem.n_pin,
                ag == a.grid(),
                bg == b.grid(),
                ap == a.pin2coor@,
                bp == b.pin2coor@,
                d == i_divide,
                i_divide <= nx,
                i_divide <= x < nx,
                right_state(bp, bg, grid_of(grid@), out_p2c@, empty_coors@, nx as int, ny as int, n_pin as int, d, x as int, y as int),
        {
            let c = Coor(x, y);
            let ghost g = grid_of(grid@);
            let ghost o = out_p2c@;
            let ghost e = empty_coors@;
            assert(c.in_grid(nx as int, ny as int));
            assert(b.coor2pin@[x as int]@[y as int] == at(bg, c));
            if let Some(pin) = b.coor2pin[x][y] {
                assert(pin < n_pin);
                assert(bp[pin as int] == c);
                assert(o[pin as int] is None) by {
                    if o[pin as int] is Some {
                        let c2 = o[pin as int]->Some_0;
                        assert(at(bg, c2) == Some(pin));
                    }
                }
                grid[x][y] = Some(pin);
                out_p2c.set(pin, Some(c));
                proof {
                    assert(grid_of(grid@) =~= set_at(g, c, Some(pin)));
                    lemma_set_at_all(g, c, Some(pin), nx as int, ny as int);
                    lemma_placed_set(o, pin as int, c);
                    let g2 = grid_of(grid@);
                    let o2 = out_p2c@;
                    assert forall|c2: Coor| #[trigger] c2.in_grid(nx as int, ny as int) implies at(g2, c2) == if c2.0 >= d
                        && before(c2, x as int, y + 1) {
                        at(bg, c2)
                    } else {
                        None
                    } by {}
                    assert forall|p: int| 0 <= p < n_pin && (#[trigger] o2[p]) is Some implies {
                        let c2 = o2[p]->Some_0;
                        &&& c2.in_grid(nx as int, ny as int)
                        &&& c2.0 >= d
                        &&& before(c2, x as int, y + 1)
                        &&& at(bg, c2) == Some(p as usize)
                    } by {
                        if p != pin {
                            assert(o2[p] == o[p]);
                        }
                    }
                    assert forall|p: int| 0 <= p < n_pin && (#[trigger] bp[p]).0 >= d && before(bp[p], x as int, y + 1) implies o2[p]
                        == Some(bp[p]) by {
                        if p != pin {
                            assert(o2[p] == o[p]);
                            if !before(bp[p], x as int, y as int) {
                                assert(bp[p] == c);
                                assert(at(bg, bp[p]) == Some(p as usize));
                            }
                        }
                    }
                }
            } else {
                empty_coors.push(c);
                proof {
                    let e2 = empty_coors@;
                    assert forall|i: int, j: int| 0 <= i < j < e2.len() implies e2[i] != e2[j] by {
                        if j == e2.len() - 1 {
                            assert(before(e2[i], x as int, y as int));
                        } else {
                            assert(e2[i] == e[i] && e2[j] == e[j]);
                        }
                    }
                    assert forall|p: int| 0 <= p < n_pin && (#[trigger] bp[p]).0 >= d && before(bp[p], x as int, y + 1) implies out_p2c@[p]
                        == Some(bp[p]) by {
                        if !before(bp[p], x as int, y as int) {
                            assert(bp[p] == c);
                            assert(at(bg, bp[p]) == Some(p as usize));
                        }
                    }
                }
            }
        }
        proof {
            let g = grid_of(grid@);
            assert forall|c: Coor| c.in_grid(nx as int, ny as int) implies before(c, x as int, ny as int) == before(c, x + 1, 0) by {}
            assert((x - d) * ny + ny == (x + 1 - d) * ny) by (nonlinear_arith);
        }
    }
    proof {
        let g = grid_of(grid@);
        let o = out_p2c@;
        let e = empty_coors@;
        assert forall|c: Coor| #[trigger] c.in_grid(nx as int, ny as int) implies at(g, c) == if c.0 >= d {
            at(bg, c)
        } else if before(c, 0, 0) {
            left_val(ag, bp, c, d)
        } else {
            None
        } by {}
        assert forall|p: int| 0 <= p < n_pin && (#[trigger] bp[p]).0 >= d implies o[p] == Some(bp[p]) by {
            assert(bp[p].in_grid(nx as int, ny as int));
        }
        assert((nx - d) * ny + 0 * ny + 0 == (nx - d) * ny) by (nonlinear_arith);
    }

    // a's left region, where b has not already placed the pin
    for x in 0..i_divide
        invariant
            a.layout_wf(),
            b.layout_wf(),
            problem == a.problem,
            problem == b.problem,
            nx == problem.nx,
            ny == problem.ny,
            n_pin == problem.n_pin,
            ag == a.grid(),
            bg == b.grid(),
            ap == a.pin2coor@,
            bp == b.pin2coor@,
            d == i_divide,
            i_divide <= nx,
            left_state(ap, ag, bp, bg, grid_of(grid@), out_p2c@, empty_coors@, nx as int, ny as int, n_pin as int, d, x as int, 0),
    {
        for y in 0..ny
            invariant
            a.layout_wf(),
            b.layout_wf(),
            problem == a.problem,
            problem == b.problem,
            nx == problem.nx,
            ny == problem.ny,
            n_pin == problem.n_pin,
            ag == a.grid(),
            bg == b.grid(),
            ap == a.pin2coor@,
            bp == b.pin2coor@,
            d == i_divide,
            i_divide <= nx,
                x < i_divide,
                left_state(ap, ag, bp, bg, grid_of(grid@), out_p2c@, empty_coors@, nx as int, ny as int, n_pin as int, d, x as int, y as int),
        {
            let c = Coor(x, y);
            let ghost g = grid_of(grid@);
            let ghost o = out_p2c@;
            let ghost e = empty_coors@;
            assert(c.in_grid(nx as int, ny as int));
            assert(a.coor2pin@[x as int]@[y as int] == at(ag, c));
            let mut placed = false;
            if let Some(pin) = a.coor2pin[x][y] {
                assert(pin < n_pin);
                assert(ap[pin as int] == c);
                assert(o[pin as int] is Some <==> bp[pin as int].0 >= d) by {
                    if o[pin as int] is Some {
                        let c2 = o[pin as int]->Some_0;
                        if c2.0 >= d {
                            assert(at(bg, c2) == Some(pin));
                        } else {
                            assert(at(ag, c2) == Some(pin));
                        }
                    }
                }
                if out_p2c[pin].is_none() {
                    grid[x][y] = Some(pin);
                    out_p2c.set(pin, Some(c));
                    placed = true;
                    proof {
                        assert(grid_of(grid@) =~= set_at(g, c, Some(pin)));
                        lemma_set_at_all(g, c, Some(pin), nx as int, ny as int);
                        lemma_placed_set(o, pin as int, c);
                        let g2 = grid_of(grid@);
                        let o2 = out_p2c@;
                        assert forall|c2: Coor| #[trigger] c2.in_grid(nx as int, ny as int) implies at(g2, c2) == if c2.0 >= d {
                            at(bg, c2)
                        } else if before(c2, x as int, y + 1) {
                            left_val(ag, bp, c2, d)
                        } else {
                            None
                        } by {}
                        assert forall|p: int| 0 <= p < n_pin && (#[trigger] o2[p]) is Some implies {
                            let c2 = o2[p]->Some_0;
                            &&& c2.in_grid(nx as int, ny as int)
                            &&& (c2.0 >= d ==> at(bg, c2) == Some(p as usize))
                            &&& (c2.0 < d ==> before(c2, x as int, y + 1) && at(ag, c2) == Some(p as usize))
                        } by {
                            if p != pin {
                                assert(o2[p] == o[p]);
                            }
                        }
                        assert forall|p: int| 0 <= p < n_pin && (#[trigger] bp[p]).0 >= d implies o2[p] == Some(bp[p]) by {
                            if p != pin {
                                assert(o2[p] == o[p]);
                            }
                        }
                        assert forall|p: int|
                            0 <= p < n_pin && (#[trigger] ap[p]).0 < d && before(ap[p], x as int, y + 1) && bp[p].0 < d implies o2[p]
                                == Some(ap[p]) by {
                            if p != pin {
                                assert(o2[p] == o[p]);
                                if !before(ap[p], x as int, y as int) {
                                    assert(ap[p] == c);
                                    assert(at(ag, ap[p]) == Some(p as usize));
                                }
                            }
                        }
                    }
                }
            }
            if !placed {
                empty_coors.push(c);
                proof {
                    let e2 = empty_coors@;
                    assert(at(g, c) is None);
                    assert(left_val(ag, bp, c, d) is None);
                    assert forall|i: int, j: int| 0 <= i < j < e2.len() implies e2[i] != e2[j] by {
                        if j == e2.len() - 1 {
                            assert(e2[i].0 >= d || before(e2[i], x as int, y as int));
                        } else {
                            assert(e2[i] == e[i] && e2[j] == e[j]);
                        }
                    }
                    assert forall|p: int|
                        0 <= p < n_pin && (#[trigger] ap[p]).0 < d && before(ap[p], x as int, y + 1) && bp[p].0 < d implies out_p2c@[p]
                            == Some(ap[p]) by {
                        if !before(ap[p], x as int, y as int) {
                            assert(ap[p] == c);
                            assert(at(ag, ap[p]) == Some(p as usize));
                        }
                    }
                    assert forall|p: int| 0 <= p < n_pin && (#[trigger] out_p2c@[p]) is Some implies {
                        let c2 = out_p2c@[p]->Some_0;
                        &&& c2.in_grid(nx as int, ny as int)
                        &&& (c2.0 >= d ==> at(bg, c2) == Some(p as usize))
                        &&& (c2.0 < d ==> before(c2, x as int, y + 1) && at(ag, c2) == Some(p as usize))
                    } by {}
                }
            }
        }
        proof {
            assert((nx - d) * ny + x * ny + ny == (nx - d) * ny + (x + 1) * ny) by (nonlinear_arith);
        }
    }

    // the pins still without a cell go to free cells drawn at random
    let ghost g0 = grid_of(grid@);
    proof {
        let g = g0;
        let o = out_p2c@;
        problem.lemma_bounds();
        assert forall|c: Coor| #[trigger] c.in_grid(nx as int, ny as int) && at(g, c) is Some implies at(g, c)->Some_0 < n_pin
            && o[at(g, c)->Some_0 as int] == Some(c) by {
            let p = at(g, c)->Some_0 as int;
            if c.0 >= d {
                assert(at(bg, c) == Some(p as usize));
                assert(bp[p] == c);
            } else {
                assert(before(c, d, 0));
                assert(at(ag, c) == Some(p as usize));
                assert(ap[p] == c);
                assert(before(ap[p], d, 0));
            }
        }
        assert forall|p: int| 0 <= p < n_pin && (#[trigger] o[p]) is Some implies o[p]->Some_0.in_grid(nx as int, ny as int)
            && at(g, o[p]->Some_0) == Some(p as usize) by {
            let c = o[p]->Some_0;
            if c.0 < d {
                if bp[p].0 >= d {
                    assert(o[p] == Some(bp[p]));
                }
            }
        }
        assert((nx - d) * ny + d * ny == nx * ny) by (nonlinear_arith);
    }
    for pin in 0..n_pin
        invariant
            a.layout_wf(),
            b.layout_wf(),
            problem == a.problem,
            problem == b.problem,
            nx == problem.nx,
            ny == problem.ny,
            n_pin == problem.n_pin,
            ag == a.grid(),
            bg == b.grid(),
            ap == a.pin2coor@,
            bp == b.pin2coor@,
            d == i_divide,
            i_divide <= nx,
            fill_state(g0, grid_of(grid@), out_p2c@, empty_coors@, nx as int, ny as int, n_pin as int, pin as int),
    {
        if out_p2c[pin].is_none() {
            let ghost g = grid_of(grid@);
            let ghost o = out_p2c@;
            let ghost e = empty_coors@;
            proof {
                lemma_placed_lt(o, pin as int);
            }
            let k = below(rng, empty_coors.len() as u128) as usize;
            let c = empty_coors.swap_remove(k);
            assert(c == e[k as int]);
            grid[c.0][c.1] = Some(pin);
            out_p2c.set(pin, Some(c));
            proof {
                assert(grid_of(grid@) =~= set_at(g, c, Some(pin)));
                lemma_set_at_all(g, c, Some(pin), nx as int, ny as int);
                lemma_placed_set(o, pin as int, c);
                let g2 = grid_of(grid@);
                let o2 = out_p2c@;
                let e2 = empty_coors@;
                assert forall|i: int| 0 <= i < e2.len() implies e2[i] != c && (i == k ==> e2[i] == e[e.len() - 1])
                    && (i != k ==> e2[i] == e[i]) by {
                    if i == k {
                        assert(e2[i] == e[e.len() - 1]);
                    } else {
                        assert(e2[i] == e[i]);
                    }
                }
                assert forall|i: int, j: int| 0 <= i < j < e2.len() implies e2[i] != e2[j] by {
                    if i == k {
                        assert(e[e.len() - 1] != e[j]);
                    } else if j == k {
                        assert(e[i] != e[e.len() - 1]);
                    } else {
                        assert(e[i] != e[j]);
                    }
                }
                assert forall|c2: Coor| #[trigger] c2.in_grid(nx as int, ny as int) && at(g2, c2) is Some implies at(g2, c2)->Some_0
                    < n_pin && o2[at(g2, c2)->Some_0 as int] == Some(c2) by {
                    if c2 != c {
                        let q = at(g, c2)->Some_0 as int;
                        assert(o[q] == Some(c2));
                    }
                }
                assert forall|p: int| 0 <= p < n_pin && (#[trigger] o2[p]) is Some implies o2[p]->Some_0.in_grid(nx as int, ny as int)
                    && at(g2, o2[p]->Some_0) == Some(p as usize) by {
                    if p != pin {
                        assert(o2[p] == o[p]);
                    }
                }
                assert forall|c2: Coor| #[trigger] c2.in_grid(nx as int, ny as int) && at(g0, c2) is Some implies at(g2, c2) == at(g0, c2) by {}
                assert forall|p: int| 0 <= p < pin + 1 implies (#[trigger] o2[p]) is Some by {
                    if p != pin {
                        assert(o2[p] == o[p]);
                    }
                }
            }
        }
    }

    let mut pin2coor: Vec<Coor> = Vec::new();
    for p in 0..n_pin
        invariant
            n_pin == out_p2c.len(),
            forall|q: int| 0 <= q < n_pin ==> (#[trigger] out_p2c@[q]) is Some,
            pin2coor.len() == p,
            forall|q: int| 0 <= q < p ==> Some(#[trigger] pin2coor@[q]) == out_p2c@[q],
    {
        pin2coor.push(out_p2c[p].unwrap());
    }
    out.coor2pin = grid;
    out.pin2coor = pin2coor;
    out._cost = None;
    proof {
        let g = grid_of(out.coor2pin@);
        assert(out.grid() == g);
        assert forall|c: Coor| #![trigger at(out.grid(), c)] a.on_grid(c) && c.0 >= i_divide && at(b.grid(), c) is Some implies at(out.grid(), c)
            == at(b.grid(), c) by {
            assert(at(g0, c) == at(bg, c));
        }
        assert forall|c: Coor| #![trigger at(out.grid(), c)] a.on_grid(c) && c.0 < i_divide && left_val(a.grid(), b.pin2coor@, c, i_divide as int) is Some
            implies at(out.grid(), c) == at(a.grid(), c) by {
            assert(before(c, d, 0));
            assert(at(g0, c) == left_val(ag, bp, c, d));
        }
        assert forall|c: Coor| #[trigger] at(g, c) is Some && c.in_grid(nx as int, ny as int) implies at(g, c)->Some_0 < n_pin
            && out.pin2coor@[at(g, c)->Some_0 as int] == c by {
            let p = at(g, c)->Some_0 as int;
            assert(Some(out.pin2coor@[p]) == out_p2c@[p]);
        }
        assert forall|p: int| 0 <= p < n_pin implies (#[trigger] out.pin2coor@[p]).in_grid(nx as int, ny as int)
            && at(g, out.pin2coor@[p]) == Some(p as usize) by {
            assert(Some(out.pin2coor@[p]) == out_p2c@[p]);
        }
    }
}

/// Some cell of the grid holds pin `p`.
pub open spec fn has_cell(g: Grid, p: usize, nx: int, ny: int) -> bool {
    exists|c: Coor| c.in_grid(nx, ny) && #[trigger] at(g, c) == Some(p)
}

/// The pin-to-cell map of an occupancy grid in which every pin below
/// `n_pin` occupies some cell and every occupant is below `n_pin`: each pin
/// maps to a cell that holds it.
pub fn derive_pin2coor(coor2pin: &Vec<Vec<Option<PinID>>>, nx: usize, ny: usize, n_pin: usize) -> (r: Vec<Coor>)
    requires
        grid_shape(grid_of(coor2pin@), nx as int, ny as int),
        forall|c: Coor|
            c.in_grid(nx as int, ny as int) && (#[trigger] at(grid_of(coor2pin@), c)) is Some ==> at(
                grid_of(coor2pin@),
                c,
            )->Some_0 < n_pin,
        forall|p: int| 0 <= p < n_pin ==> #[trigger] has_cell(grid_of(coor2pin@), p as usize, nx as int, ny as int),
    ensures
        r.len() == n_pin,
        forall|p: int|
            0 <= p < n_pin ==> (#[trigger] r@[p]).in_grid(nx as int, ny as int) && at(grid_of(coor2pin@), r@[p]) == Some(
                p as usize,
            ),
{
    let ghost g = grid_of(coor2pin@);
    let mut found: Vec<Option<Coor>> = Vec::new();
    for p in 0..n_pin
        invariant
            found@ == Seq::new(p as nat, |i: int| None::<Coor>),
    {
        found.push(None);
        assert(found@ =~= Seq::new((p + 1) as nat, |i: int| None::<Coor>));
    }
    for x in 0..nx
        invariant
            g == grid_of(coor2pin@),
            grid_shape(g, nx as int, ny as int),
            forall|c: Coor| c.in_grid(nx as int, ny as int) && (#[trigger] at(g, c)) is Some ==> at(g, c)->Some_0 < n_pin,
            found.len() == n_pin,
            forall|c: Coor| #[trigger] at(g, c) is Some && c.in_grid(nx as int, ny as int) && before(c, x as int, 0) ==> found@[at(g, c)->Some_0 as int] is Some,
            forall|p: int| 0 <= p < n_pin && (#[trigger] found@[p]) is Some ==> found@[p]->Some_0.in_grid(nx as int, ny as int)
                && at(g, found@[p]->Some_0) == Some(p as usize),
    {
        for y in 0..ny
            invariant
                g == grid_of(coor2pin@),
                grid_shape(g, nx as int, ny as int),
                forall|c: Coor| c.in_grid(nx as int, ny as int) && (#[trigger] at(g, c)) is Some ==> at(g, c)->Some_0 < n_pin,
                x < nx,
                found.len() == n_pin,
                forall|c: Coor| #[trigger] at(g, c) is Some && c.in_grid(nx as int, ny as int) && before(c, x as int, y as int) ==> found@[at(g, c)->Some_0 as int] is Some,
                forall|p: int| 0 <= p < n_pin && (#[trigger] found@[p]) is Some ==> found@[p]->Some_0.in_grid(nx as int, ny as int)
                    && at(g, found@[p]->Some_0) == Some(p as usize),
        {
            let c = Coor(x, y);
            assert(coor2pin@[x as int]@[y as int] == at(g, c));
            if let Some(pin) = coor2pin[x][y] {
                assert(c.in_grid(nx as int, ny as int));
                found.set(pin, Some(c));
            }
        }
    }
    let mut pin2coor: Vec<Coor> = Vec::new();
    proof {
        assert forall|q: int| 0 <= q < n_pin implies (#[trigger] found@[q]) is Some by {
            assert(has_cell(g, q as usize, nx as int, ny as int));
            let c = choose|c: Coor| c.in_grid(nx as int, ny as int) && #[trigger] at(g, c) == Some(q as usize);
            assert(before(c, nx as int, 0));
        }
    }
    for p in 0..n_pin
        invariant
            found.len() == n_pin,
            forall|q: int| 0 <= q < n_pin && (#[trigger] found@[q]) is Some ==> found@[q]->Some_0.in_grid(nx as int, ny as int)
                && at(g, found@[q]->Some_0) == Some(q as usize),
            forall|q: int| 0 <= q < n_pin ==> (#[trigger] found@[q]) is Some,
            pin2coor.len() == p,
            forall|q: int| 0 <= q < p ==> Some(#[trigger] pin2coor@[q]) == found@[q],
    {
        pin2coor.push(found[p].unwrap());
    }
    proof {
        assert forall|q: int| 0 <= q < n_pin implies (#[trigger] pin2coor@[q]).in_grid(nx as int, ny as int)
            && at(g, pin2coor@[q]) == Some(q as usize) by {
            assert(Some(pin2coor@[q]) == found@[q]);
        }
    }
    pin2coor
}

} // verus!
