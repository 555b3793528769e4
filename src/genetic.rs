//! The genetic engine: sorting, stochastic universal selection, mutation,
//! crossover of parents and the generation loop with plateau detection.

use vstd::prelude::*;
use vstd::seq_lib::{to_multiset_insert, to_multiset_remove};

use rand::rngs::StdRng;

use crate::crossover::crossover_half;
use crate::placement::Placement;
use crate::problem::{lemma_grid_coors, Problem};
use crate::random::{below, chance, shuffle};
use crate::typing::Coor;
use crate::util::take_2;

verus! {

/// Settings of the genetic engine. The mutation probability is given in
/// millionths.
#[derive(Debug, Clone, Copy)]
pub struct Params {
    pub n_generation: usize,
    pub n_population: usize,
    pub n_elite: usize,
    pub n_select: usize,
    pub n_crossover: usize,
    pub p_mutation_ppm: u32,
}

/// One million: the denominator of `Params::p_mutation_ppm`.
pub const PPM: u32 = 1000000;

/// Generations between two checkpoints of the best cost.
pub const CHECKPOINT_EVERY: usize = 1000;

/// Number of equal checkpoints in a row that ends a run.
pub const PLATEAU_LEN: usize = 10;

/// Every member is a well-formed placement of `problem` with its cost cached.
pub open spec fn members_ok<'a>(v: Seq<Placement<'a>>, problem: &'a Problem) -> bool {
    forall|i: int|
        0 <= i < v.len() ==> (#[trigger] v[i]).wf() && v[i].problem == problem && v[i]._cost is Some
}

/// Ascending by total cost.
pub open spec fn sorted_by_cost<'a>(v: Seq<Placement<'a>>) -> bool {
    forall|i: int, j: int| 0 <= i < j < v.len() ==> (#[trigger] v[i]).spec_cost() <= (#[trigger] v[j]).spec_cost()
}

/// The members of `s` whose flag in `keep` is set, in order.
pub open spec fn keep_members<T>(s: Seq<T>, keep: Seq<bool>) -> Seq<T>
    decreases s.len(),
{
    if s.len() == 0 || keep.len() < s.len() {
        Seq::empty()
    } else {
        let rest = keep_members(s.drop_last(), keep.subrange(0, s.len() - 1));
        if keep[s.len() - 1] {
            rest.push(s.last())
        } else {
            rest
        }
    }
}

/// The last `n` entries of `v` exist and are all equal.
pub open spec fn spec_last_n_equal(v: Seq<usize>, n: int) -> bool {
    &&& v.len() >= n
    &&& forall|i: int| v.len() - n <= i < v.len() ==> #[trigger] v[i] == v.last()
}

/// Whether the last `n` entries of `vec` exist and are all equal; `n` is at
/// least two.
pub fn last_n_equal(vec: &Vec<usize>, n: usize) -> (r: bool)
    requires
        n >= 2,
    ensures
        r == spec_last_n_equal(vec@, n as int),
{
    if vec.len() < n {
        return false;
    }
    let last = vec[vec.len() - 1];
    let mut i: usize = vec.len() - n;
    while i < vec.len() - 1
        invariant
            vec.len() >= n,
            vec.len() - n <= i <= vec.len() - 1,
            last == vec@.last(),
            forall|k: int| vec.len() - n <= k < i ==> #[trigger] vec@[k] == last,
        decreases vec.len() - i,
    {
        if vec[i] != last {
            return false;
        }
        i += 1;
    }
    assert forall|k: int| vec.len() - n <= k < vec.len() implies #[trigger] vec@[k] == vec@.last() by {
        if k == vec.len() - 1 {
        }
    }
    return true;
}

/// Sorts the population by ascending cost, keeping the order of equal costs.
pub fn sort_by_cost<'a>(v: &mut Vec<Placement<'a>>, problem: &'a Problem)
    requires
        members_ok(old(v)@, problem),
    ensures
        members_ok(final(v)@, problem),
        sorted_by_cost(final(v)@),
        final(v)@.to_multiset() == old(v)@.to_multiset(),
{
    let ghost orig = v@;
    let mut i: usize = 1;
    while i < v.len()
        invariant
            1 <= i,
            members_ok(v@, problem),
            sorted_by_cost(v@.subrange(0, i as int)) || v.len() == 0,
            i <= v.len() || v.len() == 0,
            v@.to_multiset() == orig.to_multiset(),
        decreases v.len() - i,
    {
        let key = v[i].cost_panic();
        let mut j: usize = i;
        while j > 0 && v[j - 1].cost_panic() > key
            invariant
                0 < i < v.len(),
                j <= i,
                members_ok(v@, problem),
                key == v@[i as int].spec_cost(),
                forall|k: int| j <= k < i ==> (#[trigger] v@[k]).spec_cost() > key,
            decreases j,
        {
            j -= 1;
        }
        let ghost before = v@;
        let item = v.remove(i);
        v.insert(j, item);
        proof {
            to_multiset_remove(before, i as int);
            to_multiset_insert(before.remove(i as int), j as int, item);
            broadcast use vstd::multiset::group_multiset_axioms;
            before.to_multiset_ensures();
            assert(before.contains(item));
            assert(before.to_multiset().remove(item).insert(item) =~= before.to_multiset());
            let after = v@;
            assert forall|k: int| 0 <= k < after.len() implies (#[trigger] after[k]).wf() && after[k].problem == problem
                && after[k]._cost is Some by {
                if k < j {
                    assert(after[k] == before[k]);
                } else if k == j {
                    assert(after[k] == before[i as int]);
                } else if k <= i {
                    assert(after[k] == before[k - 1]);
                } else {
                    assert(after[k] == before[k]);
                }
            }
            assert forall|a: int, b: int| 0 <= a < b < i + 1 implies (#[trigger] after.subrange(0, i + 1)[a]).spec_cost()
                <= (#[trigger] after.subrange(0, i + 1)[b]).spec_cost() by {
                let s = after.subrange(0, i + 1);
                let ia = if a < j { a } else if a == j { i as int } else { a - 1 };
                let ib = if b < j { b } else if b == j { i as int } else { b - 1 };
                assert(s[a] == before[ia]);
                assert(s[b] == before[ib]);
                if a < j && b == j && j > 0 {
                    assert(before.subrange(0, i as int)[a] == before[a]);
                    assert(before.subrange(0, i as int)[j - 1] == before[j - 1]);
                }
                if a < j && b != j {
                    assert(before.subrange(0, i as int)[ia] == before[ia]);
                    assert(before.subrange(0, i as int)[ib] == before[ib]);
                }
                if a > j && b > j {
                    assert(before.subrange(0, i as int)[ia] == before[ia]);
                    assert(before.subrange(0, i as int)[ib] == before[ib]);
                }
            }
        }
        i += 1;
    }
    if v.len() > 0 {
        assert(v@.subrange(0, v.len() as int) =~= v@);
    }
}

/// Sum of a sequence of fitness values.
pub open spec fn fitness_sum(f: Seq<usize>) -> int
    decreases f.len(),
{
    if f.len() == 0 {
        0
    } else {
        fitness_sum(f.drop_last()) + f.last()
    }
}

pub open spec fn count_true(s: Seq<bool>) -> int
    decreases s.len(),
{
    if s.len() == 0 {
        0
    } else {
        count_true(s.drop_last()) + if s.last() { 1int } else { 0int }
    }
}

/// Stochastic universal sampling over fitness values laid end to end:
/// position `k` is picked when the running fitness through `k` passes the
/// next pointer, which starts at `offset` and moves on by `arc` at each pick.
pub open spec fn sus_picks(f: Seq<usize>, offset: int, arc: int) -> Seq<bool>
    decreases f.len(),
{
    if f.len() == 0 {
        Seq::empty()
    } else {
        let prev = sus_picks(f.drop_last(), offset, arc);
        prev.push(fitness_sum(f) > offset + arc * count_true(prev))
    }
}

proof fn lemma_sus_len(f: Seq<usize>, offset: int, arc: int)
    ensures
        sus_picks(f, offset, arc).len() == f.len(),
        0 <= count_true(sus_picks(f, offset, arc)) <= f.len(),
        0 <= fitness_sum(f) <= f.len() * usize::MAX,
    decreases f.len(),
{
    if f.len() > 0 {
        lemma_sus_len(f.drop_last(), offset, arc);
        let prev = sus_picks(f.drop_last(), offset, arc);
        let b = fitness_sum(f) > offset + arc * count_true(prev);
        assert(prev.push(b).drop_last() =~= prev);
        assert(f.len() * usize::MAX == (f.len() - 1) * usize::MAX + usize::MAX) by (nonlinear_arith);
    }
}

/// Walks the fitness values once and marks each position that the pointers
/// of stochastic universal sampling pick.
pub fn sus_select(fits: &Vec<usize>, offset: u128, arc_len: u128) -> (picks: Vec<bool>)
    ensures
        picks@ == sus_picks(fits@, offset as int, arc_len as int),
{
    let mut picks: Vec<bool> = Vec::new();
    let mut acc: u128 = 0;
    let mut pos: u128 = offset;
    for k in 0..fits.len()
        invariant
            picks@ == sus_picks(fits@.subrange(0, k as int), offset as int, arc_len as int),
            acc == fitness_sum(fits@.subrange(0, k as int)),
            acc <= k * usize::MAX,
            k <= fits.len(),
            pos == if offset + arc_len * count_true(picks@) <= u128::MAX {
                offset + arc_len * count_true(picks@)
            } else {
                u128::MAX as int
            },
    {
        let ghost prev = picks@;
        let ghost sub = fits@.subrange(0, k as int + 1);
        assert(sub.drop_last() =~= fits@.subrange(0, k as int));
        proof {
            lemma_sus_len(fits@.subrange(0, k as int), offset as int, arc_len as int);
            assert(k * usize::MAX + usize::MAX <= usize::MAX * usize::MAX + usize::MAX) by (nonlinear_arith)
                requires k <= usize::MAX;
            assert(usize::MAX <= 0xffff_ffff_ffff_ffffu128);
            assert(usize::MAX * usize::MAX + usize::MAX < u128::MAX) by (nonlinear_arith)
                requires usize::MAX <= 0xffff_ffff_ffff_ffffu128;
        }
        acc = acc + fits[k] as u128;
        let ghost target = offset + arc_len * count_true(prev);
        if acc > pos {
            picks.push(true);
            proof {
                assert(picks@.drop_last() =~= prev);
                assert(arc_len * (count_true(prev) + 1) == arc_len * count_true(prev) + arc_len) by (nonlinear_arith);
            }
            pos = match pos.checked_add(arc_len) {
                Some(next) => next,
                None => u128::MAX,
            };
        } else {
            picks.push(false);
            assert(picks@.drop_last() =~= prev);
        }
        assert(k * usize::MAX + usize::MAX == (k + 1) * usize::MAX) by (nonlinear_arith);
    }
    assert(fits@.subrange(0, fits.len() as int) =~= fits@);
    picks
}


/// The fitness of the costliest member, padded by one percent, fits a `usize`.
pub open spec fn fitness_fits(max_cost: int) -> bool {
    max_cost + max_cost / 100 <= usize::MAX
}

/// Fitness of member `i` of a pool sorted by ascending cost: the largest
/// cost minus its own, plus one percent of the largest when padded.
pub open spec fn fitness_of<'a>(base: Seq<Placement<'a>>, i: int, padding_cost: bool) -> int {
    let m = base.last().spec_cost();
    m - base[i].spec_cost() + if padding_cost { m / 100 } else { 0 }
}

/// `keep` is what stochastic universal sampling marks in `base` when the
/// fitness values are laid out in the shuffled `order` and the first
/// pointer stands at `offset`: the spacing is the total fitness over
/// `n_survive`, and the offset lies below the spacing (or is zero).
pub open spec fn sus_outcome<'a>(
    base: Seq<Placement<'a>>,
    padding_cost: bool,
    n_survive: int,
    order: Seq<usize>,
    offset: int,
    keep: Seq<bool>,
) -> bool {
    let n = base.len();
    let fits = Seq::new(n, |k: int| fitness_of(base, order[k] as int, padding_cost) as usize);
    let arc = fitness_sum(fits) / n_survive;
    &&& order.len() == n
    &&& order.to_multiset() == Seq::new(n, |k: int| k as usize).to_multiset()
    &&& if arc > 0 { 0 <= offset < arc } else { offset == 0 }
    &&& keep.len() == n
    &&& forall|k: int| 0 <= k < n ==> keep[#[trigger] order[k] as int] == sus_picks(fits, offset, arc)[k]
}

/// Chooses survivors from a pool sorted by ascending cost, by stochastic
/// universal sampling: a member's fitness is the pool's largest cost minus
/// its own, plus one percent of that largest cost when `padding_cost`; the
/// fitness values are shuffled, `n_survive` pointers spaced by the total
/// over `n_survive` start at a random offset below that spacing, and the
/// members picked keep their order.
pub fn selection<'a>(
    selection_base: Vec<Placement<'a>>,
    n_survive: usize,
    padding_cost: bool,
    rng: &mut StdRng,
) -> (r: Vec<Placement<'a>>)
    requires
        selection_base.len() > 0,
        members_ok(selection_base@, selection_base@[0].problem),
        sorted_by_cost(selection_base@),
        n_survive > 0,
        fitness_fits(selection_base@.last().spec_cost()),
    ensures
        members_ok(r@, selection_base@[0].problem),
        exists|order: Seq<usize>, offset: int, keep: Seq<bool>|
            sus_outcome(selection_base@, padding_cost, n_survive as int, order, offset, keep) && r@ == keep_members(
                selection_base@,
                keep,
            ),
{
    let ghost problem = selection_base@[0].problem;
    let ghost orig = selection_base@;
    let n = selection_base.len();
    let cost_max = selection_base[n - 1].cost_panic();
    let padding: usize = if padding_cost { cost_max / 100 } else { 0 };

    let mut order: Vec<usize> = Vec::new();
    for i in 0..n
        invariant
            order@ == Seq::new(i as nat, |k: int| k as usize),
    {
        order.push(i);
        assert(order@ =~= Seq::new((i + 1) as nat, |k: int| k as usize));
    }
    let ghost ident = order@;
    shuffle(rng, &mut order);
    assert forall|k: int| 0 <= k < order.len() implies #[trigger] order@[k] < n by {
        order@.to_multiset_ensures();
        ident.to_multiset_ensures();
        assert(order@.contains(order@[k]));
        assert(order@.to_multiset().count(order@[k]) > 0);
        assert(ident.to_multiset().count(order@[k]) > 0);
        assert(ident.contains(order@[k]));
        let j = choose|j: int| 0 <= j < ident.len() && ident[j] == order@[k];
        assert(ident[j] == j);
    }
    proof {
        order@.to_multiset_ensures();
        ident.to_multiset_ensures();
        assert(order@.to_multiset().len() == ident.to_multiset().len());
    }

    let mut fits: Vec<usize> = Vec::new();
    for k in 0..n
        invariant
            n == selection_base.len(),
            n == order.len(),
            orig == selection_base@,
            members_ok(orig, problem),
            sorted_by_cost(orig),
            cost_max == orig[n - 1].spec_cost(),
            fitness_fits(cost_max as int),
            padding <= cost_max / 100,
            forall|k: int| 0 <= k < order.len() ==> #[trigger] order@[k] < n,
            fits.len() == k,
            padding == if padding_cost { cost_max / 100 } else { 0 },
            forall|j: int| 0 <= j < k ==> #[trigger] fits@[j] == fitness_of(orig, order@[j] as int, padding_cost),
    {
        let m = order[k];
        let c = selection_base[m].cost_panic();
        assert(c <= cost_max) by {
            if m < n - 1 {
                assert(orig[m as int].spec_cost() <= orig[n - 1].spec_cost());
            }
        }
        fits.push(cost_max - c + padding);
    }

    let mut total: u128 = 0;
    for k in 0..n
        invariant
            n == fits.len(),
            total == fitness_sum(fits@.subrange(0, k as int)),
    {
        proof {
            lemma_sus_len(fits@.subrange(0, k as int + 1), 0, 0);
            assert(fits@.subrange(0, k as int + 1).drop_last() =~= fits@.subrange(0, k as int));
            assert((k + 1) * usize::MAX <= usize::MAX * usize::MAX + usize::MAX) by (nonlinear_arith)
                requires k < usize::MAX;
            assert(usize::MAX <= 0xffff_ffff_ffff_ffffu128);
            assert(usize::MAX * usize::MAX + usize::MAX < u128::MAX) by (nonlinear_arith)
                requires usize::MAX <= 0xffff_ffff_ffff_ffffu128;
        }
        total = total + fits[k] as u128;
    }
    assert(fits@.subrange(0, n as int) =~= fits@);
    let arc_len = total / n_survive as u128;
    let offset = if arc_len > 0 { below(rng, arc_len) } else { 0 };
    let picks = sus_select(&fits, offset, arc_len);
    proof {
        lemma_sus_len(fits@, offset as int, arc_len as int);
    }

    let mut keep: Vec<bool> = Vec::new();
    for i in 0..n
        invariant
            keep@ == Seq::new(i as nat, |k: int| false),
    {
        keep.push(false);
        assert(keep@ =~= Seq::new((i + 1) as nat, |k: int| false));
    }
    proof {
        ident.lemma_multiset_has_no_duplicates();
        order@.to_multiset_ensures();
        ident.to_multiset_ensures();
        order@.lemma_multiset_has_no_duplicates_conv();
    }
    for k in 0..n
        invariant
            keep.len() == n,
            picks.len() == n,
            n == order.len(),
            order@.no_duplicates(),
            forall|k: int| 0 <= k < order.len() ==> #[trigger] order@[k] < n,
            forall|j: int| 0 <= j < k ==> keep@[#[trigger] order@[j] as int] == picks@[j],
    {
        let m = order[k];
        keep[m] = picks[k];
        assert forall|j: int| 0 <= j < k + 1 implies keep@[#[trigger] order@[j] as int] == picks@[j] by {
            if j < k {
                assert(order@[j] != order@[k as int]);
            }
        }
    }
    let ghost fits_model = Seq::new(n as nat, |k: int| fitness_of(orig, order@[k] as int, padding_cost) as usize);
    assert(fits@ =~= fits_model);
    proof {
        assert(ident =~= Seq::new(n as nat, |k: int| k as usize));
        assert(fitness_sum(fits_model) == total);
        assert(arc_len == fitness_sum(fits_model) / n_survive as int);
        assert(picks@ == sus_picks(fits_model, offset as int, arc_len as int));
        assert(sus_outcome(orig, padding_cost, n_survive as int, order@, offset as int, keep@));
    }

    let mut base = selection_base;
    let mut rev: Vec<Placement<'a>> = Vec::new();
    assert(keep@.subrange(0, n as int) =~= keep@);
    while base.len() > 0
        invariant
            keep.len() == orig.len(),
            base.len() <= orig.len(),
            members_ok(base@, problem),
            members_ok(rev@, problem),
            keep_members(orig, keep@) == keep_members(base@, keep@.subrange(0, base.len() as int)) + rev@.reverse(),
            base@ == orig.subrange(0, base.len() as int),
        decreases base.len(),
    {
        let ghost s = base@;
        let ghost ks = keep@.subrange(0, base.len() as int);
        let item = base.pop().unwrap();
        let k = base.len();
        proof {
            assert(ks.subrange(0, k as int) =~= keep@.subrange(0, k as int));
            assert(s.drop_last() == base@);
            assert(base@ =~= orig.subrange(0, k as int));
        }
        if keep[k] {
            let ghost r0 = rev@;
            rev.push(item);
            assert(rev@.reverse() =~= seq![item] + r0.reverse());
            assert(keep_members(s, ks).drop_last() == keep_members(base@, keep@.subrange(0, k as int)));
            assert(keep_members(s, ks) =~= keep_members(base@, keep@.subrange(0, k as int)).push(item));
        }
    }
    let mut result: Vec<Placement<'a>> = Vec::new();
    assert(keep@.subrange(0, 0) =~= Seq::<bool>::empty());
    assert(keep_members(base@, keep@.subrange(0, 0)) =~= Seq::<Placement<'a>>::empty());
    while rev.len() > 0
        invariant
            members_ok(rev@, problem),
            members_ok(result@, problem),
            keep_members(orig, keep@) == result@ + rev@.reverse(),
        decreases rev.len(),
    {
        let ghost r0 = rev@;
        let item = rev.pop().unwrap();
        assert(r0.reverse() =~= seq![item] + rev@.reverse());
        result.push(item);
    }
    assert(result@ =~= keep_members(orig, keep@));
    result
}

/// Two distinct cells of the grid, drawn at random.
fn random_pair(problem: &Problem, rng: &mut StdRng) -> (r: (Coor, Coor))
    requires
        problem.wf(),
        problem.nx * problem.ny >= 2,
    ensures
        r.0 != r.1,
        r.0.in_grid(problem.nx as int, problem.ny as int),
        r.1.in_grid(problem.nx as int, problem.ny as int),
{
    proof {
        lemma_grid_coors(problem.nx, problem.ny);
    }
    let r = take_2(&problem.coors, rng);
    assert(problem.coors.len() == problem.nx * problem.ny);
    r
}

/// `(p2c, g)` is reached from `(p2c0, g0)` by `k` swaps of two distinct
/// cells of an `nx` by `ny` grid.
pub open spec fn reached_by_swaps(
    p2c0: Seq<Coor>,
    g0: crate::layout::Grid,
    p2c: Seq<Coor>,
    g: crate::layout::Grid,
    nx: int,
    ny: int,
    k: nat,
) -> bool
    decreases k,
{
    if k == 0 {
        p2c == p2c0 && g == g0
    } else {
        exists|pm: Seq<Coor>, gm: crate::layout::Grid, a: Coor, b: Coor|
            #![trigger crate::layout::swap_p2c(pm, gm, a, b), crate::layout::swap_grid(gm, a, b)]
            reached_by_swaps(p2c0, g0, pm, gm, nx, ny, (k - 1) as nat) && a != b && a.in_grid(nx, ny) && b.in_grid(nx, ny)
                && p2c == crate::layout::swap_p2c(pm, gm, a, b) && g == crate::layout::swap_grid(gm, a, b)
    }
}

/// Applies a few random swaps of two distinct cells: ten during the first
/// ten thousand generations, two afterwards.
pub fn mutate<'a>(placement: &mut Placement<'a>, i_iter: &usize, rng: &mut StdRng)
    requires
        old(placement).wf(),
        old(placement).problem.nx * old(placement).problem.ny >= 2,
    ensures
        final(placement).wf(),
        final(placement).problem == old(placement).problem,
        final(placement)._cost is Some <==> old(placement)._cost is Some,
        reached_by_swaps(
            old(placement).pin2coor@,
            old(placement).grid(),
            final(placement).pin2coor@,
            final(placement).grid(),
            old(placement).problem.nx as int,
            old(placement).problem.ny as int,
            if *i_iter < 10_000 { 10 } else { 2 },
        ),
{
    let n_swap: usize = if *i_iter < 10_000 { 10 } else { 2 };
    let ghost p2c0 = placement.pin2coor@;
    let ghost g0 = placement.grid();
    let ghost nx = placement.problem.nx as int;
    let ghost ny = placement.problem.ny as int;
    for k in 0..n_swap
        invariant
            placement.wf(),
            placement.problem == old(placement).problem,
            placement.problem.nx * placement.problem.ny >= 2,
            placement._cost is Some <==> old(placement)._cost is Some,
            nx == placement.problem.nx,
            ny == placement.problem.ny,
            reached_by_swaps(p2c0, g0, placement.pin2coor@, placement.grid(), nx, ny, k as nat),
    {
        let ghost pm = placement.pin2coor@;
        let ghost gm = placement.grid();
        let (ca, cb) = random_pair(placement.problem, rng);
        placement.swap(ca, cb);
        assert(reached_by_swaps(p2c0, g0, placement.pin2coor@, placement.grid(), nx, ny, (k + 1) as nat)) by {
            assert(placement.pin2coor@ == crate::layout::swap_p2c(pm, gm, ca, cb));
            assert(placement.grid() == crate::layout::swap_grid(gm, ca, cb));
        }
    }
}

/// Tries one random swap and hands the placement back when the swap made
/// the two cells' costs rise, and nothing otherwise.
pub fn improve<'a>(placement: Placement<'a>, rng: &mut StdRng) -> (r: Option<Placement<'a>>)
    requires
        placement.wf(),
        placement.problem.nx * placement.problem.ny >= 2,
    ensures
        r matches Some(p) ==> {
            &&& p.wf()
            &&& p.problem == placement.problem
            &&& exists|ca: Coor, cb: Coor|
                #![trigger p.spec_cell_cost(ca), p.spec_cell_cost(cb)]
                placement.on_grid(ca) && placement.on_grid(cb) && ca != cb
                    && p.pin2coor@ == crate::layout::swap_p2c(placement.pin2coor@, placement.grid(), ca, cb)
                    && p.grid() == crate::layout::swap_grid(placement.grid(), ca, cb)
                    && placement.spec_cell_cost(ca) + placement.spec_cell_cost(cb) < p.spec_cell_cost(ca)
                    + p.spec_cell_cost(cb)
        },
{
    let mut placement = placement;
    let ghost old_p = placement;
    let (ca, cb) = random_pair(placement.problem, rng);
    let prev = placement.cell_cost(ca) as u128 + placement.cell_cost(cb) as u128;
    placement.swap(ca, cb);
    let curr = placement.cell_cost(ca) as u128 + placement.cell_cost(cb) as u128;
    if prev < curr {
        assert(placement.spec_cell_cost(ca) + placement.spec_cell_cost(cb) > old_p.spec_cell_cost(ca)
            + old_p.spec_cell_cost(cb));
        Some(placement)
    } else {
        None
    }
}

/// Crosses two parents at a random column: `d` takes `b`'s right side and
/// `a`'s left, `c` the mirror combination.
pub fn crossover<'a>(
    a: &Placement<'a>,
    b: &Placement<'a>,
    c: &mut Placement<'a>,
    d: &mut Placement<'a>,
    rng: &mut StdRng,
)
    requires
        a.layout_wf(),
        b.layout_wf(),
        a.problem == b.problem,
        old(c).problem == a.problem,
        old(d).problem == a.problem,
        a.problem.nx > 0,
    ensures
        final(c).wf(),
        final(d).wf(),
        final(c).problem == a.problem,
        final(d).problem == a.problem,
        final(c)._cost is None,
        final(d)._cost is None,
        exists|i_divide: int|
            0 <= i_divide < a.problem.nx && crate::crossover::child_of(*final(d), *a, *b, i_divide)
                && crate::crossover::child_of(*final(c), *b, *a, i_divide),
{
    let i_divide = below(rng, a.problem.nx as u128) as usize;
    crossover_half(a, b, d, i_divide, rng);
    crossover_half(b, a, c, i_divide, rng);
}

/// Every member is a well-formed placement of `problem`.
pub open spec fn members_wf<'a>(v: Seq<Placement<'a>>, problem: &'a Problem) -> bool {
    forall|i: int| 0 <= i < v.len() ==> (#[trigger] v[i]).wf() && v[i].problem == problem
}

/// Every net holds a single pin, so that every placement costs nothing.
pub open spec fn singleton_nets(problem: &Problem) -> bool {
    forall|i: int| 0 <= i < problem.nets.len() ==> (#[trigger] problem.nets@[i]).pins.len() == 1
}

impl Params {
    /// Settings the engine can run with on `problem`: at least one elite and
    /// one survivor beyond it, a pool to select from at the start, at least
    /// one crossover, a probability at most one, two cells to swap, and
    /// padded fitness values that fit a `usize`.
    pub open spec fn valid(&self, problem: &Problem) -> bool {
        &&& 1 <= self.n_elite
        &&& self.n_elite < self.n_population
        &&& self.n_elite < self.n_select
        &&& self.n_crossover >= 1
        &&& self.p_mutation_ppm <= PPM
        &&& self.n_generation < usize::MAX
        &&& problem.nx * problem.ny >= 2
        &&& fitness_fits(problem.nets.len() * (problem.nx + problem.ny))
    }
}

/// Outcome of a genetic run: the last population, sorted by cost, the best
/// cost recorded at each checkpoint, and the generation the run stopped at.
pub struct GeneticRun<'a> {
    pub population: Vec<Placement<'a>>,
    pub best_costs: Vec<usize>,
    pub generations: usize,
}

proof fn lemma_keep_len<T>(s: Seq<T>, keep: Seq<bool>)
    ensures
        keep_members(s, keep).len() <= s.len(),
    decreases s.len(),
{
    if s.len() > 0 && keep.len() >= s.len() {
        lemma_keep_len(s.drop_last(), keep.subrange(0, s.len() - 1));
    }
}

proof fn lemma_cost_bound<'a>(p: Placement<'a>)
    requires
        p.layout_wf(),
    ensures
        0 <= p.spec_cost() <= p.problem.nets.len() * (p.problem.nx + p.problem.ny),
        singleton_nets(p.problem) ==> p.spec_cost() == 0,
{
    let problem = p.problem;
    let nl = problem.netlist();
    assert(crate::cost::all_in_grid(p.pin2coor@, problem.nx as int, problem.ny as int));
    crate::cost::lemma_total_cost_bounds(nl, p.pin2coor@, problem.nx as int, problem.ny as int);
    crate::cost::lemma_cost_zero_iff(nl, p.pin2coor@, problem.nx as int, problem.ny as int);
    if singleton_nets(problem) {
        assert forall|i: int, j: int| 0 <= i < nl.len() && 0 <= j < nl[i].len() implies p.pin2coor@[
            #[trigger] nl[i][j] as int] == p.pin2coor@[nl[i][0] as int] by {
            assert(nl[i] == problem.nets@[i].pins@);
        }
    }
}

/// Runs the genetic engine: each generation evaluates and sorts the
/// population, records the best cost every `CHECKPOINT_EVERY` generations
/// and stops when the last `PLATEAU_LEN` records are equal or the generation
/// count passes `n_generation`; otherwise it keeps the `n_elite` best,
/// selects survivors from the rest, adds `n_crossover` pairs of children of
/// parents drawn from elite and survivors, and mutates survivors and
/// children with probability `p_mutation_ppm` in a million.
pub fn genetic_placement<'a>(problem: &'a Problem, params: &Params, rng: &mut StdRng) -> (r: GeneticRun<'a>)
    requires
        problem.wf(),
        params.valid(problem),
    ensures
        members_ok(r.population@, problem),
        sorted_by_cost(r.population@),
        r.population.len() > params.n_elite,
        r.generations <= params.n_generation + 1,
        r.best_costs.len() == r.generations / CHECKPOINT_EVERY + 1,
        r.best_costs@.last() == r.population@[0].spec_cost() || r.generations % CHECKPOINT_EVERY != 0,
        spec_last_n_equal(r.best_costs@, PLATEAU_LEN as int) || r.generations == params.n_generation + 1,
        singleton_nets(problem) && params.n_generation >= (PLATEAU_LEN - 1) * CHECKPOINT_EVERY ==> {
            &&& r.generations == (PLATEAU_LEN - 1) * CHECKPOINT_EVERY
            &&& forall|k: int| 0 <= k < r.best_costs.len() ==> #[trigger] r.best_costs@[k] == 0
        },
{
    let mut population: Vec<Placement<'a>> = Vec::new();
    for _k in 0..params.n_population
        invariant
            problem.wf(),
            members_wf(population@, problem),
            population.len() == _k,
    {
        population.push(problem.make_placement(rng));
    }

    let mut i_iter: usize = 0;
    let mut costs: Vec<usize> = Vec::new();
    let ghost plateau_at: int = ((PLATEAU_LEN - 1) * CHECKPOINT_EVERY) as int;
    loop
        invariant_except_break
            problem.wf(),
            params.valid(problem),
            members_wf(population@, problem),
            population.len() > params.n_elite,
            i_iter <= params.n_generation + 1,
            costs.len() == (i_iter + 999) / 1000,
            singleton_nets(problem) ==> forall|k: int| 0 <= k < costs.len() ==> #[trigger] costs@[k] == 0,
            singleton_nets(problem) && params.n_generation >= plateau_at ==> i_iter <= plateau_at,
            plateau_at == (PLATEAU_LEN - 1) * CHECKPOINT_EVERY,
        ensures
            members_ok(population@, problem),
            sorted_by_cost(population@),
            population.len() > params.n_elite,
            i_iter <= params.n_generation + 1,
            costs.len() == i_iter / CHECKPOINT_EVERY + 1,
            costs@.last() == population@[0].spec_cost() || i_iter % CHECKPOINT_EVERY != 0,
            spec_last_n_equal(costs@, PLATEAU_LEN as int) || i_iter == params.n_generation + 1,
            singleton_nets(problem) && params.n_generation >= plateau_at ==> {
                &&& i_iter == plateau_at
                &&& forall|k: int| 0 <= k < costs.len() ==> #[trigger] costs@[k] == 0
            },
        decreases params.n_generation + 1 - i_iter,
    {
        // evaluate and sort
        let n_pop = population.len();
        for i in 0..n_pop
            invariant
                population.len() == n_pop,
                members_wf(population@, problem),
                forall|k: int| 0 <= k < i ==> (#[trigger] population@[k])._cost is Some,
        {
            population[i].cost_mut();
        }
        let ghost pre = population@;
        sort_by_cost(&mut population, problem);
        proof {
            pre.to_multiset_ensures();
            population@.to_multiset_ensures();
            assert(population.len() == pre.len());
        }
        if i_iter % CHECKPOINT_EVERY == 0 {
            let best = population[0].cost_panic();
            proof {
                lemma_cost_bound(population@[0]);
            }
            let ghost c0 = costs@;
            costs.push(best);
            assert(costs@.drop_last() == c0);
            if last_n_equal(&costs, PLATEAU_LEN) {
                break;
            }
        }
        if i_iter > params.n_generation {
            break;
        } else {
            i_iter += 1;
        }

        // selection
        let ghost sorted_pop = population@;
        let selection_base = population.split_off(params.n_elite);
        let elite = population;
        proof {
            let last = selection_base@.last();
            assert(last == sorted_pop[sorted_pop.len() - 1]);
            lemma_cost_bound(last);
            let b = problem.nets.len() * (problem.nx + problem.ny);
            assert(last.spec_cost() / 100 <= b / 100) by {
                vstd::arithmetic::div_mod::lemma_div_is_ordered(last.spec_cost(), b as int, 100);
            }
            assert forall|i: int, j: int| 0 <= i < j < selection_base.len() implies (#[trigger] selection_base@[i]).spec_cost()
                <= (#[trigger] selection_base@[j]).spec_cost() by {
                assert(selection_base@[i] == sorted_pop[i + params.n_elite]);
                assert(selection_base@[j] == sorted_pop[j + params.n_elite]);
            }
            assert forall|i: int| 0 <= i < selection_base.len() implies (#[trigger] selection_base@[i]).wf()
                && selection_base@[i].problem == problem && selection_base@[i]._cost is Some by {
                assert(selection_base@[i] == sorted_pop[i + params.n_elite]);
            }
            assert forall|i: int| 0 <= i < elite.len() implies (#[trigger] elite@[i]).wf() && elite@[i].problem == problem by {
                assert(elite@[i] == sorted_pop[i]);
            }
        }
        let ghost base_len = selection_base.len();
        let survived = selection(selection_base, params.n_select - params.n_elite, true, rng);
        proof {
            let keep = choose|keep: Seq<bool>| keep.len() == base_len && survived@ == keep_members(sorted_pop.subrange(params.n_elite as int, sorted_pop.len() as int), keep);
            lemma_keep_len(sorted_pop.subrange(params.n_elite as int, sorted_pop.len() as int), keep);
        }

        // crossover
        let n_parents = elite.len() + survived.len();
        let mut crossed: Vec<Placement<'a>> = Vec::new();
        for _k in 0..params.n_crossover
            invariant
                problem.wf(),
                params.valid(problem),
                members_wf(elite@, problem),
                members_ok(survived@, problem),
                members_wf(crossed@, problem),
                n_parents == elite.len() + survived.len(),
                elite.len() == params.n_elite,
                crossed.len() == 2 * _k,
        {
            let i_pa = below(rng, n_parents as u128) as usize;
            let i_pb = below(rng, n_parents as u128) as usize;
            let a = if i_pa < elite.len() { &elite[i_pa] } else { &survived[i_pa - elite.len()] };
            let b = if i_pb < elite.len() { &elite[i_pb] } else { &survived[i_pb - elite.len()] };
            let mut c = Placement { problem, pin2coor: Vec::new(), coor2pin: Vec::new(), _cost: None };
            let mut d = Placement { problem, pin2coor: Vec::new(), coor2pin: Vec::new(), _cost: None };
            proof {
                assert(problem.nx > 0) by (nonlinear_arith)
                    requires problem.nx * problem.ny >= 2;
            }
            crossover(a, b, &mut c, &mut d, rng);
            crossed.push(c);
            crossed.push(d);
        }

        // mutation
        let mut mutation_base = survived;
        mutation_base.append(&mut crossed);
        let n_mut = mutation_base.len();
        for i in 0..n_mut
            invariant
                mutation_base.len() == n_mut,
                problem.wf(),
                params.valid(problem),
                members_wf(mutation_base@, problem),
        {
            if chance(rng, params.p_mutation_ppm, PPM) {
                mutate(&mut mutation_base[i], &i_iter, rng);
            }
        }

        // join
        population = elite;
        population.append(&mut mutation_base);
        assert(members_wf(population@, problem));
    }
    GeneticRun { population, best_costs: costs, generations: i_iter }
}

} // verus!
