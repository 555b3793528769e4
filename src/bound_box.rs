//! Bounding boxes of cells and their half-perimeter.

use vstd::prelude::*;

use crate::typing::Coor;

verus! {

/// Smallest value of a non-empty sequence.
pub open spec fn seq_min(s: Seq<int>) -> int
    decreases s.len(),
{
    if s.len() <= 1 {
        s[0]
    } else {
        let m = seq_min(s.drop_last());
        if s.last() < m { s.last() } else { m }
    }
}

/// Largest value of a non-empty sequence.
pub open spec fn seq_max(s: Seq<int>) -> int
    decreases s.len(),
{
    if s.len() <= 1 {
        s[0]
    } else {
        let m = seq_max(s.drop_last());
        if s.last() > m { s.last() } else { m }
    }
}

pub open spec fn xs(cs: Seq<Coor>) -> Seq<int> {
    cs.map_values(|c: Coor| c.0 as int)
}

pub open spec fn ys(cs: Seq<Coor>) -> Seq<int> {
    cs.map_values(|c: Coor| c.1 as int)
}

pub open spec fn min_x(cs: Seq<Coor>) -> int {
    seq_min(xs(cs))
}

pub open spec fn max_x(cs: Seq<Coor>) -> int {
    seq_max(xs(cs))
}

pub open spec fn min_y(cs: Seq<Coor>) -> int {
    seq_min(ys(cs))
}

pub open spec fn max_y(cs: Seq<Coor>) -> int {
    seq_max(ys(cs))
}

/// Half-perimeter of the bounding box of a sequence of cells; zero when empty.
pub open spec fn half_perimeter_of(cs: Seq<Coor>) -> int {
    if cs.len() == 0 {
        0
    } else {
        (max_y(cs) - min_y(cs)) + (max_x(cs) - min_x(cs))
    }
}

/// Running bounding box of the cells added so far.
#[derive(Debug)]
pub struct BoundBox {
    pub top: usize,
    pub bottom: usize,
    pub left: usize,
    pub right: usize,
    pub initialized: bool,
}

impl BoundBox {
    /// Once a cell has been added, the edges are ordered.
    pub open spec fn wf(&self) -> bool {
        self.initialized ==> self.left <= self.right && self.top <= self.bottom
    }

    /// The box is exactly the bounding box of `cs`.
    pub open spec fn models(&self, cs: Seq<Coor>) -> bool {
        if cs.len() == 0 {
            !self.initialized
        } else {
            &&& self.initialized
            &&& self.left == min_x(cs)
            &&& self.right == max_x(cs)
            &&& self.top == min_y(cs)
            &&& self.bottom == max_y(cs)
        }
    }

    pub open spec fn spec_half_perimeter(&self) -> int {
        (self.bottom - self.top) + (self.right - self.left)
    }

    pub fn new() -> (r: Self)
        ensures
            r.wf(),
            r.models(Seq::empty()),
            r.top == 0 && r.bottom == 0 && r.left == 0 && r.right == 0,
    {
        return Self { top: 0, left: 0, bottom: 0, right: 0, initialized: false };
    }

    /// Folds a cell into the running minimum and maximum of x and y.
    pub fn add_coor(&mut self, coor: Coor)
        requires
            old(self).wf(),
        ensures
            final(self).wf(),
            final(self).initialized,
            !old(self).initialized ==> final(self).left == coor.0 && final(self).right == coor.0
                && final(self).top == coor.1 && final(self).bottom == coor.1,
            old(self).initialized ==> {
                &&& final(self).left == if coor.0 < old(self).left { coor.0 } else { old(self).left }
                &&& final(self).right == if coor.0 > old(self).right { coor.0 } else { old(self).right }
                &&& final(self).top == if coor.1 < old(self).top { coor.1 } else { old(self).top }
                &&& final(self).bottom == if coor.1 > old(self).bottom { coor.1 } else { old(self).bottom }
            },
            old(self).initialized ==> final(self).spec_half_perimeter()
                >= old(self).spec_half_perimeter(),
            forall|cs: Seq<Coor>| #[trigger] old(self).models(cs) ==> final(self).models(cs.push(coor)),
    {
        let x = coor.0;
        let y = coor.1;
        if !self.initialized {
            self.top = y;
            self.bottom = y;
            self.left = x;
            self.right = x;
            self.initialized = true;
            proof {
                assert forall|cs: Seq<Coor>| #[trigger] old(self).models(cs) implies self.models(cs.push(coor)) by {
                    assert(cs.len() == 0);
                    assert(xs(cs.push(coor)).len() == 1);
                    assert(ys(cs.push(coor)).len() == 1);
                }
            }
            return;
        }
        if x < self.left {
            self.left = x;
        } else if x > self.right {
            self.right = x;
        }
        if y < self.top {
            self.top = y;
        } else if y > self.bottom {
            self.bottom = y;
        }
        proof {
            assert forall|cs: Seq<Coor>| #[trigger] old(self).models(cs) implies self.models(cs.push(coor)) by {
                let s = cs.push(coor);
                assert(s.drop_last() =~= cs);
                assert(xs(s).drop_last() =~= xs(cs));
                assert(ys(s).drop_last() =~= ys(cs));
            }
        }
    }

    /// `(bottom - top) + (right - left)`; needs at least one cell added.
    pub fn half_perimeter(&self) -> (r: usize)
        requires
            self.wf(),
            self.initialized,
            self.spec_half_perimeter() <= usize::MAX,
        ensures
            r == self.spec_half_perimeter(),
            forall|cs: Seq<Coor>| #[trigger] self.models(cs) ==> r == half_perimeter_of(cs),
    {
        return (self.bottom - self.top) + (self.right - self.left);
    }
}

} // verus!

verus! {

/// The smallest value bounds every element and is one of them.
pub proof fn lemma_seq_min(s: Seq<int>)
    requires
        s.len() > 0,
    ensures
        forall|i: int| 0 <= i < s.len() ==> seq_min(s) <= #[trigger] s[i],
        s.contains(seq_min(s)),
    decreases s.len(),
{
    if s.len() > 1 {
        lemma_seq_min(s.drop_last());
        let m = seq_min(s.drop_last());
        let k = choose|k: int| 0 <= k < s.drop_last().len() && s.drop_last()[k] == m;
        assert(s[k] == m);
        if s.last() < m {
            assert(s[s.len() - 1] == s.last());
        }
        assert forall|i: int| 0 <= i < s.len() implies seq_min(s) <= #[trigger] s[i] by {
            if i < s.len() - 1 {
                assert(s[i] == s.drop_last()[i]);
            }
        }
    } else {
        assert(s[0] == seq_min(s));
    }
}

/// The largest value bounds every element and is one of them.
pub proof fn lemma_seq_max(s: Seq<int>)
    requires
        s.len() > 0,
    ensures
        forall|i: int| 0 <= i < s.len() ==> #[trigger] s[i] <= seq_max(s),
        s.contains(seq_max(s)),
    decreases s.len(),
{
    if s.len() > 1 {
        lemma_seq_max(s.drop_last());
        let m = seq_max(s.drop_last());
        let k = choose|k: int| 0 <= k < s.drop_last().len() && s.drop_last()[k] == m;
        assert(s[k] == m);
        if s.last() > m {
            assert(s[s.len() - 1] == s.last());
        }
        assert forall|i: int| 0 <= i < s.len() implies #[trigger] s[i] <= seq_max(s) by {
            if i < s.len() - 1 {
                assert(s[i] == s.drop_last()[i]);
            }
        }
    } else {
        assert(s[0] == seq_max(s));
    }
}

/// Two sequences holding the same values have the same minimum and maximum.
pub proof fn lemma_same_values(a: Seq<int>, b: Seq<int>)
    requires
        a.len() > 0,
        b.len() > 0,
        forall|v: int| a.contains(v) <==> b.contains(v),
    ensures
        seq_min(a) == seq_min(b),
        seq_max(a) == seq_max(b),
{
    lemma_seq_min(a);
    lemma_seq_min(b);
    lemma_seq_max(a);
    lemma_seq_max(b);
    assert(b.contains(seq_min(a)));
    assert(a.contains(seq_min(b)));
    assert(b.contains(seq_max(a)));
    assert(a.contains(seq_max(b)));
}

/// Two sequences holding the same cells have the same half-perimeter.
pub proof fn lemma_same_cells(a: Seq<Coor>, b: Seq<Coor>)
    requires
        forall|c: Coor| a.contains(c) <==> b.contains(c),
    ensures
        half_perimeter_of(a) == half_perimeter_of(b),
{
    if a.len() > 0 {
        assert(b.contains(a[0]));
    }
    if b.len() > 0 {
        assert(a.contains(b[0]));
    }
    if a.len() > 0 && b.len() > 0 {
        assert forall|v: int| xs(a).contains(v) <==> xs(b).contains(v) by {
            if xs(a).contains(v) {
                let i = choose|i: int| 0 <= i < xs(a).len() && xs(a)[i] == v;
                assert(b.contains(a[i]));
                let j = choose|j: int| 0 <= j < b.len() && b[j] == a[i];
                assert(xs(b)[j] == v);
            }
            if xs(b).contains(v) {
                let i = choose|i: int| 0 <= i < xs(b).len() && xs(b)[i] == v;
                assert(a.contains(b[i]));
                let j = choose|j: int| 0 <= j < a.len() && a[j] == b[i];
                assert(xs(a)[j] == v);
            }
        }
        assert forall|v: int| ys(a).contains(v) <==> ys(b).contains(v) by {
            if ys(a).contains(v) {
                let i = choose|i: int| 0 <= i < ys(a).len() && ys(a)[i] == v;
                assert(b.contains(a[i]));
                let j = choose|j: int| 0 <= j < b.len() && b[j] == a[i];
                assert(ys(b)[j] == v);
            }
            if ys(b).contains(v) {
                let i = choose|i: int| 0 <= i < ys(b).len() && ys(b)[i] == v;
                assert(a.contains(b[i]));
                let j = choose|j: int| 0 <= j < a.len() && a[j] == b[i];
                assert(ys(a)[j] == v);
            }
        }
        lemma_same_values(xs(a), xs(b));
        lemma_same_values(ys(a), ys(b));
    }
}

/// On an `nx` by `ny` grid the half-perimeter lies in `[0, nx + ny - 2]`,
/// and it is zero exactly when all cells coincide.
pub proof fn lemma_half_perimeter_bounds(cs: Seq<Coor>, nx: int, ny: int)
    requires
        forall|i: int| 0 <= i < cs.len() ==> (#[trigger] cs[i]).in_grid(nx, ny),
    ensures
        0 <= half_perimeter_of(cs),
        cs.len() > 0 ==> half_perimeter_of(cs) <= (nx - 1) + (ny - 1),
        half_perimeter_of(cs) == 0 <==> (forall|i: int| 0 <= i < cs.len() ==> #[trigger] cs[i] == cs[0]),
{
    if cs.len() > 0 {
        lemma_seq_min(xs(cs));
        lemma_seq_max(xs(cs));
        lemma_seq_min(ys(cs));
        lemma_seq_max(ys(cs));
        assert(xs(cs)[0] == cs[0].0);
        assert(ys(cs)[0] == cs[0].1);
        let i = choose|i: int| 0 <= i < xs(cs).len() && xs(cs)[i] == max_x(cs);
        let j = choose|j: int| 0 <= j < ys(cs).len() && ys(cs)[j] == max_y(cs);
        assert(cs[i].in_grid(nx, ny));
        assert(cs[j].in_grid(nx, ny));
        if half_perimeter_of(cs) == 0 {
            assert forall|k: int| 0 <= k < cs.len() implies #[trigger] cs[k] == cs[0] by {
                assert(xs(cs)[k] == cs[k].0);
                assert(ys(cs)[k] == cs[k].1);
            }
        }
        if forall|k: int| 0 <= k < cs.len() ==> #[trigger] cs[k] == cs[0] {
            let a = choose|a: int| 0 <= a < xs(cs).len() && xs(cs)[a] == min_x(cs);
            let b = choose|b: int| 0 <= b < ys(cs).len() && ys(cs)[b] == min_y(cs);
            assert(cs[a] == cs[0]);
            assert(cs[b] == cs[0]);
            assert(cs[i] == cs[0]);
            assert(cs[j] == cs[0]);
        }
    }
}

} // verus!
