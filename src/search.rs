use vstd::arithmetic::div_mod::{lemma_div_pos_is_pos, lemma_fundamental_div_mod, lemma_mod_pos_bound};
use vstd::prelude::*;
use vstd::set_lib::{lemma_int_range, lemma_len_subset, set_int_range};

use crate::trans_map::{is_neighbor, lemma_surround, surround_of, CellType, MapCell, Point, TransMap};

verus! {

/// The largest cost one cell can charge.
pub open spec fn cell_max() -> int {
    u32::MAX as int
}

/// One candidate state of the search: the point reached, the point it was
/// reached from (none for the start), and the total cost of getting there.
/// The cost is held in a `u128`, which no route over a map held in memory
/// can exceed.
#[derive(Copy, Clone, Debug, PartialEq, Eq, Structural)]
pub struct Trans {
    pub from: Option<Point>,
    pub to: Point,
    pub price: u128,
}

/// Why a search could not be run.
#[derive(Copy, Clone, Debug, PartialEq, Eq, Structural)]
pub enum SearchError {
    /// The map has no start cell.
    NoStart,
}

/// What one step of the search came to.
#[derive(Copy, Clone, Debug, PartialEq, Eq, Structural)]
pub enum Step {
    /// An entry on a finish cell was taken from the open set.
    Found(Trans),
    /// The open set is empty: no finish cell can be reached.
    Exhausted,
    /// An entry was closed and its neighbours relaxed.
    Continue,
}

pub open spec fn is_start_cell(c: Option<MapCell>) -> bool {
    match c {
        Some(c) => c.typ == CellType::Start,
        None => false,
    }
}

/// The cell at `p` is a finish cell.
pub open spec fn is_finish(m: &TransMap, p: Point) -> bool {
    match m.cell_at(p) {
        Some(c) => c.typ == CellType::Finish,
        None => false,
    }
}

/// The cost charged on entering `p`.
pub open spec fn entry_price(m: &TransMap, p: Point) -> int {
    match m.cell_at(p) {
        Some(c) => c.price as int,
        None => 0,
    }
}

/// A non-empty sequence of points, each a neighbour of the one before, each
/// after the first on a cell of the map.
pub open spec fn is_walk(m: &TransMap, w: Seq<Point>) -> bool {
    &&& w.len() >= 1
    &&& forall|i: int|
        1 <= i < w.len() ==> is_neighbor(w[i - 1], #[trigger] w[i]) && m.cell_at(w[i]) is Some
}

/// The sum of the costs of the cells a walk enters, the first one excluded.
pub open spec fn walk_cost(m: &TransMap, w: Seq<Point>) -> int
    decreases w.len(),
{
    if w.len() <= 1 {
        0
    } else {
        entry_price(m, w[1]) + walk_cost(m, w.drop_first())
    }
}

/// A walk from `start` to a finish cell.
pub open spec fn is_finish_walk(m: &TransMap, start: Point, w: Seq<Point>) -> bool {
    &&& is_walk(m, w)
    &&& w[0] == start
    &&& is_finish(m, w.last())
}

/// `i` is the first position, row by row, that holds a start cell, and `p` is
/// its point.
pub open spec fn is_first_start(m: &TransMap, i: int, p: Point) -> bool {
    &&& 0 <= i < m.cells().len()
    &&& is_start_cell(m.cells()[i])
    &&& forall|j: int| 0 <= j < i ==> !is_start_cell(#[trigger] m.cells()[j])
    &&& p == m.point_of(i)
}

/// The map holds a start cell somewhere.
pub open spec fn has_start(m: &TransMap) -> bool {
    exists|i: int| 0 <= i < m.cells().len() && is_start_cell(#[trigger] m.cells()[i])
}

/// Some entry of `s` stands at `p`.
pub open spec fn has_loc(s: Seq<Trans>, p: Point) -> bool {
    exists|i: int| 0 <= i < s.len() && (#[trigger] s[i]).to == p
}

/// Some entry of `s` stands at `p` with a cost of at most `price`.
pub open spec fn has_at_most(s: Seq<Trans>, p: Point, price: int) -> bool {
    exists|i: int| 0 <= i < s.len() && (#[trigger] s[i]).to == p && s[i].price <= price
}

/// No two entries of `s` stand at the same point.
pub open spec fn unique_locs(s: Seq<Trans>) -> bool {
    forall|i: int, j: int| 0 <= i < s.len() && 0 <= j < s.len() && i != j ==> s[i].to != s[j].to
}

/// `e` is the start entry, or it was reached from one of the first `bound`
/// entries of `c`, a neighbour, by entering its own cell.
pub open spec fn linked(m: &TransMap, c: Seq<Trans>, bound: int, e: Trans, start: Point) -> bool {
    match e.from {
        None => e.to == start && e.price == 0,
        Some(f) => exists|j: int|
            0 <= j < bound && (#[trigger] c[j]).to == f && is_neighbor(f, e.to) && e.price
                == c[j].price + entry_price(m, e.to),
    }
}

/// The entries of `c` stand at distinct points with cells, and each is the
/// start entry or was reached from an earlier one.
pub open spec fn tree_ok(m: &TransMap, c: Seq<Trans>, start: Point) -> bool {
    &&& unique_locs(c)
    &&& forall|i: int| 0 <= i < c.len() ==> m.cell_at((#[trigger] c[i]).to) is Some
    &&& forall|i: int| 0 <= i < c.len() ==> linked(m, c, i, #[trigger] c[i], start)
}

/// What holds of each open entry, against the closed set `c`.
pub open spec fn open_entry_ok(m: &TransMap, c: Seq<Trans>, start: Point, e: Trans) -> bool {
    &&& m.cell_at(e.to) is Some
    &&& linked(m, c, c.len() as int, e, start)
    &&& e.price <= c.len() * cell_max()
    &&& !has_loc(c, e.to)
}

/// `i` is the first position of an entry of least cost in `s`.
pub open spec fn is_first_min(s: Seq<Trans>, i: int) -> bool {
    &&& 0 <= i < s.len()
    &&& forall|k: int| 0 <= k < s.len() ==> s[i].price <= #[trigger] s[k].price
    &&& forall|k: int| 0 <= k < i ==> s[i].price < #[trigger] s[k].price
}

/// The state of a uniform-cost search: the entries still to expand and those
/// already expanded, in the order they were added.
pub struct Search {
    pub start: Point,
    pub open: Vec<Trans>,
    pub closed: Vec<Trans>,
}

impl Search {
    /// The search state is consistent with the map `m`.
    pub open spec fn wf(&self, m: &TransMap) -> bool {
        let c = self.closed@;
        let o = self.open@;
        &&& m.cell_at(self.start) is Some
        &&& tree_ok(m, c, self.start)
        &&& unique_locs(o)
        &&& forall|i: int| 0 <= i < c.len() ==> (#[trigger] c[i]).price <= i * cell_max()
        &&& forall|i: int| 0 <= i < c.len() ==> !is_finish(m, (#[trigger] c[i]).to)
        &&& forall|k: int| 0 <= k < o.len() ==> open_entry_ok(m, c, self.start, #[trigger] o[k])
        &&& c.len() == 0 ==> o == seq![Trans { from: None, to: self.start, price: 0 }]
        &&& c.len() > 0 ==> c[0].to == self.start
        &&& forall|i: int, w: Seq<Point>|
            #![trigger c[i], walk_cost(m, w)]
            0 <= i < c.len() && is_walk(m, w) && w[0] == self.start && w.last() == c[i].to
                ==> c[i].price <= walk_cost(m, w)
        &&& forall|i: int, q: Point|
            #![trigger c[i], is_neighbor(c[i].to, q)]
            0 <= i < c.len() && is_neighbor(c[i].to, q) && m.cell_at(q) is Some && !has_loc(c, q)
                ==> has_at_most(o, q, c[i].price + entry_price(m, q))
    }
}

/// In every consistent search state, which `new` sets up and `step`
/// keeps, the open set holds at most one entry per point, and so does the
/// closed set.
pub proof fn lemma_one_entry_per_point(s: &Search, m: &TransMap)
    requires
        s.wf(m),
    ensures
        unique_locs(s.open@),
        unique_locs(s.closed@),
        forall|i: int, k: int|
            0 <= i < s.closed@.len() && 0 <= k < s.open@.len() ==> s.closed@[i].to != s.open@[k].to,
{
    assert forall|i: int, k: int|
        0 <= i < s.closed@.len() && 0 <= k < s.open@.len() implies s.closed@[i].to != s.open@[k].to by {
        assert(open_entry_ok(m, s.closed@, s.start, s.open@[k]));
    }
}

pub proof fn lemma_walk_cost_nonneg(m: &TransMap, w: Seq<Point>)
    ensures
        walk_cost(m, w) >= 0,
    decreases w.len(),
{
    if w.len() > 1 {
        lemma_walk_cost_nonneg(m, w.drop_first());
    }
}

/// The cost of a walk is that of the walk without its last point, plus the
/// cost of entering the last point.
pub proof fn lemma_walk_cost_last(m: &TransMap, w: Seq<Point>)
    requires
        w.len() >= 2,
    ensures
        walk_cost(m, w) == walk_cost(m, w.drop_last()) + entry_price(m, w.last()),
    decreases w.len(),
{
    if w.len() > 2 {
        lemma_walk_cost_last(m, w.drop_first());
        assert(w.drop_first().drop_last() =~= w.drop_last().drop_first());
        assert(w.drop_last()[1] == w[1]);
        assert(w.drop_first().last() == w.last());
        assert(walk_cost(m, w.drop_last()) == entry_price(m, w[1]) + walk_cost(
            m,
            w.drop_last().drop_first(),
        ));
    } else {
        assert(w.drop_first().len() == 1);
        assert(w.drop_last().len() == 1);
        assert(w.last() == w[1]);
        assert(walk_cost(m, w.drop_first()) == 0);
        assert(walk_cost(m, w.drop_last()) == 0);
    }
}

proof fn lemma_walk_prefix(m: &TransMap, w: Seq<Point>)
    requires
        is_walk(m, w),
        w.len() >= 2,
    ensures
        is_walk(m, w.drop_last()),
        w.drop_last()[0] == w[0],
        is_neighbor(w.drop_last().last(), w.last()),
        m.cell_at(w.last()) is Some,
{
    let v = w.drop_last();
    assert forall|i: int| 1 <= i < v.len() implies is_neighbor(v[i - 1], #[trigger] v[i])
        && m.cell_at(v[i]) is Some by {
        assert(w[i] == v[i]);
    }
    assert(w[w.len() - 1] == w.last());
}

impl Search {
    /// Every walk from the start to a point that is not closed passes an open
    /// entry that costs no more than the walk.
    proof fn lemma_frontier(&self, m: &TransMap, w: Seq<Point>) -> (k: int)
        requires
            self.wf(m),
            self.closed@.len() > 0,
            is_walk(m, w),
            w[0] == self.start,
            !has_loc(self.closed@, w.last()),
        ensures
            0 <= k < self.open@.len(),
            self.open@[k].price <= walk_cost(m, w),
        decreases w.len(),
    {
        let c = self.closed@;
        let o = self.open@;
        if w.len() == 1 {
            assert(c[0].to == w.last());
            assert(false);
            0
        } else {
            let v = w.drop_last();
            lemma_walk_prefix(m, w);
            lemma_walk_cost_last(m, w);
            let q = w.last();
            if has_loc(c, v.last()) {
                let j = choose|j: int| 0 <= j < c.len() && (#[trigger] c[j]).to == v.last();
                assert(c[j].price <= walk_cost(m, v));
                assert(is_neighbor(c[j].to, q));
                assert(has_at_most(o, q, c[j].price + entry_price(m, q)));
                let k = choose|k: int|
                    0 <= k < o.len() && (#[trigger] o[k]).to == q && o[k].price <= c[j].price
                        + entry_price(m, q);
                k
            } else {
                let k = self.lemma_frontier(m, v);
                lemma_walk_cost_nonneg(m, w);
                assert(entry_price(m, q) >= 0);
                k
            }
        }
    }
}

/// Replacing the entry at `k` by a cheaper one at the same point keeps every
/// bound on the cost of reaching a point, and keeps the points distinct.
proof fn lemma_replace(o: Seq<Trans>, k: int, e: Trans)
    requires
        0 <= k < o.len(),
        o[k].to == e.to,
        e.price < o[k].price,
        unique_locs(o),
    ensures
        forall|q: Point, price: int|
            has_at_most(o, q, price) ==> #[trigger] has_at_most(o.remove(k).push(e), q, price),
        unique_locs(o.remove(k).push(e)),
{
    let o2 = o.remove(k).push(e);
    assert forall|q: Point, price: int| has_at_most(o, q, price) implies #[trigger] has_at_most(
        o2,
        q,
        price,
    ) by {
        let i = choose|i: int| 0 <= i < o.len() && (#[trigger] o[i]).to == q && o[i].price <= price;
        if i < k {
            assert(o2[i] == o[i]);
        } else if i > k {
            assert(o2[i - 1] == o[i]);
        } else {
            assert(o2[o2.len() - 1] == e);
        }
    }
    assert forall|a: int, b: int|
        0 <= a < o2.len() && 0 <= b < o2.len() && a != b implies o2[a].to != o2[b].to by {
        let ia = if a == o2.len() - 1 { k } else if a < k { a } else { a + 1 };
        let ib = if b == o2.len() - 1 { k } else if b < k { b } else { b + 1 };
        assert(o2[a].to == o[ia].to);
        assert(o2[b].to == o[ib].to);
    }
}

/// Removing the entry at `k` keeps every bound on the cost of reaching
/// another point.
proof fn lemma_remove(o: Seq<Trans>, k: int)
    requires
        0 <= k < o.len(),
    ensures
        forall|q: Point, price: int|
            has_at_most(o, q, price) && q != o[k].to ==> #[trigger] has_at_most(o.remove(k), q, price),
{
    let o2 = o.remove(k);
    assert forall|q: Point, price: int| has_at_most(o, q, price) && q != o[k].to implies #[trigger] has_at_most(
        o2,
        q,
        price,
    ) by {
        let i = choose|i: int| 0 <= i < o.len() && (#[trigger] o[i]).to == q && o[i].price <= price;
        if i < k {
            assert(o2[i] == o[i]);
        } else {
            assert(o2[i - 1] == o[i]);
        }
    }
}

/// Appending an entry keeps every bound on the cost of reaching a point.
proof fn lemma_push(o: Seq<Trans>, e: Trans)
    ensures
        forall|q: Point, price: int|
            has_at_most(o, q, price) ==> #[trigger] has_at_most(o.push(e), q, price),
{
    assert forall|q: Point, price: int| has_at_most(o, q, price) implies #[trigger] has_at_most(
        o.push(e),
        q,
        price,
    ) by {
        let i = choose|i: int| 0 <= i < o.len() && (#[trigger] o[i]).to == q && o[i].price <= price;
        assert(o.push(e)[i] == o[i]);
    }
}

/// The first position of an entry of `v` at `p`, if any.
fn position(v: &Vec<Trans>, p: Point) -> (r: Option<usize>)
    ensures
        match r {
            Some(k) => k < v@.len() && v@[k as int].to == p,
            None => !has_loc(v@, p),
        },
{
    let mut i: usize = 0;
    while i < v.len()
        invariant
            i <= v@.len(),
            forall|j: int| 0 <= j < i ==> (#[trigger] v@[j]).to != p,
        decreases v@.len() - i,
    {
        if v[i].to == p {
            return Some(i);
        }
        i = i + 1;
    }
    None
}

impl Search {
    /// A search from `start` before its first step: only the start entry is
    /// open.
    pub fn new(m: &TransMap, start: Point) -> (r: Search)
        requires
            m.cell_at(start) is Some,
        ensures
            r.wf(m),
            r.start == start,
            r.closed@.len() == 0,
            r.open@ == seq![Trans { from: None, to: start, price: 0 }],
    {
        let r = Search { start, open: vec![Trans { from: None, to: start, price: 0 }], closed: Vec::new() };
        assert(r.open@ =~= seq![Trans { from: None, to: start, price: 0 }]);
        r
    }

    /// Takes the open entry of least cost (the earliest added among equals). An
    /// entry on a finish cell ends the search; any other is closed, and each
    /// neighbour with a cell that is not closed is opened, or its open entry
    /// replaced where the new cost is strictly lower.
    pub fn step(&mut self, m: &TransMap) -> (r: Step)
        requires
            old(self).wf(m),
        ensures
            final(self).start == old(self).start,
            (r == Step::Exhausted) <==> old(self).open@.len() == 0,
            r == Step::Exhausted ==> forall|w: Seq<Point>|
                !is_finish_walk(m, old(self).start, w),
            r != Step::Exhausted ==> exists|i: int|
                is_first_min(old(self).open@, i) && (r is Found ==> r->Found_0
                    == old(self).open@[i]) && (r is Continue ==> final(self).closed@
                    == old(self).closed@.push(old(self).open@[i])),
            r is Found ==> {
                let t = r->Found_0;
                &&& final(self).closed@ == old(self).closed@
                &&& is_finish(m, t.to)
                &&& linked(m, old(self).closed@, old(self).closed@.len() as int, t, old(self).start)
                &&& m.cell_at(t.to) is Some
                &&& forall|w: Seq<Point>|
                    is_finish_walk(m, old(self).start, w) ==> t.price <= walk_cost(m, w)
            },
            r is Continue ==> final(self).wf(m),
            r is Continue ==> final(self).closed@.len() <= m.cells().len(),
    {
        let ghost start = self.start;
        let ghost c0 = self.closed@;
        let ghost o0 = self.open@;
        if self.open.len() == 0 {
            proof {
                assert forall|w: Seq<Point>| !is_finish_walk(m, start, w) by {
                    if is_finish_walk(m, start, w) {
                        if c0.len() == 0 {
                            assert(o0.len() == 1);
                        }
                        if has_loc(c0, w.last()) {
                            let i = choose|i: int| 0 <= i < c0.len() && (#[trigger] c0[i]).to == w.last();
                            assert(!is_finish(m, c0[i].to));
                        }
                        self.lemma_frontier(m, w);
                    }
                }
            }
            return Step::Exhausted;
        }
        let mut best: usize = 0;
        let mut i: usize = 1;
        while i < self.open.len()
            invariant
                self.open@ == o0,
                o0.len() > 0,
                0 <= best < i <= o0.len(),
                forall|k: int| 0 <= k < i ==> o0[best as int].price <= #[trigger] o0[k].price,
                forall|k: int| 0 <= k < best ==> o0[best as int].price < #[trigger] o0[k].price,
            decreases o0.len() - i,
        {
            if self.open[i].price < self.open[best].price {
                best = i;
            }
            i = i + 1;
        }
        assert(is_first_min(o0, best as int));
        let t = self.open.remove(best);
        let ghost o1 = self.open@;
        proof {
            assert(open_entry_ok(m, c0, start, o0[best as int]));
            assert forall|w: Seq<Point>|
                is_walk(m, w) && w[0] == start && !has_loc(c0, w.last()) implies t.price
                <= walk_cost(m, w) by {
                lemma_walk_cost_nonneg(m, w);
                if c0.len() > 0 {
                    old(self).lemma_frontier(m, w);
                }
            }
        }
        match m.at(t.to) {
            Some(c) => {
                if c.typ == CellType::Finish {
                    proof {
                        assert forall|w: Seq<Point>|
                            is_finish_walk(m, start, w) implies t.price <= walk_cost(m, w) by {
                            if has_loc(c0, w.last()) {
                                let i = choose|i: int|
                                    0 <= i < c0.len() && (#[trigger] c0[i]).to == w.last();
                                assert(!is_finish(m, c0[i].to));
                            }
                        }
                    }
                    return Step::Found(t);
                }
            },
            None => {},
        }
        self.closed.push(t);
        let ghost c2 = self.closed@;
        let n_closed = self.closed.len();
        proof {
            assert(c2[c0.len() as int] == t);
            assert forall|k: int| 0 <= k < o1.len() implies open_entry_ok(m, c2, start, #[trigger] o1[k]) by {
                let k0 = if k < best { k } else { k + 1 };
                assert(o1[k] == o0[k0]);
                assert(open_entry_ok(m, c0, start, o0[k0]));
                assert(o0[k0].to != t.to);
                if let Some(f) = o1[k].from {
                    let j = choose|j: int|
                        0 <= j < c0.len() && (#[trigger] c0[j]).to == f && is_neighbor(f, o1[k].to)
                            && o1[k].price == c0[j].price + entry_price(m, o1[k].to);
                    assert(c2[j] == c0[j]);
                }
                if has_loc(c2, o1[k].to) {
                    let i = choose|i: int| 0 <= i < c2.len() && (#[trigger] c2[i]).to == o1[k].to;
                    if i < c0.len() {
                        assert(c0[i] == c2[i]);
                    }
                }
                assert(o1[k].price <= c2.len() * cell_max()) by (nonlinear_arith)
                    requires
                        o1[k].price <= c0.len() * cell_max(),
                        c2.len() == c0.len() + 1,
                        cell_max() > 0,
                ;
            }
            assert forall|a: int, b: int|
                0 <= a < o1.len() && 0 <= b < o1.len() && a != b implies o1[a].to != o1[b].to by {
                let ia = if a < best { a } else { a + 1 };
                let ib = if b < best { b } else { b + 1 };
                assert(o1[a] == o0[ia]);
                assert(o1[b] == o0[ib]);
            }
            lemma_remove(o0, best as int);
            lemma_surround(t.to);
        }
        let ns = t.to.surround();
        let mut j: usize = 0;
        while j < ns.len()
            invariant
                self.closed@ == c2,
                self.start == start,
                c2 == c0.push(t),
                ns@ == surround_of(t.to),
                ns@.no_duplicates(),
                forall|q: Point| ns@.contains(q) <==> is_neighbor(t.to, q),
                j <= ns@.len(),
                t.price <= c0.len() * cell_max(),
                c2.len() == n_closed,
                unique_locs(self.open@),
                forall|k: int|
                    0 <= k < self.open@.len() ==> open_entry_ok(m, c2, start, #[trigger] self.open@[k]),
                forall|q: Point, price: int|
                    has_at_most(o1, q, price) ==> #[trigger] has_at_most(self.open@, q, price),
                forall|jj: int|
                    0 <= jj < j && !has_loc(c2, #[trigger] ns@[jj]) && m.cell_at(ns@[jj]) is Some
                        ==> has_at_most(self.open@, ns@[jj], t.price + entry_price(m, ns@[jj])),
            decreases ns@.len() - j,
        {
            let p = ns[j];
            let ghost oj = self.open@;
            assert(ns@.contains(p));
            if position(&self.closed, p).is_none() {
                match m.at(p) {
                    Some(c) => {
                        proof {
                            assert(t.price + c.price <= c2.len() * cell_max()) by (nonlinear_arith)
                                requires
                                    t.price <= c0.len() * cell_max(),
                                    c2.len() == c0.len() + 1,
                                    c.price <= cell_max(),
                            ;
                            assert(c2.len() * cell_max() <= usize::MAX * cell_max()) by (nonlinear_arith)
                                requires
                                    c2.len() <= usize::MAX,
                                    cell_max() > 0,
                            ;
                        }
                        let cand = t.price + c.price as u128;
                        let nt = Trans { from: Some(t.to), to: p, price: cand };
                        proof {
                            assert(c2[c0.len() as int].to == t.to);
                            assert(linked(m, c2, c2.len() as int, nt, start));
                            assert(open_entry_ok(m, c2, start, nt));
                        }
                        match position(&self.open, p) {
                            Some(k) => {
                                if self.open[k].price > cand {
                                    proof {
                                        lemma_replace(oj, k as int, nt);
                                    }
                                    self.open.remove(k);
                                    self.open.push(nt);
                                    proof {
                                        let o2 = self.open@;
                                        assert(o2 == oj.remove(k as int).push(nt));
                                        assert forall|kk: int| 0 <= kk < o2.len() implies open_entry_ok(
                                            m,
                                            c2,
                                            start,
                                            #[trigger] o2[kk],
                                        ) by {
                                            if kk < k {
                                                assert(o2[kk] == oj[kk]);
                                            } else if kk < o2.len() - 1 {
                                                assert(o2[kk] == oj[kk + 1]);
                                            }
                                        }
                                        assert(o2[o2.len() - 1] == nt);
                                    }
                                }
                            },
                            None => {
                                proof {
                                    lemma_push(oj, nt);
                                }
                                self.open.push(nt);
                                proof {
                                    let o2 = self.open@;
                                    assert forall|a: int, b: int|
                                        0 <= a < o2.len() && 0 <= b < o2.len() && a != b implies o2[a].to
                                        != o2[b].to by {
                                        if a < oj.len() {
                                            assert(o2[a] == oj[a]);
                                        }
                                        if b < oj.len() {
                                            assert(o2[b] == oj[b]);
                                        }
                                    }
                                    assert forall|kk: int| 0 <= kk < o2.len() implies open_entry_ok(
                                        m,
                                        c2,
                                        start,
                                        #[trigger] o2[kk],
                                    ) by {
                                        if kk < oj.len() {
                                            assert(o2[kk] == oj[kk]);
                                        }
                                    }
                                    assert(o2[o2.len() - 1] == nt);
                                }
                            },
                        }
                    },
                    None => {},
                }
            }
            proof {
                assert forall|jj: int|
                    0 <= jj <= j && !has_loc(c2, #[trigger] ns@[jj]) && m.cell_at(ns@[jj]) is Some
                        implies has_at_most(self.open@, ns@[jj], t.price + entry_price(m, ns@[jj])) by {
                    if jj < j {
                        assert(ns@[jj] != p);
                    }
                }
            }
            j = j + 1;
        }
        proof {
            let o = self.open@;
            assert forall|i: int, q: Point|
                #![trigger c2[i], is_neighbor(c2[i].to, q)]
                0 <= i < c2.len() && is_neighbor(c2[i].to, q) && m.cell_at(q) is Some && !has_loc(c2, q)
                    implies has_at_most(o, q, c2[i].price + entry_price(m, q)) by {
                if i < c0.len() {
                    assert(c2[i] == c0[i]);
                    if has_loc(c0, q) {
                        let z = choose|z: int| 0 <= z < c0.len() && (#[trigger] c0[z]).to == q;
                        assert(c2[z] == c0[z]);
                    }
                    assert(has_at_most(o0, q, c0[i].price + entry_price(m, q)));
                    assert(q != t.to);
                } else {
                    assert(ns@.contains(q));
                    let jj = choose|jj: int| 0 <= jj < ns@.len() && ns@[jj] == q;
                }
            }
            assert forall|i: int, w: Seq<Point>|
                #![trigger c2[i], walk_cost(m, w)]
                0 <= i < c2.len() && is_walk(m, w) && w[0] == start && w.last() == c2[i].to
                    implies c2[i].price <= walk_cost(m, w) by {
                if i < c0.len() {
                    assert(c2[i] == c0[i]);
                }
            }
            assert forall|a: int, b: int|
                0 <= a < c2.len() && 0 <= b < c2.len() && a != b implies c2[a].to != c2[b].to by {
                if a < c0.len() {
                    assert(c2[a] == c0[a]);
                }
                if b < c0.len() {
                    assert(c2[b] == c0[b]);
                }
            }
            assert forall|i: int| 0 <= i < c2.len() implies linked(m, c2, i, #[trigger] c2[i], start) by {
                if i < c0.len() {
                    assert(c2[i] == c0[i]);
                    assert(linked(m, c0, i, c0[i], start));
                    if let Some(f) = c0[i].from {
                        let z = choose|z: int|
                            0 <= z < i && (#[trigger] c0[z]).to == f && is_neighbor(f, c0[i].to)
                                && c0[i].price == c0[z].price + entry_price(m, c0[i].to);
                        assert(c2[z] == c0[z]);
                    }
                } else {
                    if let Some(f) = t.from {
                        let z = choose|z: int|
                            0 <= z < c0.len() && (#[trigger] c0[z]).to == f && is_neighbor(f, t.to)
                                && t.price == c0[z].price + entry_price(m, t.to);
                        assert(c2[z] == c0[z]);
                    } else {
                        assert(c0.len() == 0);
                    }
                }
            }
            assert forall|i: int| 0 <= i < c2.len() implies (#[trigger] c2[i]).price <= i * cell_max() by {
                if i < c0.len() {
                    assert(c2[i] == c0[i]);
                }
            }
            assert forall|i: int| 0 <= i < c2.len() implies !is_finish(m, (#[trigger] c2[i]).to) by {
                if i < c0.len() {
                    assert(c2[i] == c0[i]);
                }
            }
            assert forall|i: int| 0 <= i < c2.len() implies m.cell_at((#[trigger] c2[i]).to) is Some by {
                if i < c0.len() {
                    assert(c2[i] == c0[i]);
                }
            }
            if c0.len() == 0 {
                assert(t == o0[0]);
            } else {
                assert(c2[0] == c0[0]);
            }
            self.lemma_closed_bound(m);
        }
        Step::Continue
    }
}

/// A walk from `start` to a finish cell that costs no more than any other.
pub open spec fn is_cheapest_route(m: &TransMap, start: Point, w: Seq<Point>) -> bool {
    &&& is_finish_walk(m, start, w)
    &&& forall|v: Seq<Point>| is_finish_walk(m, start, v) ==> walk_cost(m, w) <= walk_cost(m, v)
}

/// No walk leads from `start` to a finish cell.
pub open spec fn no_route(m: &TransMap, start: Point) -> bool {
    forall|w: Seq<Point>| !is_finish_walk(m, start, w)
}

/// The outcome of a search from `start`: a cheapest route where one exists,
/// none where none does.
pub open spec fn search_result(m: &TransMap, start: Point, r: Option<Seq<Point>>) -> bool {
    match r {
        Some(w) => is_cheapest_route(m, start, w),
        None => no_route(m, start),
    }
}

/// The position of the `i`-th stored cell lies on the map and holds that cell.
proof fn lemma_point_of(m: &TransMap, i: int)
    requires
        0 <= i < m.cells().len(),
        m.cells().len() == m.width() * m.height(),
        m.width() <= usize::MAX,
        m.height() <= usize::MAX,
    ensures
        m.cell_at(m.point_of(i)) == m.cells()[i],
{
    let w = m.width() as int;
    let h = m.height() as int;
    assert(w > 0) by (nonlinear_arith)
        requires
            0 <= i < w * h,
            w >= 0,
            h >= 0,
    ;
    lemma_fundamental_div_mod(i, w);
    lemma_mod_pos_bound(i, w);
    lemma_div_pos_is_pos(i, w);
    let y = i / w;
    let x = i % w;
    assert(y < h) by (nonlinear_arith)
        requires
            i == w * y + x,
            0 <= x,
            i < w * h,
            w > 0,
    ;
    assert(y <= i) by (nonlinear_arith)
        requires
            i == w * y + x,
            0 <= x,
            w > 0,
            y >= 0,
    ;
    assert(y * w + x == i) by (nonlinear_arith)
        requires
            i == w * y + x,
    ;
}

/// Distinct points on the map have distinct positions in its store.
proof fn lemma_index_distinct(w: int, x1: int, y1: int, x2: int, y2: int)
    requires
        0 <= x1 < w,
        0 <= x2 < w,
        0 <= y1,
        0 <= y2,
        y1 * w + x1 == y2 * w + x2,
    ensures
        x1 == x2,
        y1 == y2,
{
    if y1 < y2 {
        assert(y1 * w + x1 < y2 * w + x2) by (nonlinear_arith)
            requires
                y1 < y2,
                0 <= x1 < w,
                0 <= x2,
        ;
    } else if y2 < y1 {
        assert(y2 * w + x2 < y1 * w + x1) by (nonlinear_arith)
            requires
                y2 < y1,
                0 <= x2 < w,
                0 <= x1,
        ;
    }
}

impl Search {
    /// Closed entries stand at distinct points of the map, so there are no
    /// more of them than the map has positions.
    proof fn lemma_closed_bound(&self, m: &TransMap)
        requires
            self.wf(m),
            m.cells().len() == m.width() * m.height(),
        ensures
            self.closed@.len() <= m.cells().len(),
    {
        let c = self.closed@;
        let w = m.width() as int;
        let n = m.cells().len() as int;
        let idx = c.map_values(|e: Trans| e.to.y * w + e.to.x);
        assert forall|i: int| 0 <= i < c.len() implies 0 <= #[trigger] idx[i] < n by {
            assert(m.cell_at(c[i].to) is Some);
            assert(c[i].to.y * w + c[i].to.x < n) by (nonlinear_arith)
                requires
                    c[i].to.x < w,
                    c[i].to.y < m.height(),
                    n == w * m.height(),
            ;
        }
        assert(idx.no_duplicates()) by {
            assert forall|a: int, b: int| 0 <= a < idx.len() && 0 <= b < idx.len() && a != b implies idx[a]
                != idx[b] by {
                assert(m.cell_at(c[a].to) is Some);
                assert(m.cell_at(c[b].to) is Some);
                if idx[a] == idx[b] {
                    lemma_index_distinct(w, c[a].to.x as int, c[a].to.y as int, c[b].to.x as int, c[b].to.y as int);
                }
            }
        }
        idx.unique_seq_to_set();
        lemma_int_range(0, n);
        assert forall|v: int| idx.to_set().contains(v) implies set_int_range(0, n).contains(v) by {
            let i = choose|i: int| 0 <= i < idx.len() && idx[i] == v;
        }
        lemma_len_subset(idx.to_set(), set_int_range(0, n));
    }

    /// Follows the predecessors of `t` back through the closed entries to the
    /// start, and gives the points passed from the start to `t`.
    pub fn route_to(&self, m: &TransMap, t: Trans) -> (r: Vec<Point>)
        requires
            tree_ok(m, self.closed@, self.start),
            linked(m, self.closed@, self.closed@.len() as int, t, self.start),
            m.cell_at(t.to) is Some,
        ensures
            is_walk(m, r@),
            r@[0] == self.start,
            r@.last() == t.to,
            walk_cost(m, r@) == t.price,
    {
        let ghost c = self.closed@;
        let mut route: Vec<Point> = vec![t.to];
        let mut cur = t;
        let ghost mut bound: int = c.len() as int;
        proof {
            assert(route@.len() == 1);
            assert(walk_cost(m, route@) == 0);
        }
        loop
            invariant
                0 <= bound <= c.len(),
                c == self.closed@,
                tree_ok(m, c, self.start),
                linked(m, c, bound, cur, self.start),
                m.cell_at(cur.to) is Some,
                route@.len() >= 1,
                route@[0] == cur.to,
                route@.last() == t.to,
                is_walk(m, route@),
                walk_cost(m, route@) + cur.price == t.price,
            ensures
                cur.from is None,
                linked(m, c, bound, cur, self.start),
                route@[0] == cur.to,
                walk_cost(m, route@) + cur.price == t.price,
            decreases bound,
        {
            match cur.from {
                None => {
                    break;
                },
                Some(f) => {
                    let ghost j = choose|j: int|
                        0 <= j < bound && (#[trigger] c[j]).to == f && is_neighbor(f, cur.to) && cur.price
                            == c[j].price + entry_price(m, cur.to);
                    match position(&self.closed, f) {
                        Some(k) => {
                            assert(k == j);
                            let ghost old_route = route@;
                            route.insert(0, f);
                            proof {
                                let nr = route@;
                                assert(nr.drop_first() =~= old_route);
                                assert(nr[1] == old_route[0]);
                                assert forall|i: int| 1 <= i < nr.len() implies is_neighbor(nr[i - 1], #[trigger] nr[i])
                                    && m.cell_at(nr[i]) is Some by {
                                    if i >= 2 {
                                        assert(nr[i] == old_route[i - 1]);
                                        assert(nr[i - 1] == old_route[i - 2]);
                                    }
                                }
                                assert(nr.last() == old_route.last());
                                assert(linked(m, c, k as int, c[k as int], self.start));
                            }
                            cur = self.closed[k];
                            proof {
                                bound = k as int;
                            }
                        },
                        None => {
                            // `f` is the point of an earlier closed entry.
                            assert(false);
                            break;
                        },
                    }
                },
            }
        }
        route
    }
}

/// The first start cell of the map, row by row.
pub fn find_start(map: &TransMap) -> (r: Option<Point>)
    ensures
        r is None <==> !has_start(map),
        r is Some ==> exists|i: int| is_first_start(map, i, r->Some_0),
        r is Some ==> is_start_cell(map.cell_at(r->Some_0)),
{
    let cells = map.iter();
    let mut i: usize = 0;
    while i < cells.len()
        invariant
            cells@.len() == map.cells().len(),
            i <= cells@.len(),
            forall|j: int| 0 <= j < i ==> !is_start_cell(#[trigger] map.cells()[j]),
            forall|j: int|
                0 <= j < cells@.len() ==> cells@[j] == (map.point_of(j), #[trigger] map.cells()[j]),
        ensures
            i <= cells@.len(),
            i < cells@.len() ==> is_start_cell(map.cells()[i as int]),
            forall|j: int| 0 <= j < i ==> !is_start_cell(#[trigger] map.cells()[j]),
        decreases cells@.len() - i,
    {
        let is_start = match cells[i].1 {
            Some(c) => c.typ == CellType::Start,
            None => false,
        };
        if is_start {
            break;
        }
        i = i + 1;
    }
    if i == cells.len() {
        return None;
    }
    let start = cells[i].0;
    proof {
        lemma_point_of(map, i as int);
        assert(is_first_start(map, i as int, start));
    }
    Some(start)
}

/// The cheapest route over the map from its first start cell, row by row, to
/// any finish cell. The search ends at the first finish cell taken from the
/// open set, which is the nearest one.
pub fn ucs(map: &TransMap) -> (r: Result<Option<Vec<Point>>, SearchError>)
    ensures
        r is Err <==> !has_start(map),
        r is Err ==> r == Err::<Option<Vec<Point>>, SearchError>(SearchError::NoStart),
        r is Ok ==> exists|i: int, s: Point|
            is_first_start(map, i, s) && (r->Ok_0 is None <==> no_route(map, s)),
        r is Ok ==> exists|i: int, s: Point|
            is_first_start(map, i, s) && search_result(
                map,
                s,
                match r->Ok_0 {
                    Some(v) => Some(v@),
                    None => None,
                },
            ),
{
    let start = match find_start(map) {
        Some(s) => s,
        None => {
            return Err(SearchError::NoStart);
        },
    };
    let ghost i = choose|i: int| is_first_start(map, i, start);
    let mut search = Search::new(map, start);
    let ghost n = map.cells().len();
    loop
        invariant
            search.wf(map),
            search.start == start,
            is_first_start(map, i, start),
            n == map.cells().len(),
            search.closed@.len() <= n + 1,
        decreases n + 1 - search.closed@.len(),
    {
        let ghost before = search.closed@;
        match search.step(map) {
            Step::Exhausted => {
                return Ok(None);
            },
            Step::Found(t) => {
                assert(search.closed@ == before);
                let route = search.route_to(map, t);
                assert(is_finish_walk(map, start, route@));
                assert(!no_route(map, start));
                return Ok(Some(route));
            },
            Step::Continue => {},
        }
    }
}

} // verus!
