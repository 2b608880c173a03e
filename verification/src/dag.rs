//! A directed acyclic graph of dependencies.
//!
//! [`Dag`] collects points and oriented edges ("this point needs that one")
//! and builds a vector in which every point appears after the points it
//! depends on. Ordering runs in rounds: each round emits every point whose
//! dependencies are all emitted, highest index first; a graph with a
//! dependency cycle leaves points unemitted and the build reports it.

use vstd::prelude::*;

verus! {

/// Why a graph could not be ordered.
#[derive(Debug)]
pub enum DagError {
    /// Some points were never emitted: they sit on a dependency cycle.
    Incomplete,
}

/// A point handle. Obtained from [`Dag::point`], to be used with
/// [`Dag::depend`] on the same graph.
pub struct Index(usize);

impl View for Index {
    type V = usize;

    closed spec fn view(&self) -> usize {
        self.0
    }
}

/// Whether point `i` is ready to be emitted: not yet emitted, with every
/// point it depends on already emitted.
pub open spec fn dag_ready(edges: Seq<(usize, usize)>, emitted: Seq<bool>, i: int) -> bool {
    &&& 0 <= i < emitted.len()
    &&& !emitted[i]
    &&& forall|j: int|
        0 <= j < edges.len() && edges[j].0 == i ==> emitted[#[trigger] edges[j].1 as int]
}

/// The points one round emits among the first `k`: every ready index, in
/// descending order.
pub open spec fn dag_round(edges: Seq<(usize, usize)>, emitted: Seq<bool>, k: int) -> Seq<int>
    decreases k,
{
    if k <= 0 {
        Seq::empty()
    } else {
        (if dag_ready(edges, emitted, k - 1) {
            seq![k - 1]
        } else {
            Seq::empty()
        }) + dag_round(edges, emitted, k - 1)
    }
}

/// The emitted set after a round: every previously emitted point plus every
/// point that was ready.
pub open spec fn dag_mark(edges: Seq<(usize, usize)>, emitted: Seq<bool>) -> Seq<bool> {
    Seq::new(emitted.len(), |i: int| emitted[i] || dag_ready(edges, emitted, i))
}

/// How many of the first `k` points are still unemitted.
pub open spec fn dag_unemitted(emitted: Seq<bool>, k: int) -> int
    decreases k,
{
    if k <= 0 || k > emitted.len() {
        0
    } else {
        dag_unemitted(emitted, k - 1) + if emitted[k - 1] {
            0int
        } else {
            1int
        }
    }
}

pub proof fn lemma_round_has_ready(edges: Seq<(usize, usize)>, emitted: Seq<bool>, k: int)
    requires
        dag_round(edges, emitted, k).len() > 0,
    ensures
        exists|i: int| 0 <= i < k && dag_ready(edges, emitted, i),
    decreases k,
{
    if k > 0 {
        if dag_ready(edges, emitted, k - 1) {
        } else {
            lemma_round_has_ready(edges, emitted, k - 1);
        }
    }
}

pub proof fn lemma_unemitted_mark(edges: Seq<(usize, usize)>, emitted: Seq<bool>, k: int, i: int)
    requires
        0 <= i < k <= emitted.len(),
        dag_ready(edges, emitted, i),
    ensures
        dag_unemitted(dag_mark(edges, emitted), k) < dag_unemitted(emitted, k),
    decreases k,
{
    if i < k - 1 {
        lemma_unemitted_mark(edges, emitted, k - 1, i);
    } else {
        lemma_unemitted_le(edges, emitted, k - 1);
    }
}

pub proof fn lemma_unemitted_le(edges: Seq<(usize, usize)>, emitted: Seq<bool>, k: int)
    ensures
        dag_unemitted(dag_mark(edges, emitted), k) <= dag_unemitted(emitted, k),
    decreases k,
{
    if k > 0 {
        lemma_unemitted_le(edges, emitted, k - 1);
    }
}

pub proof fn lemma_unemitted_nonneg(emitted: Seq<bool>, k: int)
    ensures
        dag_unemitted(emitted, k) >= 0,
    decreases k,
{
    if k > 0 {
        lemma_unemitted_nonneg(emitted, k - 1);
    }
}

pub proof fn lemma_ready_in_round(edges: Seq<(usize, usize)>, emitted: Seq<bool>, k: int, q: int)
    requires
        0 <= q < k,
        dag_ready(edges, emitted, q),
    ensures
        dag_round(edges, emitted, k).len() > 0,
    decreases k,
{
    if q < k - 1 {
        lemma_ready_in_round(edges, emitted, k - 1, q);
    }
}

/// The complete emission order: rounds are run until one makes no progress,
/// and their emissions are concatenated. Points on a cycle never appear.
pub open spec fn dag_run(edges: Seq<(usize, usize)>, emitted: Seq<bool>) -> Seq<int>
    decreases dag_unemitted(emitted, emitted.len() as int),
{
    let r = dag_round(edges, emitted, emitted.len() as int);
    if r.len() == 0 {
        Seq::empty()
    } else {
        proof {
            lemma_round_has_ready(edges, emitted, emitted.len() as int);
            let w = choose|i: int| 0 <= i < emitted.len() && dag_ready(edges, emitted, i);
            lemma_unemitted_mark(edges, emitted, emitted.len() as int, w);
            lemma_unemitted_nonneg(dag_mark(edges, emitted), emitted.len() as int);
        }
        r + dag_run(edges, dag_mark(edges, emitted))
    }
}

proof fn lemma_round_elems_ready(edges: Seq<(usize, usize)>, emitted: Seq<bool>, k: int, t: int)
    requires
        0 <= t < dag_round(edges, emitted, k).len(),
    ensures
        dag_ready(edges, emitted, dag_round(edges, emitted, k)[t]),
    decreases k,
{
    if k > 0 {
        if dag_ready(edges, emitted, k - 1) {
            if t > 0 {
                lemma_round_elems_ready(edges, emitted, k - 1, t - 1);
            }
        } else {
            assert(Seq::<int>::empty() + dag_round(edges, emitted, k - 1) =~= dag_round(
                edges,
                emitted,
                k - 1,
            ));
            lemma_round_elems_ready(edges, emitted, k - 1, t);
        }
    }
}

proof fn lemma_round_contains_ready(edges: Seq<(usize, usize)>, emitted: Seq<bool>, k: int, i: int)
    requires
        0 <= i < k,
        dag_ready(edges, emitted, i),
    ensures
        exists|t: int|
            0 <= t < dag_round(edges, emitted, k).len() && #[trigger] dag_round(
                edges,
                emitted,
                k,
            )[t] == i,
    decreases k,
{
    if i == k - 1 {
        assert(dag_round(edges, emitted, k)[0] == i);
    } else {
        lemma_round_contains_ready(edges, emitted, k - 1, i);
        let t = choose|t: int|
            0 <= t < dag_round(edges, emitted, k - 1).len() && #[trigger] dag_round(
                edges,
                emitted,
                k - 1,
            )[t] == i;
        let head = if dag_ready(edges, emitted, k - 1) {
            seq![k - 1]
        } else {
            Seq::<int>::empty()
        };
        assert(dag_round(edges, emitted, k)[head.len() + t] == i);
    }
}

proof fn lemma_round_bounds(edges: Seq<(usize, usize)>, emitted: Seq<bool>, k: int, t: int)
    requires
        0 <= t < dag_round(edges, emitted, k).len(),
    ensures
        dag_round(edges, emitted, k)[t] < k,
        forall|t2: int|
            t < t2 < dag_round(edges, emitted, k).len() ==> #[trigger] dag_round(
                edges,
                emitted,
                k,
            )[t2] < dag_round(edges, emitted, k)[t],
    decreases k,
{
    if k > 0 {
        let head = if dag_ready(edges, emitted, k - 1) {
            seq![k - 1]
        } else {
            Seq::<int>::empty()
        };
        let rest = dag_round(edges, emitted, k - 1);
        if t >= head.len() {
            lemma_round_bounds(edges, emitted, k - 1, t - head.len());
        } else {
            assert forall|t2: int|
                t < t2 < dag_round(edges, emitted, k).len() implies #[trigger] dag_round(
                edges,
                emitted,
                k,
            )[t2] < dag_round(edges, emitted, k)[t] by {
                lemma_round_bounds(edges, emitted, k - 1, t2 - head.len());
            }
        }
    }
}

/// Every entry of the emission order is a point of the graph that was
/// still unemitted when the run began.
pub proof fn lemma_run_elem(edges: Seq<(usize, usize)>, emitted: Seq<bool>, p: int)
    requires
        0 <= p < dag_run(edges, emitted).len(),
    ensures
        0 <= dag_run(edges, emitted)[p] < emitted.len(),
        !emitted[dag_run(edges, emitted)[p]],
    decreases dag_unemitted(emitted, emitted.len() as int),
{
    let n = emitted.len() as int;
    let r = dag_round(edges, emitted, n);
    if r.len() > 0 {
        lemma_round_has_ready(edges, emitted, n);
        let w = choose|i: int| 0 <= i < n && dag_ready(edges, emitted, i);
        lemma_unemitted_mark(edges, emitted, n, w);
        lemma_unemitted_nonneg(dag_mark(edges, emitted), n);
        if p < r.len() {
            lemma_round_elems_ready(edges, emitted, n, p);
        } else {
            lemma_run_elem(edges, dag_mark(edges, emitted), p - r.len());
        }
    }
}

/// No point is emitted twice, so a run that covers every point is a
/// permutation of them.
pub proof fn lemma_run_distinct(edges: Seq<(usize, usize)>, emitted: Seq<bool>, p: int, q: int)
    requires
        0 <= p < q < dag_run(edges, emitted).len(),
    ensures
        dag_run(edges, emitted)[p] != dag_run(edges, emitted)[q],
    decreases dag_unemitted(emitted, emitted.len() as int),
{
    let n = emitted.len() as int;
    let r = dag_round(edges, emitted, n);
    if r.len() > 0 {
        lemma_round_has_ready(edges, emitted, n);
        let w = choose|i: int| 0 <= i < n && dag_ready(edges, emitted, i);
        lemma_unemitted_mark(edges, emitted, n, w);
        lemma_unemitted_nonneg(dag_mark(edges, emitted), n);
        if q < r.len() {
            // Both in this round, which runs strictly downwards.
            lemma_round_bounds(edges, emitted, n, p);
        } else if p >= r.len() {
            lemma_run_distinct(edges, dag_mark(edges, emitted), p - r.len(), q - r.len());
        } else {
            // The earlier point is emitted and marked this round; the later
            // one is still unemitted under the mark.
            lemma_round_elems_ready(edges, emitted, n, p);
            lemma_run_elem(edges, dag_mark(edges, emitted), q - r.len());
        }
    }
}

/// Dependencies come first: wherever the emission order places a point, the
/// points it depends on sit at earlier positions (or were already emitted
/// when the run began).
pub proof fn lemma_run_respects_edges(
    edges: Seq<(usize, usize)>,
    emitted: Seq<bool>,
    j: int,
    p: int,
)
    requires
        0 <= j < edges.len(),
        edges[j].1 < emitted.len(),
        0 <= p < dag_run(edges, emitted).len(),
        dag_run(edges, emitted)[p] == edges[j].0,
    ensures
        emitted[edges[j].1 as int] || exists|q: int|
            0 <= q < p && #[trigger] dag_run(edges, emitted)[q] == edges[j].1,
    decreases dag_unemitted(emitted, emitted.len() as int),
{
    let n = emitted.len() as int;
    let r = dag_round(edges, emitted, n);
    let b = edges[j].1 as int;
    if r.len() > 0 {
        lemma_round_has_ready(edges, emitted, n);
        let w = choose|i: int| 0 <= i < n && dag_ready(edges, emitted, i);
        lemma_unemitted_mark(edges, emitted, n, w);
        lemma_unemitted_nonneg(dag_mark(edges, emitted), n);
        let rest = dag_run(edges, dag_mark(edges, emitted));
        if p < r.len() {
            // The point was emitted this round, so it was ready: all of its
            // dependencies were emitted before the round began.
            lemma_round_elems_ready(edges, emitted, n, p);
        } else {
            lemma_run_respects_edges(edges, dag_mark(edges, emitted), j, p - r.len());
            if dag_mark(edges, emitted)[b] && !emitted[b] {
                // The dependency was emitted in this very round.
                lemma_round_contains_ready(edges, emitted, n, b);
                let t = choose|t: int| 0 <= t < r.len() && #[trigger] r[t] == b;
                assert(dag_run(edges, emitted)[t] == b);
            } else if !dag_mark(edges, emitted)[b] {
                let q = choose|q: int| 0 <= q < p - r.len() && #[trigger] rest[q] == b;
                assert(dag_run(edges, emitted)[r.len() + q] == b);
            }
        }
    }
}

/// A directed acyclic graph over values of type `T`.
///
/// Points and oriented edges are added one by one; [`Dag::build`] then
/// produces a vector in which every point with dependencies appears after
/// those dependencies.
#[derive(Debug, Clone)]
pub struct Dag<T> {
    points: Vec<T>,
    edges: Vec<(usize, usize)>,
}

impl<T: Copy> Dag<T> {
    /// The values added so far, in insertion order.
    pub closed spec fn points_spec(&self) -> Seq<T> {
        self.points@
    }

    /// The dependency edges added so far, as `(value, needs)` index pairs.
    pub closed spec fn edges_spec(&self) -> Seq<(usize, usize)> {
        self.edges@
    }

    /// Every edge refers to points of this graph.
    pub open spec fn wf(&self) -> bool {
        forall|j: int|
            0 <= j < self.edges_spec().len() ==> (#[trigger] self.edges_spec()[j]).0
                < self.points_spec().len() && self.edges_spec()[j].1 < self.points_spec().len()
    }

    /// Constructs an empty graph.
    pub fn new() -> (r: Self)
        ensures
            r.points_spec() == Seq::<T>::empty(),
            r.edges_spec() == Seq::<(usize, usize)>::empty(),
    {
        let r = Self { points: Vec::new(), edges: Vec::new() };
        proof {
            assert(r.points_spec() =~= Seq::<T>::empty());
            assert(r.edges_spec() =~= Seq::<(usize, usize)>::empty());
        }
        r
    }

    /// Adds a point and returns its handle for [`Dag::depend`].
    pub fn point(&mut self, value: T) -> (r: Index)
        ensures
            final(self).points_spec() == old(self).points_spec().push(value),
            final(self).edges_spec() == old(self).edges_spec(),
            r@ == old(self).points_spec().len(),
    {
        self.points.push(value);
        Index(self.points.len() - 1)
    }

    /// Records that `value` depends on `needs`: in the built order, the
    /// point behind `needs` will come before the point behind `value`.
    pub fn depend(&mut self, value: &Index, needs: &Index)
        ensures
            final(self).points_spec() == old(self).points_spec(),
            final(self).edges_spec() == old(self).edges_spec().push((value@, needs@)),
    {
        self.edges.push((value.0, needs.0));
    }

    /// Consumes the graph and builds the dependency-respecting order.
    /// Succeeds exactly when the rounds emit every point; a dependency
    /// cycle leaves points unemitted and yields `Err(Incomplete)`.
    /// That the order respects every edge is [`lemma_run_respects_edges`].
    pub fn build(self) -> (r: Result<Vec<T>, DagError>)
        requires
            self.wf(),
        ensures
            ({
                let order = dag_run(
                    self.edges_spec(),
                    Seq::new(self.points_spec().len(), |i: int| false),
                );
                match r {
                    Ok(v) => {
                        &&& order.len() == self.points_spec().len()
                        &&& v@.len() == order.len()
                        &&& forall|t: int|
                            0 <= t < order.len() ==> v@[t] == self.points_spec()[order[t]]
                    },
                    Err(e) => order.len() != self.points_spec().len(),
                }
            }),
    {
        let n = self.points.len();
        let m = self.edges.len();
        let mut emitted: Vec<bool> = Vec::new();
        let mut t: usize = 0;
        while t < n
            invariant
                t <= n,
                emitted@.len() == t,
                forall|q: int| 0 <= q < t ==> !emitted@[q],
            decreases n - t,
        {
            emitted.push(false);
            t = t + 1;
        }
        let ghost em0 = emitted@;
        proof {
            assert(em0 =~= Seq::new(self.points_spec().len(), |i: int| false));
        }
        let ghost full = dag_run(self.edges@, em0);
        let mut result: Vec<T> = Vec::new();
        let ghost mut done: Seq<int> = Seq::empty();
        let mut progressed: bool = true;
        while progressed
            invariant
                self.wf(),
                n == self.points_spec().len(),
                m == self.edges_spec().len(),
                emitted@.len() == n,
                full == dag_run(self.edges@, em0),
                done + dag_run(self.edges@, emitted@) == full,
                !progressed ==> dag_run(self.edges@, emitted@) == Seq::<int>::empty(),
                result@.len() == done.len(),
                forall|q: int| 0 <= q < done.len() ==> 0 <= #[trigger] done[q] < n,
                forall|q: int|
                    0 <= q < done.len() ==> result@[q]
                        == self.points_spec()[#[trigger] done[q]],
            decreases dag_unemitted(emitted@, n as int), (if progressed {
                1int
            } else {
                0int
            }),
        {
            let ghost snap = emitted@;
            // Which points are ready this round, judged against the state at
            // the round's start.
            let mut is_ready: Vec<bool> = Vec::new();
            let mut i: usize = 0;
            while i < n
                invariant
                    i <= n,
                    self.wf(),
                    n == self.points_spec().len(),
                    m == self.edges_spec().len(),
                    emitted@ == snap,
                    emitted@.len() == n,
                    is_ready@.len() == i,
                    forall|q: int|
                        0 <= q < i ==> is_ready@[q] == dag_ready(self.edges@, snap, q),
                decreases n - i,
            {
                let mut deps_done: bool = true;
                let mut j: usize = 0;
                while j < m
                    invariant
                        j <= m,
                        i < n,
                        self.wf(),
                        n == self.points_spec().len(),
                        m == self.edges_spec().len(),
                        emitted@ == snap,
                        emitted@.len() == n,
                        deps_done == (forall|q: int|
                            0 <= q < j && (#[trigger] self.edges@[q]).0 == i
                                ==> snap[self.edges@[q].1 as int]),
                    decreases m - j,
                {
                    let (a, b) = self.edges[j];
                    if a == i && !emitted[b] {
                        deps_done = false;
                    }
                    j = j + 1;
                }
                let rdy = !emitted[i] && deps_done;
                is_ready.push(rdy);
                i = i + 1;
            }
            // Emit the ready points, highest index first, and mark them.
            let ghost mut rnd: Seq<int> = Seq::empty();
            progressed = false;
            let mut k: usize = n;
            while k > 0
                invariant
                    k <= n,
                    self.wf(),
                    n == self.points_spec().len(),
                    m == self.edges_spec().len(),
                    emitted@.len() == n,
                    snap.len() == n,
                    is_ready@.len() == n,
                    forall|q: int| 0 <= q < n ==> is_ready@[q] == dag_ready(self.edges@, snap, q),
                    dag_round(self.edges@, snap, n as int) == rnd + dag_round(
                        self.edges@,
                        snap,
                        k as int,
                    ),
                    progressed == (rnd.len() > 0),
                    forall|q: int| 0 <= q < k ==> emitted@[q] == snap[q],
                    forall|q: int|
                        k <= q < n ==> emitted@[q] == (snap[q] || dag_ready(
                            self.edges@,
                            snap,
                            q,
                        )),
                    result@.len() == done.len() + rnd.len(),
                    forall|q: int| 0 <= q < done.len() ==> 0 <= #[trigger] done[q] < n,
                    forall|q: int| 0 <= q < rnd.len() ==> 0 <= #[trigger] rnd[q] < n,
                    forall|q: int|
                        0 <= q < done.len() ==> result@[q]
                            == self.points_spec()[#[trigger] done[q]],
                    forall|q: int|
                        0 <= q < rnd.len() ==> result@[done.len() + q]
                            == self.points_spec()[#[trigger] rnd[q]],
                decreases k,
            {
                let idx = k - 1;
                if is_ready[idx] {
                    result.push(self.points[idx]);
                    emitted[idx] = true;
                    proof {
                        let rnd_old = rnd;
                        rnd = rnd + seq![idx as int];
                        assert(dag_round(self.edges@, snap, idx as int + 1) == seq![idx as int]
                            + dag_round(self.edges@, snap, idx as int));
                        assert(rnd_old + (seq![idx as int] + dag_round(
                            self.edges@,
                            snap,
                            idx as int,
                        )) =~= rnd + dag_round(self.edges@, snap, idx as int));
                    }
                    progressed = true;
                } else {
                    proof {
                        assert(dag_round(self.edges@, snap, idx as int + 1) == Seq::<
                            int,
                        >::empty() + dag_round(self.edges@, snap, idx as int));
                        assert(Seq::<int>::empty() + dag_round(self.edges@, snap, idx as int)
                            =~= dag_round(self.edges@, snap, idx as int));
                    }
                }
                k = idx;
            }
            proof {
                assert(dag_round(self.edges@, snap, 0) =~= Seq::<int>::empty());
                assert(dag_round(self.edges@, snap, n as int) =~= rnd);
                if progressed {
                    assert(emitted@ =~= dag_mark(self.edges@, snap));
                    lemma_round_has_ready(self.edges@, snap, n as int);
                    let w = choose|q: int| 0 <= q < n && dag_ready(self.edges@, snap, q);
                    lemma_unemitted_mark(self.edges@, snap, n as int, w);
                    lemma_unemitted_nonneg(emitted@, n as int);
                    assert((done + rnd) + dag_run(self.edges@, emitted@) =~= done + (rnd
                        + dag_run(self.edges@, emitted@)));
                    done = done + rnd;
                } else {
                    assert(dag_round(self.edges@, snap, 0) =~= Seq::<int>::empty());
                    assert(dag_round(self.edges@, snap, n as int) =~= Seq::<int>::empty());
                    assert forall|q: int| 0 <= q < n implies !dag_ready(
                        self.edges@,
                        snap,
                        q,
                    ) by {
                        if dag_ready(self.edges@, snap, q) {
                            lemma_ready_in_round(self.edges@, snap, n as int, q);
                        }
                    }
                    assert(emitted@ =~= snap);
                    assert(dag_run(self.edges@, snap) == Seq::<int>::empty());
                }
            }
        }
        proof {
            assert(done + Seq::<int>::empty() =~= done);
        }
        if result.len() != n {
            return Err(DagError::Incomplete);
        }
        Ok(result)
    }
}

} // verus!
