use vstd::prelude::*;
use crate::graph::{Graph, valid_adj};

verus! {

/// p is a walk through g from s to t: it starts at s, ends at t, every entry
/// names an existing vertex, and each step follows a stored adjacency entry.
pub open spec fn is_path(g: Seq<Seq<usize>>, p: Seq<usize>, s: usize, t: usize) -> bool {
    &&& p.len() >= 1
    &&& p[0] == s
    &&& p[p.len() - 1] == t
    &&& forall|i: int| 0 <= i < p.len() ==> (#[trigger] p[i]) < g.len()
    &&& forall|i: int| 0 <= i < p.len() - 1 ==> g[#[trigger] p[i] as int].contains(p[i + 1])
}

/// t can be reached from s in g by some walk.
pub open spec fn reachable(g: Seq<Seq<usize>>, s: usize, t: usize) -> bool {
    exists|p: Seq<usize>| is_path(g, p, s, t)
}

/// Every existing vertex reaches itself: the one-element walk is a path.
pub proof fn lemma_reachable_refl(g: Seq<Seq<usize>>, s: usize)
    requires
        (s as int) < g.len(),
    ensures
        reachable(g, s, s),
{
    let p = seq![s];
    assert(is_path(g, p, s, s));
}

/// Extending a walk by one adjacency step keeps it a walk.
pub proof fn lemma_reachable_step(g: Seq<Seq<usize>>, s: usize, u: usize, w: usize)
    requires
        reachable(g, s, u),
        (u as int) < g.len(),
        (w as int) < g.len(),
        g[u as int].contains(w),
    ensures
        reachable(g, s, w),
{
    let p = choose|p: Seq<usize>| is_path(g, p, s, u);
    let q = p.push(w);
    assert(q[q.len() - 1] == w);
    assert forall|i: int| 0 <= i < q.len() - 1 implies g[#[trigger] q[i] as int].contains(
        q[i + 1],
    ) by {
        if i < p.len() - 1 {
            assert(q[i] == p[i] && q[i + 1] == p[i + 1]);
        } else {
            assert(q[i] == p[p.len() - 1] && q[i + 1] == w);
        }
    }
    assert(is_path(g, q, s, w));
}

/// A walk from the source to itself that no other walk undercuts is exactly
/// the one-element sequence holding the source: querying the source always
/// succeeds and yields that path.
pub proof fn lemma_shortest_path_to_source(g: Seq<Seq<usize>>, s: usize, p: Seq<usize>)
    requires
        (s as int) < g.len(),
        is_path(g, p, s, s),
        forall|q: Seq<usize>| is_path(g, q, s, s) ==> p.len() <= q.len(),
    ensures
        p =~= seq![s],
{
    assert(is_path(g, seq![s], s, s));
    assert(p.len() <= 1);
}

/// Prepending a vertex adjacent to a walk's first vertex keeps it a walk.
proof fn lemma_path_prepend(g: Seq<Seq<usize>>, p: Seq<usize>, u: usize, s: usize, v: usize)
    requires
        is_path(g, p, s, v),
        (u as int) < g.len(),
        g[u as int].contains(s),
    ensures
        is_path(g, seq![u] + p, u, v),
{
    let q = seq![u] + p;
    assert(q[0] == u);
    assert(q[q.len() - 1] == p[p.len() - 1]);
    assert forall|i: int| 0 <= i < q.len() implies (#[trigger] q[i]) < g.len() by {
        if i >= 1 {
            assert(q[i] == p[i - 1]);
        }
    }
    assert forall|i: int| 0 <= i < q.len() - 1 implies g[#[trigger] q[i] as int].contains(
        q[i + 1],
    ) by {
        if i == 0 {
            assert(q[1] == p[0]);
        } else {
            assert(q[i] == p[i - 1] && q[i + 1] == p[i]);
        }
    }
}

/// The vertex u has been fully explored: each of its adjacency entries is
/// marked and sits at most one level further from the source.
spec fn neighbors_done(g: Seq<Seq<usize>>, marked: Seq<bool>, dist: Seq<int>, u: usize) -> bool {
    forall|k: int|
        0 <= k < g[u as int].len() ==> marked[(#[trigger] g[u as int][k]) as int] && dist[g[u
            as int][k] as int] <= dist[u as int] + 1
}

/// In a search state where the source is at level 0 and every marked vertex
/// has been fully explored, any walk from the source to v shows that v is
/// marked at a level no greater than the walk's edge count.
proof fn lemma_path_bound(
    g: Seq<Seq<usize>>,
    marked: Seq<bool>,
    dist: Seq<int>,
    s: usize,
    p: Seq<usize>,
    v: usize,
)
    requires
        marked.len() == g.len(),
        dist.len() == g.len(),
        (s as int) < g.len(),
        marked[s as int],
        dist[s as int] == 0,
        forall|u: usize| (u as int) < g.len() && marked[u as int] ==> #[trigger] neighbors_done(
            g,
            marked,
            dist,
            u,
        ),
        is_path(g, p, s, v),
    ensures
        marked[v as int],
        dist[v as int] <= p.len() - 1,
    decreases p.len(),
{
    if p.len() == 1 {
        assert(v == s);
    } else {
        let p0 = p.drop_last();
        let u = p[p.len() - 2];
        assert(p0[0] == p[0]);
        assert(p0[p0.len() - 1] == u);
        assert(is_path(g, p0, s, u));
        lemma_path_bound(g, marked, dist, s, p0, u);
        assert(g[u as int].contains(p[p.len() - 1]));
        let k = choose|k: int| 0 <= k < g[u as int].len() && g[u as int][k] == v;
        assert(neighbors_done(g, marked, dist, u));
        assert(marked[v as int] && dist[v as int] <= dist[u as int] + 1);
    }
}

/// A sequence of pairwise-distinct values below n cannot be longer than n.
proof fn lemma_distinct_bounded(q: Seq<usize>, n: int)
    requires
        n >= 0,
        q.no_duplicates(),
        forall|i: int| 0 <= i < q.len() ==> (#[trigger] q[i]) < n,
    ensures
        q.len() <= n,
    decreases n,
{
    if q.len() > 0 {
        assert((q[0] as int) < n);
        if n - 1 <= usize::MAX as int && q.contains((n - 1) as usize) {
            let m = (n - 1) as usize;
            let idx = choose|i: int| 0 <= i < q.len() && q[i] == m;
            let q2 = q.remove(idx);
            q.remove_ensures(idx);
            assert forall|a: int, b: int|
                0 <= a < q2.len() && 0 <= b < q2.len() && a != b implies q2[a] != q2[b] by {
                let a0 = if a < idx { a } else { a + 1 };
                let b0 = if b < idx { b } else { b + 1 };
                assert(q2[a] == q[a0] && q2[b] == q[b0]);
            }
            assert forall|i: int| 0 <= i < q2.len() implies (#[trigger] q2[i] as int) < n - 1 by {
                let i0 = if i < idx { i } else { i + 1 };
                assert(q2[i] == q[i0]);
                assert(q[i0] != q[idx]);
            }
            lemma_distinct_bounded(q2, n - 1);
        } else {
            assert forall|i: int| 0 <= i < q.len() implies (#[trigger] q[i] as int) < n - 1 by {
                if n - 1 <= usize::MAX as int {
                    assert(!q.contains((n - 1) as usize));
                    assert(q[i] != (n - 1) as usize);
                }
            }
            lemma_distinct_bounded(q, n - 1);
        }
    }
}

/// The per-vertex facts the search keeps while it runs: lengths agree, the
/// source sits at level 0, and every predecessor entry records a marked
/// discoverer one level closer to the source.
spec fn inv_core(
    g: Seq<Seq<usize>>,
    source: usize,
    marked: Seq<bool>,
    edge_to: Seq<Option<usize>>,
    dist: Seq<int>,
) -> bool {
    &&& marked.len() == g.len()
    &&& edge_to.len() == g.len()
    &&& dist.len() == g.len()
    &&& (source as int) < g.len()
    &&& marked[source as int]
    &&& dist[source as int] == 0
    &&& edge_to[source as int] is None
    &&& forall|w: int|
        0 <= w < g.len() && #[trigger] marked[w] ==> dist[w] >= 0 && reachable(
            g,
            source,
            w as usize,
        )
    &&& forall|w: int|
        0 <= w < g.len() && #[trigger] marked[w] && w != source ==> edge_to[w] is Some
    &&& forall|w: int|
        0 <= w < g.len() ==> (#[trigger] edge_to[w] matches Some(u) ==> marked[w] && (u as int)
            < g.len() && marked[u as int] && g[u as int].contains(w as usize) && dist[w] == dist[u
            as int] + 1)
}

/// The queue holds exactly the marked vertices, each once, with levels that
/// never decrease along it.
spec fn inv_queue(g: Seq<Seq<usize>>, marked: Seq<bool>, dist: Seq<int>, queue: Seq<usize>) -> bool {
    &&& forall|i: int|
        0 <= i < queue.len() ==> ((#[trigger] queue[i]) as int) < g.len() && marked[queue[i]
            as int]
    &&& queue.no_duplicates()
    &&& forall|w: int| 0 <= w < g.len() && #[trigger] marked[w] ==> queue.contains(w as usize)
    &&& forall|i: int, j: int|
        0 <= i <= j < queue.len() ==> dist[(#[trigger] queue[i]) as int] <= dist[(
        #[trigger] queue[j]) as int]
}

/// While a vertex is being processed, no queued vertex sits more than one
/// level beyond it.
spec fn inv_window(dist: Seq<int>, queue: Seq<usize>, head: int) -> bool {
    0 <= head < queue.len() ==> forall|j: int|
        0 <= j < queue.len() ==> dist[(#[trigger] queue[j]) as int] <= dist[queue[head] as int] + 1
}

/// Every dequeued vertex has been fully explored.
spec fn inv_processed(
    g: Seq<Seq<usize>>,
    marked: Seq<bool>,
    dist: Seq<int>,
    queue: Seq<usize>,
    head: int,
) -> bool {
    forall|i: int| 0 <= i < head ==> neighbors_done(g, marked, dist, #[trigger] queue[i])
}

/// Marking a previously unmarked vertex leaves an explored vertex explored:
/// its neighbors were already marked, so none of their levels moved.
proof fn lemma_neighbors_done_frame(
    g: Seq<Seq<usize>>,
    marked: Seq<bool>,
    dist: Seq<int>,
    w: int,
    d: int,
    u: usize,
)
    requires
        valid_adj(g),
        marked.len() == g.len(),
        dist.len() == g.len(),
        0 <= w < g.len(),
        !marked[w],
        (u as int) < g.len(),
        marked[u as int],
        neighbors_done(g, marked, dist, u),
    ensures
        neighbors_done(g, marked.update(w, true), dist.update(w, d), u),
{
    let m2 = marked.update(w, true);
    let d2 = dist.update(w, d);
    assert forall|k: int| 0 <= k < g[u as int].len() implies m2[(#[trigger] g[u as int][k]) as int]
        && d2[g[u as int][k] as int] <= d2[u as int] + 1 by {
        let nb = g[u as int][k];
        assert((nb as int) < g.len());
        assert(marked[nb as int] && dist[nb as int] <= dist[u as int] + 1);
        assert(nb as int != w);
        assert(u as int != w);
    }
}

/// One discovery step of the search: an unmarked neighbor w of the vertex
/// cur under processing is marked, recorded as discovered from cur one level
/// further out, and enqueued. All running invariants survive.
proof fn lemma_bfs_mark_step(
    g: Seq<Seq<usize>>,
    source: usize,
    m0: Seq<bool>,
    e0: Seq<Option<usize>>,
    d0: Seq<int>,
    q0: Seq<usize>,
    head: int,
    cur: usize,
    w: usize,
)
    requires
        valid_adj(g),
        inv_core(g, source, m0, e0, d0),
        inv_queue(g, m0, d0, q0),
        0 <= head < q0.len(),
        q0[head] == cur,
        inv_window(d0, q0, head),
        (w as int) < g.len(),
        g[cur as int].contains(w),
        !m0[w as int],
    ensures
        inv_core(
            g,
            source,
            m0.update(w as int, true),
            e0.update(w as int, Some(cur)),
            d0.update(w as int, d0[cur as int] + 1),
        ),
        inv_queue(
            g,
            m0.update(w as int, true),
            d0.update(w as int, d0[cur as int] + 1),
            q0.push(w),
        ),
        inv_window(d0.update(w as int, d0[cur as int] + 1), q0.push(w), head),
        q0.push(w).len() <= g.len(),
{
    let m1 = m0.update(w as int, true);
    let e1 = e0.update(w as int, Some(cur));
    let d1 = d0.update(w as int, d0[cur as int] + 1);
    let q1 = q0.push(w);
    assert((cur as int) < g.len() && m0[cur as int]);
    assert(w != source && w != cur);
    lemma_reachable_step(g, source, cur, w);
    assert forall|x: int|
        0 <= x < g.len() && #[trigger] m1[x] implies d1[x] >= 0 && reachable(
        g,
        source,
        x as usize,
    ) by {
        if x != w as int {
            assert(m0[x]);
        }
    }
    assert forall|x: int| 0 <= x < g.len() implies (#[trigger] e1[x] matches Some(u) ==> m1[x] && (
    u as int) < g.len() && m1[u as int] && g[u as int].contains(x as usize) && d1[x] == d1[u as int]
        + 1) by {
        if x != w as int {
            if e0[x] is Some {
                let u = e0[x]->Some_0;
                assert(m0[u as int]);
                assert(u as int != w as int);
            }
        }
    }
    // the queue: w was not yet in it
    assert(!q0.contains(w)) by {
        if q0.contains(w) {
            let i = choose|i: int| 0 <= i < q0.len() && q0[i] == w;
            assert(m0[q0[i] as int]);
        }
    }
    assert forall|a: int, b: int|
        0 <= a < q1.len() && 0 <= b < q1.len() && a != b implies q1[a] != q1[b] by {
        if a < q0.len() && b < q0.len() {
            assert(q0[a] != q0[b]);
        } else if a < q0.len() {
            assert(q0.contains(q0[a]));
        } else if b < q0.len() {
            assert(q0.contains(q0[b]));
        }
    }
    assert forall|x: int| 0 <= x < g.len() && #[trigger] m1[x] implies q1.contains(x as usize) by {
        if x == w as int {
            assert(q1[q1.len() - 1] == w);
        } else {
            assert(m0[x]);
            assert(q0.contains(x as usize));
            let i = choose|i: int| 0 <= i < q0.len() && q0[i] == x as usize;
            assert(q1[i] == x as usize);
        }
    }
    assert forall|i: int, j: int|
        0 <= i <= j < q1.len() implies d1[(#[trigger] q1[i]) as int] <= d1[(#[trigger] q1[j])
        as int] by {
        if j < q0.len() {
            assert(q1[i] == q0[i] && q1[j] == q0[j]);
            assert(m0[q0[i] as int] && m0[q0[j] as int]);
        } else if i < q0.len() {
            assert(q1[i] == q0[i] && q1[j] == w);
            assert(m0[q0[i] as int]);
            assert(d0[q0[i] as int] <= d0[q0[head] as int] + 1);
        }
    }
    assert forall|j: int| 0 <= j < q1.len() implies d1[(#[trigger] q1[j]) as int] <= d1[q1[head]
        as int] + 1 by {
        assert(q1[head] == cur);
        if j < q0.len() {
            assert(q1[j] == q0[j]);
            assert(m0[q0[j] as int]);
            assert(d0[q0[j] as int] <= d0[q0[head] as int] + 1);
        } else {
            assert(q1[j] == w);
        }
    }
    assert forall|i: int| 0 <= i < q1.len() implies ((#[trigger] q1[i]) as int) < g.len() by {
        if i < q0.len() {
            assert(q0.contains(q0[i]));
        }
    }
    lemma_distinct_bounded(q1, g.len() as int);
}

/// A finite shortest path, handed out source-first and consumed one vertex
/// per call; its view is the sequence of vertices not yet handed out.
pub struct Path {
    stack: Vec<usize>,
}

impl View for Path {
    type V = Seq<usize>;

    closed spec fn view(&self) -> Seq<usize> {
        self.stack@.reverse()
    }
}

impl Path {
    pub fn new() -> (p: Path)
        ensures
            p@ == Seq::<usize>::empty(),
    {
        let p = Path { stack: Vec::new() };
        proof {
            assert(p@ =~= Seq::<usize>::empty());
        }
        p
    }

    /// Hands out the next vertex of the path, front first; the sequence is
    /// not restartable.
    pub fn next(&mut self) -> (r: Option<usize>)
        ensures
            match r {
                Some(x) => old(self)@.len() > 0 && x == old(self)@[0] && final(self)@ == old(
                    self,
                )@.subrange(1, old(self)@.len() as int),
                None => old(self)@.len() == 0 && final(self)@ == old(self)@,
            },
    {
        let r = self.stack.pop();
        proof {
            match r {
                Some(x) => {
                    assert(old(self).stack@ == self.stack@.push(x));
                    assert(old(self)@[0] == x);
                    assert(self@ =~= old(self)@.subrange(1, old(self)@.len() as int));
                },
                None => {
                    assert(self@ =~= old(self)@);
                },
            }
        }
        r
    }
}

/// Single-source breadth-first search results over a snapshot of a graph's
/// adjacency structure: reachability marks and the tree of first-discovery
/// predecessors, from which shortest paths are rebuilt.
pub struct BreadthFirstPaths {
    marked: Vec<bool>,
    edge_to: Vec<Option<usize>>,
    source: usize,
    g: Ghost<Seq<Seq<usize>>>,
    dist: Ghost<Seq<int>>,
}

impl BreadthFirstPaths {
    /// The adjacency snapshot this search was run against.
    pub closed spec fn graph_view(&self) -> Seq<Seq<usize>> {
        self.g@
    }

    /// The source vertex this search was run from.
    pub closed spec fn source_vertex(&self) -> usize {
        self.source
    }

    pub closed spec fn wf(&self) -> bool {
        let g = self.g@;
        let dist = self.dist@;
        let marked = self.marked@;
        let edge_to = self.edge_to@;
        &&& valid_adj(g)
        &&& marked.len() == g.len()
        &&& edge_to.len() == g.len()
        &&& dist.len() == g.len()
        &&& (self.source as int) < g.len()
        &&& marked[self.source as int]
        &&& dist[self.source as int] == 0
        &&& edge_to[self.source as int] is None
        &&& forall|w: int| 0 <= w < g.len() && marked[w] ==> dist[w] >= 0
        &&& forall|w: int|
            0 <= w < g.len() && marked[w] && w != self.source ==> edge_to[w] is Some
        &&& forall|w: int|
            0 <= w < g.len() ==> (#[trigger] edge_to[w] matches Some(u) ==> marked[w] && (
            u as int) < g.len() && marked[u as int] && g[u as int].contains(w as usize) && dist[w]
                == dist[u as int] + 1)
        &&& forall|w: int|
            0 <= w < g.len() ==> (marked[w] <==> reachable(g, self.source, w as usize))
        &&& forall|w: int, q: Seq<usize>|
            0 <= w < g.len() && marked[w] && is_path(g, q, self.source, w as usize) ==> dist[w]
                <= q.len() - 1
    }

    /// Runs one full breadth-first search from source over a snapshot of the
    /// graph's adjacency structure. Neighbors are explored in adjacency
    /// order through a FIFO queue, so among equal-length paths the recorded
    /// one is fixed by insertion order.
    #[verifier::loop_isolation(false)]
    #[verifier::rlimit(100)]
    pub fn new(graph: &Graph, source: usize) -> (b: BreadthFirstPaths)
        requires
            graph.wf(),
            source < graph@.len(),
        ensures
            b.wf(),
            b.graph_view() == graph@,
            b.source_vertex() == source,
    {
        let ghost g = graph@;
        let n = graph.v();
        let mut marked: Vec<bool> = Vec::new();
        let mut edge_to: Vec<Option<usize>> = Vec::new();
        let mut i: usize = 0;
        while i < n
            invariant
                i <= n,
                marked@.len() == i as int,
                edge_to@.len() == i as int,
                forall|j: int| 0 <= j < i ==> !(#[trigger] marked@[j]),
                forall|j: int| 0 <= j < i ==> (#[trigger] edge_to@[j]) is None,
            decreases n - i,
        {
            marked.push(false);
            edge_to.push(None);
            i = i + 1;
        }
        let ghost mut dist: Seq<int> = Seq::new(n as nat, |j: int| 0);
        marked[source] = true;
        let mut queue: Vec<usize> = Vec::new();
        queue.push(source);
        proof {
            lemma_reachable_refl(g, source);
            assert(inv_core(g, source, marked@, edge_to@, dist));
            assert(queue@[0] == source);
            assert forall|w: int|
                0 <= w < g.len() && #[trigger] marked@[w] implies queue@.contains(w as usize) by {
                assert(w == source as int);
                assert(queue@[0] == w as usize);
            }
            assert(inv_queue(g, marked@, dist, queue@));
        }
        let mut head: usize = 0;
        while head < queue.len()
            invariant
                inv_core(g, source, marked@, edge_to@, dist),
                inv_queue(g, marked@, dist, queue@),
                head <= queue.len(),
                queue@.len() <= g.len(),
                inv_window(dist, queue@, head as int),
                inv_processed(g, marked@, dist, queue@, head as int),
            decreases n - head,
        {
            let cur = queue[head];
            let row = graph.neighbors(cur);
            let mut k: usize = 0;
            while k < row.len()
                invariant
                    inv_core(g, source, marked@, edge_to@, dist),
                    inv_queue(g, marked@, dist, queue@),
                    head < queue.len(),
                    queue@[head as int] == cur,
                    k <= row@.len(),
                    queue@.len() <= g.len(),
                    inv_window(dist, queue@, head as int),
                    inv_processed(g, marked@, dist, queue@, head as int),
                    forall|kk: int|
                        0 <= kk < k ==> marked@[(#[trigger] row@[kk]) as int] && dist[row@[kk]
                            as int] <= dist[cur as int] + 1,
                decreases row@.len() - k,
            {
                let w = row[k];
                proof {
                    assert(g[cur as int][k as int] == w);
                    assert((w as int) < g.len());
                }
                if !marked[w] {
                    let ghost m0 = marked@;
                    let ghost e0 = edge_to@;
                    let ghost d0 = dist;
                    let ghost q0 = queue@;
                    proof {
                        assert(g[cur as int].contains(w));
                        lemma_bfs_mark_step(g, source, m0, e0, d0, q0, head as int, cur, w);
                    }
                    edge_to[w] = Some(cur);
                    marked[w] = true;
                    proof {
                        dist = dist.update(w as int, d0[cur as int] + 1);
                    }
                    queue.push(w);
                    proof {
                        assert(marked@ == m0.update(w as int, true));
                        assert(edge_to@ == e0.update(w as int, Some(cur)));
                        assert(queue@ == q0.push(w));
                        assert forall|i2: int|
                            0 <= i2 < head implies neighbors_done(
                            g,
                            marked@,
                            dist,
                            #[trigger] queue@[i2],
                        ) by {
                            assert(queue@[i2] == q0[i2]);
                            assert(neighbors_done(g, m0, d0, q0[i2]));
                            assert(m0[q0[i2] as int]);
                            lemma_neighbors_done_frame(
                                g,
                                m0,
                                d0,
                                w as int,
                                d0[cur as int] + 1,
                                q0[i2],
                            );
                        }
                        assert forall|kk: int|
                            0 <= kk < k + 1 implies marked@[(#[trigger] row@[kk]) as int]
                            && dist[row@[kk] as int] <= dist[cur as int] + 1 by {
                            if kk < k {
                                assert(m0[row@[kk] as int]);
                                assert(row@[kk] as int != w as int);
                            }
                        }
                    }
                } else {
                    proof {
                        assert(queue@.contains(w));
                        let j = choose|j: int| 0 <= j < queue@.len() && queue@[j] == w;
                        assert(dist[(queue@[j]) as int] <= dist[(queue@[head as int]) as int] + 1);
                    }
                }
                k = k + 1;
            }
            proof {
                assert(neighbors_done(g, marked@, dist, cur)) by {
                    assert(g[cur as int] == row@);
                }
                assert forall|i2: int|
                    0 <= i2 < head + 1 implies neighbors_done(
                    g,
                    marked@,
                    dist,
                    #[trigger] queue@[i2],
                ) by {
                    if i2 == head as int {
                        assert(queue@[i2] == cur);
                    }
                }
                if head + 1 < queue@.len() {
                    assert forall|j: int|
                        0 <= j < queue@.len() implies dist[(#[trigger] queue@[j]) as int] <= dist[(
                        queue@[head + 1]) as int] + 1 by {
                        assert(dist[(queue@[j]) as int] <= dist[(queue@[head as int]) as int] + 1);
                        assert(dist[(queue@[head as int]) as int] <= dist[(queue@[head + 1])
                            as int]);
                    }
                }
            }
            head = head + 1;
        }
        proof {
            assert forall|u: usize|
                (u as int) < g.len() && marked@[u as int] implies #[trigger] neighbors_done(
                g,
                marked@,
                dist,
                u,
            ) by {
                assert(queue@.contains(u));
                let i = choose|i: int| 0 <= i < queue@.len() && queue@[i] == u;
                assert(neighbors_done(g, marked@, dist, queue@[i]));
            }
            assert forall|w: int, q: Seq<usize>|
                0 <= w < g.len() && is_path(g, q, source, w as usize) implies marked@[w] && dist[w]
                <= q.len() - 1 by {
                lemma_path_bound(g, marked@, dist, source, q, w as usize);
            }
            assert forall|w: int|
                0 <= w < g.len() && reachable(g, source, w as usize) implies marked@[w] by {
                let q = choose|q: Seq<usize>| #[trigger] is_path(g, q, source, w as usize);
                assert(is_path(g, q, source, w as usize));
            }
        }
        let b = BreadthFirstPaths { marked, edge_to, source, g: Ghost(g), dist: Ghost(dist) };
        proof {
            assert(b.wf());
        }
        b
    }

    /// Fallible construction: reports an out-of-range source as None instead
    /// of requiring validity from the caller.
    pub fn try_new(graph: &Graph, source: usize) -> (r: Option<BreadthFirstPaths>)
        requires
            graph.wf(),
        ensures
            (r is Some) == ((source as int) < graph@.len()),
            (r matches Some(b) ==> b.wf() && b.graph_view() == graph@ && b.source_vertex()
                == source),
    {
        if source < graph.v() {
            Some(BreadthFirstPaths::new(graph, source))
        } else {
            None
        }
    }

    /// True exactly when some walk joins the source to v; out-of-range
    /// vertices simply yield false, never an error.
    pub fn has_path_to(&self, v: usize) -> (r: bool)
        requires
            self.wf(),
        ensures
            r == reachable(self.graph_view(), self.source_vertex(), v),
    {
        if v < self.marked.len() {
            self.marked[v]
        } else {
            proof {
                if reachable(self.g@, self.source, v) {
                    let q = choose|q: Seq<usize>| is_path(self.g@, q, self.source, v);
                    assert(q[q.len() - 1] == v);
                }
            }
            false
        }
    }

    /// Rebuilds a shortest path from the source to v by backtracking the
    /// predecessor tree. Yields nothing exactly when v is unreachable;
    /// otherwise the path starts at the source, ends at v, follows adjacency
    /// entries, and no walk between the two is shorter.
    #[verifier::loop_isolation(false)]
    #[verifier::rlimit(60)]
    pub fn path_to(&self, v: usize) -> (r: Option<Path>)
        requires
            self.wf(),
        ensures
            (r is Some) == reachable(self.graph_view(), self.source_vertex(), v),
            (r matches Some(p) ==> is_path(self.graph_view(), p@, self.source_vertex(), v)
                && forall|q: Seq<usize>|
                is_path(self.graph_view(), q, self.source_vertex(), v) ==> p@.len() <= q.len()),
    {
        let ghost g = self.g@;
        let ghost dist = self.dist@;
        if v >= self.marked.len() {
            proof {
                if reachable(g, self.source, v) {
                    let q = choose|q: Seq<usize>| is_path(g, q, self.source, v);
                    assert(q[q.len() - 1] == v);
                }
            }
            return None;
        }
        if !self.marked[v] {
            return None;
        }
        let mut stack: Vec<usize> = Vec::new();
        let mut next: usize = v;
        while next != self.source
            invariant
                (next as int) < g.len(),
                self.marked@[next as int],
                stack@.len() == dist[v as int] - dist[next as int],
                is_path(g, stack@.push(next).reverse(), next, v),
            decreases dist[next as int],
        {
            let u = match self.edge_to[next] {
                Some(u) => u,
                None => {
                    proof {
                        assert(false);
                    }
                    0
                },
            };
            proof {
                let p_old = stack@.push(next).reverse();
                let p_new = stack@.push(next).push(u).reverse();
                assert(p_new =~= seq![u] + p_old);
                lemma_path_prepend(g, p_old, u, next, v);
            }
            stack.push(next);
            next = u;
        }
        let ghost p_spec = stack@.push(self.source).reverse();
        stack.push(self.source);
        let p = Path { stack };
        proof {
            assert(p@ == p_spec);
            assert(p@.len() == dist[v as int] + 1);
            assert forall|q: Seq<usize>|
                is_path(g, q, self.source, v) implies p@.len() <= q.len() by {
                assert(dist[v as int] <= q.len() - 1);
            }
        }
        Some(p)
    }
}

} // verus!
