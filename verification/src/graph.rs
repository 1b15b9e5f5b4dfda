use vstd::prelude::*;

verus! {

/// An adjacency structure is valid when every neighbor entry names an
/// existing vertex, i.e. every stored identifier is below the vertex count.
pub open spec fn valid_adj(g: Seq<Seq<usize>>) -> bool {
    forall|u: int, k: int|
        0 <= u < g.len() && 0 <= k < g[u].len() ==> (#[trigger] g[u][k]) < g.len()
}

/// The adjacency structure after inserting the undirected edge (u, v):
/// v is appended to u's list, then u is appended to v's list.
/// When u == v the single list receives both entries, in this order.
pub open spec fn add_edge_model(g: Seq<Seq<usize>>, u: usize, v: usize) -> Seq<Seq<usize>> {
    let g1 = g.update(u as int, g[u as int].push(v));
    g1.update(v as int, g1[v as int].push(u))
}

/// An undirected graph over dense integer vertex identifiers, stored as one
/// adjacency list per vertex. Vertices and edges are append-only; neighbor
/// lists keep insertion order, and duplicate edges and self-loops are kept
/// as they were added.
pub struct Graph {
    adj: Vec<Vec<usize>>,
    edges: usize,
}

impl View for Graph {
    type V = Seq<Seq<usize>>;

    closed spec fn view(&self) -> Seq<Seq<usize>> {
        Seq::new(self.adj@.len(), |i: int| self.adj@[i]@)
    }
}

impl Graph {
    /// Total number of edges successfully added so far.
    pub closed spec fn spec_e(&self) -> usize {
        self.edges
    }

    pub open spec fn wf(&self) -> bool {
        valid_adj(self@)
    }

    pub fn new() -> (g: Graph)
        ensures
            g.wf(),
            g@ == Seq::<Seq<usize>>::empty(),
            g.spec_e() == 0,
    {
        let g = Graph { adj: Vec::new(), edges: 0 };
        proof {
            assert(g@ =~= Seq::<Seq<usize>>::empty());
        }
        g
    }

    /// Number of vertices; identifiers are exactly `0 .. v()`.
    pub fn v(&self) -> (n: usize)
        ensures
            n == self@.len(),
    {
        self.adj.len()
    }

    /// Number of edges added so far.
    pub fn e(&self) -> (n: usize)
        ensures
            n == self.spec_e(),
    {
        self.edges
    }

    /// Allocates a fresh vertex with an empty adjacency list and returns its
    /// identifier, which is the previous vertex count.
    pub fn add_node(&mut self) -> (id: usize)
        requires
            old(self).wf(),
        ensures
            final(self).wf(),
            id == old(self)@.len(),
            final(self)@ == old(self)@.push(Seq::<usize>::empty()),
            final(self).spec_e() == old(self).spec_e(),
    {
        let id = self.adj.len();
        self.adj.push(Vec::new());
        proof {
            assert(self@ =~= old(self)@.push(Seq::<usize>::empty()));
        }
        id
    }

    /// Inserts the undirected edge (v1, v2). When either endpoint is not an
    /// existing vertex the call is a silent no-op: no list and no counter
    /// changes. Otherwise v2 is appended to v1's list, v1 to v2's list, and
    /// the edge count grows by exactly one.
    pub fn add_edge(&mut self, v1: usize, v2: usize)
        requires
            old(self).wf(),
            old(self).spec_e() < usize::MAX,
        ensures
            final(self).wf(),
            v1 < old(self)@.len() && v2 < old(self)@.len() ==> {
                &&& final(self)@ == add_edge_model(old(self)@, v1, v2)
                &&& final(self).spec_e() == old(self).spec_e() + 1
            },
            !(v1 < old(self)@.len() && v2 < old(self)@.len()) ==> *final(self) == *old(self),
    {
        if v1 >= self.adj.len() || v2 >= self.adj.len() {
            return;
        }
        self.adj[v1].push(v2);
        self.adj[v2].push(v1);
        self.edges = self.edges + 1;
        proof {
            assert(self@ =~= add_edge_model(old(self)@, v1, v2));
            assert forall|u: int, k: int|
                0 <= u < self@.len() && 0 <= k < self@[u].len() implies (#[trigger] self@[u][k])
                < self@.len() by {
                let g0 = old(self)@;
                if !(0 <= u < g0.len() && 0 <= k < g0[u].len()) {
                    assert(self@[u][k] == v1 || self@[u][k] == v2);
                }
            }
        }
    }

    /// Read access to one vertex's adjacency list, in insertion order.
    pub fn neighbors(&self, v: usize) -> (row: &Vec<usize>)
        requires
            v < self@.len(),
        ensures
            row@ == self@[v as int],
    {
        &self.adj[v]
    }
}

} // verus!
