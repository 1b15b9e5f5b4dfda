use vstd::prelude::*;
use crate::graph::{Graph, add_edge_model};

verus! {

/// Some position of labels holds l.
pub open spec fn has_label(labels: Seq<Seq<char>>, l: Seq<char>) -> bool {
    exists|i: int| 0 <= i < labels.len() && labels[i] == l
}

/// A position of labels holding l; when the labels are pairwise distinct and
/// l is present, this is the one vertex identifier carrying l.
pub open spec fn label_index(labels: Seq<Seq<char>>, l: Seq<char>) -> int {
    choose|i: int| 0 <= i < labels.len() && labels[i] == l
}

/// Round trip: for every present label, reading the label sequence back at
/// the label's index yields the label itself.
pub proof fn lemma_label_round_trip(labels: Seq<Seq<char>>, l: Seq<char>)
    requires
        has_label(labels, l),
    ensures
        0 <= label_index(labels, l) < labels.len(),
        labels[label_index(labels, l)] == l,
{
}

/// A bijective label-to-vertex-identifier mapping layered over an owned
/// Graph: the label stored at position i names vertex i, labels are unique,
/// and every label insertion allocates exactly one graph vertex.
pub struct SymbolGraph {
    labels: Vec<String>,
    graph: Graph,
}

impl SymbolGraph {
    /// The stored labels, in vertex-identifier order.
    pub closed spec fn labels_view(&self) -> Seq<Seq<char>> {
        Seq::new(self.labels@.len(), |i: int| self.labels@[i]@)
    }

    /// The underlying graph.
    pub closed spec fn spec_graph(&self) -> Graph {
        self.graph
    }

    pub open spec fn wf(&self) -> bool {
        &&& self.spec_graph().wf()
        &&& self.spec_graph()@.len() == self.labels_view().len()
        &&& forall|i: int, j: int|
            0 <= i < j < self.labels_view().len() ==> self.labels_view()[i]
                != self.labels_view()[j]
    }

    pub fn new() -> (sg: SymbolGraph)
        ensures
            sg.wf(),
            sg.labels_view() == Seq::<Seq<char>>::empty(),
            sg.spec_graph()@ == Seq::<Seq<usize>>::empty(),
            sg.spec_graph().spec_e() == 0,
    {
        let sg = SymbolGraph { labels: Vec::new(), graph: Graph::new() };
        proof {
            assert(sg.labels_view() =~= Seq::<Seq<char>>::empty());
        }
        sg
    }

    /// Number of vertices, which equals the number of stored labels.
    pub fn v(&self) -> (n: usize)
        requires
            self.wf(),
        ensures
            n == self.labels_view().len(),
    {
        self.graph.v()
    }

    /// Number of edges added so far.
    pub fn e(&self) -> (n: usize)
        ensures
            n == self.spec_graph().spec_e(),
    {
        self.graph.e()
    }

    /// Read access to the underlying graph, e.g. to run a search over
    /// labeled data.
    pub fn graph(&self) -> (g: &Graph)
        ensures
            *g == self.spec_graph(),
    {
        &self.graph
    }

    /// Forward lookup: the vertex identifier carrying this label, if any.
    pub fn index_of(&self, label: &str) -> (r: Option<usize>)
        requires
            self.wf(),
        ensures
            match r {
                Some(i) => (i as int) < self.labels_view().len() && self.labels_view()[i as int]
                    == label@,
                None => !has_label(self.labels_view(), label@),
            },
    {
        let owned: String = label.to_owned();
        let mut i: usize = 0;
        while i < self.labels.len()
            invariant
                i <= self.labels.len(),
                owned@ == label@,
                forall|j: int| 0 <= j < i ==> self.labels_view()[j] != label@,
            decreases self.labels.len() - i,
        {
            if self.labels[i] == owned {
                return Some(i);
            }
            i = i + 1;
        }
        None
    }

    /// Inserts a label: a fresh graph vertex is allocated and the label is
    /// recorded at the new identifier. Re-inserting a label that is already
    /// present is a no-op and allocates nothing.
    pub fn add_node(&mut self, label: &str)
        requires
            old(self).wf(),
        ensures
            final(self).wf(),
            has_label(old(self).labels_view(), label@) ==> *final(self) == *old(self),
            !has_label(old(self).labels_view(), label@) ==> {
                &&& final(self).labels_view() == old(self).labels_view().push(label@)
                &&& final(self).spec_graph()@ == old(self).spec_graph()@.push(
                    Seq::<usize>::empty(),
                )
                &&& final(self).spec_graph().spec_e() == old(self).spec_graph().spec_e()
            },
    {
        match self.index_of(label) {
            Some(i) => {
                proof {
                    assert(has_label(self.labels_view(), label@));
                }
            },
            None => {
                let _id = self.graph.add_node();
                self.labels.push(label.to_owned());
                proof {
                    assert(self.labels_view() =~= old(self).labels_view().push(label@));
                }
            },
        }
    }

    /// Inserts the undirected edge joining two labels. If either label is
    /// absent the call is a silent no-op; otherwise it is Graph::add_edge on
    /// the two mapped identifiers.
    pub fn add_edge(&mut self, l1: &str, l2: &str)
        requires
            old(self).wf(),
            old(self).spec_graph().spec_e() < usize::MAX,
        ensures
            final(self).wf(),
            final(self).labels_view() == old(self).labels_view(),
            ({
                let labels = old(self).labels_view();
                if has_label(labels, l1@) && has_label(labels, l2@) {
                    &&& final(self).spec_graph()@ == add_edge_model(
                        old(self).spec_graph()@,
                        label_index(labels, l1@) as usize,
                        label_index(labels, l2@) as usize,
                    )
                    &&& final(self).spec_graph().spec_e() == old(self).spec_graph().spec_e() + 1
                } else {
                    *final(self) == *old(self)
                }
            }),
    {
        let r1 = self.index_of(l1);
        let r2 = self.index_of(l2);
        match (r1, r2) {
            (Some(a), Some(b)) => {
                proof {
                    let labels = self.labels_view();
                    assert(has_label(labels, l1@));
                    assert(has_label(labels, l2@));
                    lemma_label_round_trip(labels, l1@);
                    lemma_label_round_trip(labels, l2@);
                    assert(label_index(labels, l1@) == a as int);
                    assert(label_index(labels, l2@) == b as int);
                }
                self.graph.add_edge(a, b);
            },
            _ => {},
        }
    }

    /// Inverse lookup: the label stored at a vertex identifier.
    pub fn data_of(&self, index: usize) -> (label: &String)
        requires
            (index as int) < self.labels_view().len(),
        ensures
            label@ == self.labels_view()[index as int],
    {
        &self.labels[index]
    }
}

} // verus!
