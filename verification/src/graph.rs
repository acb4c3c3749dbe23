//! A directed graph over small integers whose edges carry a strength, and an
//! interning layer that gives every distinct value one node of such a graph.

use vstd::prelude::*;

verus! {

/// How firmly one node depends on another.
///
/// A strong dependency must be kept and ordered; a weak one is a hint that
/// may be dropped.
#[derive(Clone, Copy, Debug, PartialEq, Eq, Hash, Structural)]
pub enum Dependency {
    Strong,
    Weak,
}

/// One edge of an [`IdxGraph`]: `from` depends on `to`.
#[derive(Clone, Copy, Debug, PartialEq, Eq, Hash, Structural)]
pub struct Edge {
    pub from: usize,
    pub to: usize,
    pub kind: Dependency,
}

/// Some edge of `es` leads from `a` to `b`.
pub open spec fn linked(es: Seq<Edge>, a: usize, b: usize) -> bool {
    exists|i: int| 0 <= i < es.len() && (#[trigger] es[i]).from == a && es[i].to == b
}

/// A position in `es` of an edge from `a` to `b`, where there is one.
pub open spec fn edge_index(es: Seq<Edge>, a: usize, b: usize) -> int {
    choose|i: int| 0 <= i < es.len() && (#[trigger] es[i]).from == a && es[i].to == b
}

/// The strength of the edge from `a` to `b`, or `None` where `es` has none.
pub open spec fn tag(es: Seq<Edge>, a: usize, b: usize) -> Option<Dependency> {
    if linked(es, a, b) {
        Some(es[edge_index(es, a, b)].kind)
    } else {
        None
    }
}

/// No two edges of `es` join the same pair of nodes in the same direction.
pub open spec fn simple(es: Seq<Edge>) -> bool {
    forall|i: int, j: int|
        0 <= i < j < es.len() ==> !((#[trigger] es[i]).from == (#[trigger] es[j]).from && es[i].to
            == es[j].to)
}

/// Every edge of `es` joins nodes below `n`.
pub open spec fn within(es: Seq<Edge>, n: nat) -> bool {
    forall|i: int| 0 <= i < es.len() ==> (#[trigger] es[i]).from < n && es[i].to < n
}

/// The strength of an edge after a dependency of strength `k` is added to
/// it: strong as soon as one of the two is strong.
pub open spec fn join(before: Option<Dependency>, k: Dependency) -> Dependency {
    if before == Some(Dependency::Strong) || k == Dependency::Strong {
        Dependency::Strong
    } else {
        Dependency::Weak
    }
}

/// `es` after a dependency of `a` on `b` of strength `k` is recorded: an edge
/// that is already there keeps its place and is strengthened if need be, a new
/// one goes to the end.
pub open spec fn with_edge(es: Seq<Edge>, a: usize, b: usize, k: Dependency) -> Seq<Edge> {
    if linked(es, a, b) {
        es.update(edge_index(es, a, b), Edge { from: a, to: b, kind: join(tag(es, a, b), k) })
    } else {
        es.push(Edge { from: a, to: b, kind: k })
    }
}

/// In a simple edge list the edge at position `i` is the one that `tag` and
/// `edge_index` find for its end points.
pub proof fn lemma_tag_at(es: Seq<Edge>, i: int)
    requires
        simple(es),
        0 <= i < es.len(),
    ensures
        linked(es, es[i].from, es[i].to),
        edge_index(es, es[i].from, es[i].to) == i,
        tag(es, es[i].from, es[i].to) == Some(es[i].kind),
{
    let a = es[i].from;
    let b = es[i].to;
    assert(linked(es, a, b));
    let j = edge_index(es, a, b);
    assert(0 <= j < es.len() && es[j].from == a && es[j].to == b);
    if j < i {
        assert(!(es[j].from == es[i].from && es[j].to == es[i].to));
    } else if i < j {
        assert(!(es[i].from == es[j].from && es[i].to == es[j].to));
    }
}

/// What recording a dependency does to the strength of every pair of nodes.
#[verifier::rlimit(100)]
pub proof fn lemma_with_edge(es: Seq<Edge>, a: usize, b: usize, k: Dependency)
    requires
        simple(es),
    ensures
        simple(with_edge(es, a, b, k)),
        tag(with_edge(es, a, b, k), a, b) == Some(join(tag(es, a, b), k)),
        forall|x: usize, y: usize|
            !(x == a && y == b) ==> #[trigger] tag(with_edge(es, a, b, k), x, y) == tag(es, x, y),
        forall|x: usize, y: usize|
            #[trigger] linked(with_edge(es, a, b, k), x, y) <==> (linked(es, x, y) || (x == a && y
                == b)),
        forall|n: nat|
            within(es, n) && a < n && b < n ==> #[trigger] within(with_edge(es, a, b, k), n),
{
    let es2 = with_edge(es, a, b, k);
    if linked(es, a, b) {
        let p = edge_index(es, a, b);
        assert(es2.len() == es.len());
        assert(forall|i: int|
            0 <= i < es.len() ==> (#[trigger] es2[i]).from == es[i].from && es2[i].to == es[i].to);
        assert(simple(es2)) by {
            assert forall|i: int, j: int| 0 <= i < j < es2.len() implies !((#[trigger] es2[i]).from
                == (#[trigger] es2[j]).from && es2[i].to == es2[j].to) by {
                assert(!(es[i].from == es[j].from && es[i].to == es[j].to));
            }
        }
        lemma_tag_at(es2, p);
        assert forall|x: usize, y: usize|
            #[trigger] linked(es2, x, y) <==> (linked(es, x, y) || (x == a && y == b)) by {
            if linked(es2, x, y) {
                let i = edge_index(es2, x, y);
                assert(es[i].from == x && es[i].to == y);
            }
            if linked(es, x, y) {
                let i = edge_index(es, x, y);
                assert(es2[i].from == x && es2[i].to == y);
            }
        }
        assert forall|x: usize, y: usize|
            !(x == a && y == b) implies #[trigger] tag(es2, x, y) == tag(es, x, y) by {
            if linked(es, x, y) {
                let i = edge_index(es, x, y);
                assert(i != p);
                lemma_tag_at(es, i);
                assert(es2[i] == es[i]);
                lemma_tag_at(es2, i);
            }
        }
    } else {
        let p = es.len() as int;
        assert(es2.len() == es.len() + 1);
        assert(forall|i: int| 0 <= i < es.len() ==> #[trigger] es2[i] == es[i]);
        assert(es2[p] == Edge { from: a, to: b, kind: k });
        assert(simple(es2)) by {
            assert forall|i: int, j: int| 0 <= i < j < es2.len() implies !((#[trigger] es2[i]).from
                == (#[trigger] es2[j]).from && es2[i].to == es2[j].to) by {
                if j < p {
                    assert(!(es[i].from == es[j].from && es[i].to == es[j].to));
                } else {
                    assert(es[i].from == es2[i].from);
                }
            }
        }
        lemma_tag_at(es2, p);
        assert forall|x: usize, y: usize|
            #[trigger] linked(es2, x, y) <==> (linked(es, x, y) || (x == a && y == b)) by {
            if linked(es2, x, y) {
                let i = edge_index(es2, x, y);
                if i < p {
                    assert(es[i].from == x && es[i].to == y);
                }
            }
            if linked(es, x, y) {
                let i = edge_index(es, x, y);
                assert(es2[i].from == x && es2[i].to == y);
            }
        }
        assert forall|x: usize, y: usize|
            !(x == a && y == b) implies #[trigger] tag(es2, x, y) == tag(es, x, y) by {
            if linked(es, x, y) {
                let i = edge_index(es, x, y);
                lemma_tag_at(es, i);
                assert(es2[i] == es[i]);
                lemma_tag_at(es2, i);
            }
        }
    }
    assert forall|n: nat| within(es, n) && a < n && b < n implies #[trigger] within(es2, n) by {
        assert forall|i: int|
            0 <= i < es2.len() implies (#[trigger] es2[i]).from < n && es2[i].to < n by {
            if i < es.len() {
                assert(es[i].from < n && es[i].to < n);
            }
        }
    }
}

/// A directed graph over node numbers, one tagged edge for each ordered pair
/// at most, kept in the order in which the pairs were first joined.
#[derive(Debug)]
pub struct IdxGraph {
    pub edges: Vec<Edge>,
}

impl View for IdxGraph {
    type V = Seq<Edge>;

    open spec fn view(&self) -> Seq<Edge> {
        self.edges@
    }
}

impl IdxGraph {
    /// No pair of nodes is joined twice in the same direction.
    pub open spec fn wf(&self) -> bool {
        simple(self@)
    }

    /// A graph without edges.
    pub fn new() -> (g: Self)
        ensures
            g@ == Seq::<Edge>::empty(),
            g.wf(),
    {
        IdxGraph { edges: Vec::new() }
    }

    /// The first position of an edge from `a` to `b` in the edge list.
    pub fn find(&self, a: usize, b: usize) -> (r: Option<usize>)
        ensures
            match r {
                Some(i) => i < self@.len() && self@[i as int].from == a && self@[i as int].to == b
                    && forall|j: int|
                    0 <= j < i ==> !((#[trigger] self@[j]).from == a && self@[j].to == b),
                None => !linked(self@, a, b),
            },
    {
        let mut i: usize = 0;
        while i < self.edges.len()
            invariant
                i <= self.edges.len(),
                forall|j: int|
                    0 <= j < i ==> !((#[trigger] self@[j]).from == a && self@[j].to == b),
            decreases self.edges.len() - i,
        {
            if self.edges[i].from == a && self.edges[i].to == b {
                return Some(i);
            }
            i += 1;
        }
        None
    }

    /// The strength of the edge from `a` to `b`, if there is one.
    pub fn edge_weight(&self, a: usize, b: usize) -> (r: Option<Dependency>)
        requires
            self.wf(),
        ensures
            r == tag(self@, a, b),
    {
        match self.find(a, b) {
            Some(i) => {
                proof {
                    lemma_tag_at(self@, i as int);
                }
                Some(self.edges[i].kind)
            },
            None => None,
        }
    }

    /// Records that `a` depends on `b` with strength `kind`. A pair that is
    /// already joined keeps its edge, which becomes strong if `kind` is.
    pub fn add_edge(&mut self, a: usize, b: usize, kind: Dependency)
        requires
            old(self).wf(),
        ensures
            final(self).wf(),
            final(self)@ == with_edge(old(self)@, a, b, kind),
    {
        proof {
            lemma_with_edge(self@, a, b, kind);
        }
        match self.find(a, b) {
            Some(i) => {
                proof {
                    lemma_tag_at(self@, i as int);
                }
                let strong = match kind {
                    Dependency::Strong => true,
                    Dependency::Weak => match self.edges[i].kind {
                        Dependency::Strong => true,
                        Dependency::Weak => false,
                    },
                };
                let k = if strong {
                    Dependency::Strong
                } else {
                    Dependency::Weak
                };
                self.edges.set(i, Edge { from: a, to: b, kind: k });
            },
            None => {
                self.edges.push(Edge { from: a, to: b, kind });
            },
        }
    }

    /// Whether no pair of nodes is joined twice in the same direction.
    pub fn is_wf(&self) -> (r: bool)
        ensures
            r == self.wf(),
    {
        let mut j: usize = 0;
        while j < self.edges.len()
            invariant
                j <= self.edges.len(),
                forall|a: int, b: int|
                    0 <= a < b < j ==> !((#[trigger] self@[a]).from == (#[trigger] self@[b]).from
                        && self@[a].to == self@[b].to),
            decreases self.edges.len() - j,
        {
            let e = self.edges[j];
            let mut i: usize = 0;
            while i < j
                invariant
                    i <= j,
                    j < self.edges.len(),
                    e == self@[j as int],
                    forall|a: int|
                        0 <= a < i ==> !((#[trigger] self@[a]).from == e.from && self@[a].to == e.to),
                decreases j - i,
            {
                if self.edges[i].from == e.from && self.edges[i].to == e.to {
                    assert(!simple(self@)) by {
                        if simple(self@) {
                            assert(!(self@[i as int].from == self@[j as int].from && self@[i as int].to
                                == self@[j as int].to));
                        }
                    }
                    return false;
                }
                i += 1;
            }
            j += 1;
        }
        true
    }

    /// Whether every edge joins nodes below `n`.
    pub fn is_within(&self, n: usize) -> (r: bool)
        ensures
            r == within(self@, n as nat),
    {
        let mut i: usize = 0;
        while i < self.edges.len()
            invariant
                i <= self.edges.len(),
                forall|a: int| 0 <= a < i ==> (#[trigger] self@[a]).from < n && self@[a].to < n,
            decreases self.edges.len() - i,
        {
            if self.edges[i].from >= n || self.edges[i].to >= n {
                assert(!within(self@, n as nat)) by {
                    if within(self@, n as nat) {
                        assert(self@[i as int].from < n && self@[i as int].to < n);
                    }
                }
                return false;
            }
            i += 1;
        }
        true
    }

    /// The edges, in the order in which their pairs were first joined.
    pub fn all_edges(&self) -> (r: &Vec<Edge>)
        ensures
            r@ == self@,
    {
        &self.edges
    }
}

/// A value that can be interned: it has a mathematical view, can be compared
/// with another by that view, and can be copied.
pub trait Key: View + Sized {
    /// Whether two values have the same view.
    fn same(&self, other: &Self) -> (r: bool)
        ensures
            r == (self@ == other@),
    ;

    /// A copy with the same view.
    fn dup(&self) -> (r: Self)
        ensures
            r@ == self@,
    ;
}

/// The views of a sequence of keys.
pub open spec fn key_views<T: Key>(s: Seq<T>) -> Seq<T::V> {
    Seq::new(s.len(), |i: int| s[i]@)
}

/// A graph over interned values: each distinct value has one node, numbered
/// in the order of first appearance, and the edges join node numbers.
pub struct InternedGraph<T: Key> {
    pub idx_graph: IdxGraph,
    pub graph_ix: Vec<T>,
}

/// The mathematical content of an [`InternedGraph`].
pub struct GraphView<V> {
    /// The interned values, by node number.
    pub nodes: Seq<V>,
    /// The edges between node numbers.
    pub edges: Seq<Edge>,
}

impl<T: Key> View for InternedGraph<T> {
    type V = GraphView<T::V>;

    open spec fn view(&self) -> GraphView<T::V> {
        GraphView { nodes: key_views(self.graph_ix@), edges: self.idx_graph@ }
    }
}

impl<V> GraphView<V> {
    /// No value has two nodes, no pair of nodes two edges, and every edge
    /// joins existing nodes.
    pub open spec fn wf(self) -> bool {
        &&& self.nodes.no_duplicates()
        &&& simple(self.edges)
        &&& within(self.edges, self.nodes.len())
    }
}

impl<T: Key> InternedGraph<T> {
    /// The graph's view is well formed.
    pub open spec fn wf(&self) -> bool {
        self@.wf()
    }

    /// A graph without nodes.
    pub fn new() -> (g: Self)
        ensures
            g.wf(),
            g@.nodes == Seq::<T::V>::empty(),
            g@.edges == Seq::<Edge>::empty(),
    {
        let g = InternedGraph { idx_graph: IdxGraph::new(), graph_ix: Vec::new() };
        assert(g@.nodes =~= Seq::<T::V>::empty());
        g
    }

    /// Whether the graph is well formed.
    pub fn is_wf(&self) -> (r: bool)
        ensures
            r == self.wf(),
    {
        let n = self.graph_ix.len();
        let mut j: usize = 0;
        while j < n
            invariant
                j <= n,
                n == self.graph_ix.len(),
                forall|a: int, b: int| 0 <= a < b < j ==> self@.nodes[a] != self@.nodes[b],
            decreases n - j,
        {
            let mut i: usize = 0;
            while i < j
                invariant
                    i <= j,
                    j < n,
                    n == self.graph_ix.len(),
                    forall|a: int| 0 <= a < i ==> self@.nodes[a] != self@.nodes[j as int],
                decreases j - i,
            {
                if self.graph_ix[i].same(&self.graph_ix[j]) {
                    assert(!self@.nodes.no_duplicates()) by {
                        if self@.nodes.no_duplicates() {
                            assert(self@.nodes[i as int] != self@.nodes[j as int]);
                        }
                    }
                    return false;
                }
                i += 1;
            }
            j += 1;
        }
        assert(self@.nodes.no_duplicates());
        self.idx_graph.is_wf() && self.idx_graph.is_within(n)
    }

    /// The number of nodes.
    pub fn len(&self) -> (n: usize)
        ensures
            n == self@.nodes.len(),
    {
        self.graph_ix.len()
    }

    /// The node of a value, if it has one.
    pub fn get_node(&self, id: &T) -> (r: Option<usize>)
        ensures
            match r {
                Some(i) => i < self@.nodes.len() && self@.nodes[i as int] == id@,
                None => !self@.nodes.contains(id@),
            },
    {
        let mut i: usize = 0;
        while i < self.graph_ix.len()
            invariant
                i <= self.graph_ix.len(),
                forall|j: int| 0 <= j < i ==> #[trigger] self@.nodes[j] != id@,
            decreases self.graph_ix.len() - i,
        {
            if self.graph_ix[i].same(id) {
                return Some(i);
            }
            i += 1;
        }
        None
    }

    /// The node of a value; a value met for the first time gets the next free
    /// node number, and the edges stay as they are.
    pub fn node(&mut self, id: &T) -> (i: usize)
        requires
            old(self).wf(),
        ensures
            final(self).wf(),
            final(self)@.edges == old(self)@.edges,
            final(self)@.nodes == if old(self)@.nodes.contains(id@) {
                old(self)@.nodes
            } else {
                old(self)@.nodes.push(id@)
            },
            i < final(self)@.nodes.len(),
            final(self)@.nodes[i as int] == id@,
    {
        match self.get_node(id) {
            Some(i) => i,
            None => {
                let i = self.graph_ix.len();
                let ghost before = self@;
                self.graph_ix.push(id.dup());
                proof {
                    assert(self@.nodes =~= before.nodes.push(id@));
                    assert(before.nodes.push(id@).no_duplicates()) by {
                        let s = before.nodes.push(id@);
                        assert forall|p: int, q: int|
                            0 <= p < s.len() && 0 <= q < s.len() && p != q implies s[p] != s[q] by {
                            if p < before.nodes.len() && q < before.nodes.len() {
                            } else if p < before.nodes.len() {
                                assert(before.nodes.contains(before.nodes[p]));
                            } else {
                                assert(before.nodes.contains(before.nodes[q]));
                            }
                        }
                    }
                }
                i
            },
        }
    }

    /// Records that the node `from` depends on the node `to`.
    pub fn add_edge(&mut self, from: usize, to: usize, kind: Dependency)
        requires
            old(self).wf(),
            from < old(self)@.nodes.len(),
            to < old(self)@.nodes.len(),
        ensures
            final(self).wf(),
            final(self)@.nodes == old(self)@.nodes,
            final(self)@.edges == with_edge(old(self)@.edges, from, to, kind),
    {
        proof {
            lemma_with_edge(self@.edges, from, to, kind);
        }
        self.idx_graph.add_edge(from, to, kind);
    }
}

impl Clone for IdxGraph {
    fn clone(&self) -> (r: Self)
        ensures
            r@ == self@,
    {
        let mut edges: Vec<Edge> = Vec::new();
        let mut i: usize = 0;
        while i < self.edges.len()
            invariant
                i <= self.edges.len(),
                edges@ == self.edges@.take(i as int),
            decreases self.edges.len() - i,
        {
            edges.push(self.edges[i]);
            assert(self.edges@.take(i as int).push(self.edges@[i as int]) =~= self.edges@.take(i + 1));
            i += 1;
        }
        assert(self.edges@.take(self.edges.len() as int) =~= self.edges@);
        IdxGraph { edges }
    }
}

impl<T: Key> Clone for InternedGraph<T> {
    fn clone(&self) -> (r: Self)
        ensures
            r@ == self@,
    {
        let mut graph_ix: Vec<T> = Vec::new();
        let mut i: usize = 0;
        while i < self.graph_ix.len()
            invariant
                i <= self.graph_ix.len(),
                graph_ix.len() == i,
                forall|j: int| 0 <= j < i ==> (#[trigger] graph_ix@[j])@ == self.graph_ix@[j]@,
            decreases self.graph_ix.len() - i,
        {
            graph_ix.push(self.graph_ix[i].dup());
            i += 1;
        }
        let r = InternedGraph { idx_graph: self.idx_graph.clone(), graph_ix };
        assert(r@.nodes =~= self@.nodes);
        r
    }
}

} // verus!
