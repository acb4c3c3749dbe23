//! The dependency graph of one module.

use crate::acyclic::{acyclic, lemma_condensed_is_acyclic};
use crate::condense::{
    component, components, condense, condensed_edges, filled, group_views, groups, leaders,
    lemma_group_members,
};
use crate::graph::{
    simple, tag, with_edge, within, Dependency, Edge, GraphView, IdxGraph, InternedGraph,
};
use crate::item::{Item, ItemId, ItemIdGroupKind, ItemView};
use crate::module::{export_names, item_ids, lemma_item_ids_distinct, Module};
use crate::seqs::{absorb, lemma_absorb_fresh};
use crate::var_set::{var_seq, var_set_extend, var_set_get, var_set_len, var_set_new};
use vstd::prelude::*;

verus! {

/// The dependency graph of one module: an interned graph over [`ItemId`]s.
pub struct DepGraph {
    pub g: InternedGraph<ItemId>,
}

impl View for DepGraph {
    type V = GraphView<ItemId>;

    open spec fn view(&self) -> GraphView<ItemId> {
        self.g@
    }
}

impl DepGraph {
    /// The underlying graph is well formed.
    pub open spec fn wf(&self) -> bool {
        self.g.wf()
    }

    /// Whether the underlying graph is well formed.
    pub fn is_wf(&self) -> (r: bool)
        ensures
            r == self.wf(),
    {
        self.g.is_wf()
    }

    /// A graph without nodes.
    pub fn new() -> (d: Self)
        ensures
            d.wf(),
            d@.nodes == Seq::<ItemId>::empty(),
            d@.edges == Seq::<Edge>::empty(),
    {
        DepGraph { g: InternedGraph::new() }
    }

    /// Gives each unit of `ids` a node, in order, unless it has one.
    pub fn intern(&mut self, ids: &Vec<ItemId>)
        requires
            old(self).wf(),
        ensures
            final(self).wf(),
            final(self)@.edges == old(self)@.edges,
            final(self)@.nodes == absorb(old(self)@.nodes, ids@),
    {
        let mut k: usize = 0;
        assert(ids@.take(0) =~= Seq::<ItemId>::empty());
        while k < ids.len()
            invariant
                k <= ids.len(),
                self.wf(),
                self@.edges == old(self)@.edges,
                self@.nodes == absorb(old(self)@.nodes, ids@.take(k as int)),
            decreases ids.len() - k,
        {
            proof {
                let t = ids@.take(k + 1);
                assert(t.drop_last() =~= ids@.take(k as int));
                assert(t.last() == ids@[k as int]);
            }
            let _ = self.g.node(&ids[k]);
            k += 1;
        }
        assert(ids@.take(ids.len() as int) =~= ids@);
    }

    /// Sets up the analysis of a module: names its units, gives each a node,
    /// and gives each empty facts. The units come back in the order of
    /// [`item_ids`], with the facts of each at the same position. No edge is
    /// added; in a graph that had no nodes, the nodes are then the units.
    #[verifier::rlimit(100)]
    pub fn init(&mut self, module: &Module) -> (r: (Vec<ItemId>, Vec<Item>))
        requires
            old(self).wf(),
        ensures
            final(self).wf(),
            final(self)@.edges == old(self)@.edges,
            final(self)@.nodes == absorb(old(self)@.nodes, r.0@),
            old(self)@.nodes.len() == 0 ==> final(self)@.nodes == r.0@,
            r.0@ == item_ids(module@),
            r.1.len() == r.0.len(),
            forall|k: int| 0 <= k < r.1.len() ==> (#[trigger] r.1@[k])@ == ItemView::empty(),
    {
        let ghost m = module@;
        let mut ids: Vec<ItemId> = Vec::new();
        ids.push(ItemId::Group(ItemIdGroupKind::ModuleEvaluation));
        let mut exports = var_set_new();
        let mut i: usize = 0;
        assert(m.take(0) =~= Seq::empty());
        while i < module.body.len()
            invariant
                i <= module.body.len(),
                m == module@,
                ids.len() == i + 1,
                ids@[0] == ItemId::Group(ItemIdGroupKind::ModuleEvaluation),
                forall|j: int|
                    0 <= j < i ==> #[trigger] ids@[j + 1] == (ItemId::Item {
                        index: j as usize,
                        kind: m[j].kind,
                    }),
                var_seq(exports) == export_names(m.take(i as int)),
            decreases module.body.len() - i,
        {
            proof {
                let t = m.take(i + 1);
                assert(t.drop_last() =~= m.take(i as int));
                assert(t.last() == module.body@[i as int]@);
            }
            ids.push(ItemId::Item { index: i, kind: module.body[i].kind });
            var_set_extend(&mut exports, &module.body[i].exports);
            i += 1;
        }
        assert(m.take(module.body.len() as int) =~= m);
        let n = var_set_len(&exports);
        let ghost base = ids@;
        let ghost head = seq![ItemId::Group(ItemIdGroupKind::ModuleEvaluation)] + Seq::new(
            m.len(),
            |i: int| ItemId::Item { index: i as usize, kind: m[i].kind },
        );
        proof {
            assert forall|j: int| 0 <= j < base.len() implies base[j] == head[j] by {
                if j > 0 {
                    assert(base[(j - 1) + 1] == head[j]);
                }
            }
            assert(base =~= head);
        }
        let mut k: usize = 0;
        while k < n
            invariant
                k <= n,
                base == head,
                n == export_names(m).len(),
                var_seq(exports) == export_names(m),
                ids.len() == base.len() + k,
                forall|j: int| 0 <= j < base.len() ==> ids@[j] == base[j],
                forall|j: int|
                    0 <= j < k ==> #[trigger] ids@[base.len() + j] == ItemId::Group(
                        ItemIdGroupKind::Export(export_names(m)[j]),
                    ),
            decreases n - k,
        {
            match var_set_get(&exports, k) {
                Some(x) => {
                    ids.push(ItemId::Group(ItemIdGroupKind::Export(x)));
                },
                None => {},
            }
            k += 1;
        }
        proof {
            let want = item_ids(m);
            assert(ids@.len() == want.len());
            assert forall|j: int| 0 <= j < ids@.len() implies ids@[j] == want[j] by {
                if j < base.len() {
                    assert(ids@[j] == head[j]);
                } else {
                    let d = j - base.len();
                    assert(ids@[base.len() + d] == ItemId::Group(
                        ItemIdGroupKind::Export(export_names(m)[d]),
                    ));
                }
            }
            assert(ids@ =~= want);
        }
        let mut facts: Vec<Item> = Vec::new();
        let mut f: usize = 0;
        while f < ids.len()
            invariant
                f <= ids.len(),
                facts.len() == f,
                forall|k: int| 0 <= k < f ==> (#[trigger] facts@[k])@ == ItemView::empty(),
            decreases ids.len() - f,
        {
            facts.push(Item::default());
            f += 1;
        }
        proof {
            if self@.nodes.len() == 0 {
                lemma_item_ids_distinct(m);
                assert(self@.nodes + ids@ =~= ids@);
                lemma_absorb_fresh(self@.nodes, ids@);
            }
        }
        self.intern(&ids);
        (ids, facts)
    }
}

/// How a module is to be split.
#[derive(Clone, Copy, Debug, PartialEq, Eq, Structural)]
pub enum Mode {
    /// As many parts as the dependencies allow.
    Development,
    /// Fewer and larger parts.
    Production,
}

/// The units of each component of a graph, in the order of their nodes.
pub open spec fn condensed_nodes(g: GraphView<ItemId>) -> Seq<Seq<ItemId>> {
    let gs = groups(g.edges, g.nodes.len());
    Seq::new(gs.len(), |k: int| Seq::new(gs[k].len(), |i: int| g.nodes[gs[k][i] as int]))
}

/// The condensation of a graph: a node for each component, which holds the
/// units of the component, and the edges between the components.
pub open spec fn condensed(g: GraphView<ItemId>) -> GraphView<Seq<ItemId>> {
    GraphView {
        nodes: condensed_nodes(g),
        edges: condensed_edges(g.edges, components(g.edges, g.nodes.len())),
    }
}

/// Edge `i` is the only edge that ends in its target.
pub open spec fn sole_consumer(es: Seq<Edge>, i: int) -> bool {
    forall|j: int| 0 <= j < es.len() && (#[trigger] es[j]).to == es[i].to ==> j == i
}

/// The edges after every weak edge whose target nothing else depends on was
/// made strong.
pub open spec fn folded(es: Seq<Edge>) -> Seq<Edge> {
    Seq::new(
        es.len(),
        |i: int|
            if es[i].kind == Dependency::Weak && sole_consumer(es, i) {
                Edge { from: es[i].from, to: es[i].to, kind: Dependency::Strong }
            } else {
                es[i]
            },
    )
}

/// The edges after the weak edges were dealt with as the mode asks.
pub open spec fn weak_handled(es: Seq<Edge>, mode: Mode) -> Seq<Edge> {
    match mode {
        Mode::Development => es,
        Mode::Production => folded(es),
    }
}

/// Folding changes no end point of an edge, so it keeps an edge list simple
/// and within its nodes.
pub proof fn lemma_folded_shape(es: Seq<Edge>)
    ensures
        folded(es).len() == es.len(),
        forall|i: int|
            0 <= i < es.len() ==> (#[trigger] folded(es)[i]).from == es[i].from && folded(es)[i].to
                == es[i].to,
        simple(es) ==> simple(folded(es)),
        forall|n: nat| within(es, n) ==> #[trigger] within(folded(es), n),
{
    let fs = folded(es);
    if simple(es) {
        assert forall|i: int, j: int| 0 <= i < j < fs.len() implies !((#[trigger] fs[i]).from == (
        #[trigger] fs[j]).from && fs[i].to == fs[j].to) by {
            assert(!(es[i].from == es[j].from && es[i].to == es[j].to));
        }
    }
    assert forall|n: nat| within(es, n) implies #[trigger] within(fs, n) by {
        assert forall|i: int|
            0 <= i < fs.len() implies (#[trigger] fs[i]).from < n && fs[i].to < n by {
            assert(es[i].from < n && es[i].to < n);
        }
    }
}

impl Clone for DepGraph {
    fn clone(&self) -> (r: Self)
        ensures
            r@ == self@,
    {
        DepGraph { g: self.g.clone() }
    }
}

impl DepGraph {
    /// Records that `from` depends strongly on `to`; both get a node if they
    /// have none.
    pub fn add_strong_dep(&mut self, from: &ItemId, to: &ItemId)
        requires
            old(self).wf(),
        ensures
            final(self).wf(),
            final(self)@.nodes == absorb(old(self)@.nodes, seq![*from, *to]),
            final(self)@.edges == with_edge(
                old(self)@.edges,
                final(self)@.nodes.index_of(*from) as usize,
                final(self)@.nodes.index_of(*to) as usize,
                Dependency::Strong,
            ),
    {
        self.add_dep(from, to, Dependency::Strong);
    }

    /// Records that `from` depends weakly on `to`; both get a node if they
    /// have none. An edge that is strong stays strong.
    pub fn add_weak_dep(&mut self, from: &ItemId, to: &ItemId)
        requires
            old(self).wf(),
        ensures
            final(self).wf(),
            final(self)@.nodes == absorb(old(self)@.nodes, seq![*from, *to]),
            final(self)@.edges == with_edge(
                old(self)@.edges,
                final(self)@.nodes.index_of(*from) as usize,
                final(self)@.nodes.index_of(*to) as usize,
                Dependency::Weak,
            ),
    {
        self.add_dep(from, to, Dependency::Weak);
    }

    /// Records that `from` depends on `to` with strength `kind`; both get a
    /// node if they have none.
    fn add_dep(&mut self, from: &ItemId, to: &ItemId, kind: Dependency)
        requires
            old(self).wf(),
        ensures
            final(self).wf(),
            final(self)@.nodes == absorb(old(self)@.nodes, seq![*from, *to]),
            final(self)@.edges == with_edge(
                old(self)@.edges,
                final(self)@.nodes.index_of(*from) as usize,
                final(self)@.nodes.index_of(*to) as usize,
                kind,
            ),
    {
        let a = self.g.node(from);
        let ghost mid = self@.nodes;
        let b = self.g.node(to);
        proof {
            let pair = seq![*from, *to];
            assert(pair.drop_last() =~= seq![*from]);
            assert(seq![*from].drop_last() =~= Seq::<ItemId>::empty());
            assert(absorb(old(self)@.nodes, Seq::<ItemId>::empty()) == old(self)@.nodes);
            assert(seq![*from].last() == *from);
            assert(absorb(old(self)@.nodes, seq![*from]) == mid);
            assert(pair.last() == *to);
            assert(absorb(old(self)@.nodes, pair) == self@.nodes);
            assert(self@.nodes[a as int] == *from);
            assert(self@.nodes[b as int] == *to);
        }
        self.g.add_edge(a, b, kind);
    }

    /// The strength with which `from` depends on `to`, if it does.
    pub fn has_dep(&self, from: &ItemId, to: &ItemId) -> (r: Option<Dependency>)
        requires
            self.wf(),
        ensures
            r == if self@.nodes.contains(*from) && self@.nodes.contains(*to) {
                tag(
                    self@.edges,
                    self@.nodes.index_of(*from) as usize,
                    self@.nodes.index_of(*to) as usize,
                )
            } else {
                None
            },
    {
        match self.g.get_node(from) {
            Some(a) => match self.g.get_node(to) {
                Some(b) => {
                    assert(self@.nodes.contains(*from) && self@.nodes.contains(*to));
                    self.g.idx_graph.edge_weight(a, b)
                },
                None => None,
            },
            None => None,
        }
    }

    /// Condenses the graph: every set of units that depend on each other in
    /// a cycle becomes one node, which holds them in the order of their
    /// nodes; the nodes stand in the order of their first unit. Two nodes are
    /// joined where an edge joins a unit of the one to a unit of the other,
    /// strongly if one such edge is strong. The condensed graph has no cycle.
    #[verifier::rlimit(100)]
    pub fn finalize(&self) -> (r: InternedGraph<Vec<ItemId>>)
        requires
            self.wf(),
        ensures
            r.wf(),
            r@ == condensed(self@),
            acyclic(r@.edges, r@.nodes.len()),
    {
        let n = self.g.len();
        let c = condense(self.g.idx_graph.all_edges(), n);
        let ghost gs = groups(self@.edges, n as nat);
        let ghost want = condensed_nodes(self@);
        let mut graph_ix: Vec<Vec<ItemId>> = Vec::new();
        let mut k: usize = 0;
        while k < c.groups.len()
            invariant
                k <= c.groups.len(),
                n == self@.nodes.len(),
                n == self.g.graph_ix.len(),
                gs == groups(self@.edges, n as nat),
                group_views(c.groups@) == gs,
                want == condensed_nodes(self@),
                graph_ix.len() == k,
                forall|h: int| 0 <= h < k ==> (#[trigger] graph_ix@[h])@ == want[h],
            decreases c.groups.len() - k,
        {
            let group = &c.groups[k];
            proof {
                lemma_group_members(self@.edges, n as nat, k as int);
                assert(group@ == gs[k as int]);
            }
            let mut ids: Vec<ItemId> = Vec::new();
            let mut i: usize = 0;
            while i < group.len()
                invariant
                    i <= group.len(),
                    n == self@.nodes.len(),
                    n == self.g.graph_ix.len(),
                    forall|j: int| 0 <= j < group.len() ==> (#[trigger] group@[j]) < n,
                    ids.len() == i,
                    forall|j: int|
                        0 <= j < i ==> #[trigger] ids@[j] == self@.nodes[group@[j] as int],
                decreases group.len() - i,
            {
                ids.push(self.g.graph_ix[group[i]]);
                i += 1;
            }
            assert(ids@ =~= want[k as int]);
            graph_ix.push(ids);
            k += 1;
        }
        let r = InternedGraph { idx_graph: c.edges, graph_ix };
        proof {
            assert(r@.nodes =~= want);
            lemma_condensed_distinct(self@);
            lemma_condensed_is_acyclic(self@.edges, n as nat);
        }
        r
    }

    /// Deals with the weak edges before a split. For development they stay
    /// as they are. For production a weak edge becomes strong where nothing
    /// else depends on its target, so that the target can share a part with
    /// the unit that depends on it.
    #[verifier::rlimit(100)]
    pub fn handle_weak(&mut self, mode: Mode)
        requires
            old(self).wf(),
        ensures
            final(self).wf(),
            final(self)@.nodes == old(self)@.nodes,
            final(self)@.edges == weak_handled(old(self)@.edges, mode),
    {
        match mode {
            Mode::Development => {},
            Mode::Production => {
                let n = self.g.len();
                let ghost es = self@.edges;
                let mut seen = filled(n, false);
                let mut multi = filled(n, false);
                let mut j: usize = 0;
                while j < self.g.idx_graph.edges.len()
                    invariant
                        j <= es.len(),
                        es == self@.edges,
                        within(es, n as nat),
                        seen.len() == n,
                        multi.len() == n,
                        forall|v: int|
                            0 <= v < n ==> (#[trigger] seen@[v] <==> exists|a: int|
                                0 <= a < j && (#[trigger] es[a]).to == v),
                        forall|v: int|
                            0 <= v < n ==> (#[trigger] multi@[v] <==> exists|a: int, b: int|
                                0 <= a < b < j && (#[trigger] es[a]).to == v && (#[trigger] es[b]).to
                                    == v),
                    decreases es.len() - j,
                {
                    let to = self.g.idx_graph.edges[j].to;
                    let ghost seen0 = seen@;
                    let ghost multi0 = multi@;
                    if seen[to] {
                        multi.set(to, true);
                    } else {
                        seen.set(to, true);
                    }
                    proof {
                        assert forall|v: int|
                            0 <= v < n implies (#[trigger] seen@[v] <==> exists|a: int|
                            0 <= a < j + 1 && (#[trigger] es[a]).to == v) by {
                            if seen0[v] {
                                let a = choose|a: int| 0 <= a < j && (#[trigger] es[a]).to == v;
                                assert(es[a].to == v);
                            }
                            if v == to {
                                assert(es[j as int].to == v);
                            }
                        }
                        assert forall|v: int| 0 <= v < n implies (#[trigger] multi@[v] <==> exists|
                            a: int,
                            b: int,
                        |
                            0 <= a < b < j + 1 && (#[trigger] es[a]).to == v && (#[trigger] es[b]).to
                                == v) by {
                            if multi0[v] {
                                let (a, b) = choose|a: int, b: int|
                                    0 <= a < b < j && (#[trigger] es[a]).to == v && (
                                    #[trigger] es[b]).to == v;
                                assert(es[a].to == v && es[b].to == v);
                            }
                            if v == to && seen0[v] {
                                let a = choose|a: int| 0 <= a < j && (#[trigger] es[a]).to == v;
                                assert(es[a].to == v && es[j as int].to == v);
                            }
                            if exists|a: int, b: int|
                                0 <= a < b < j + 1 && (#[trigger] es[a]).to == v && (
                                #[trigger] es[b]).to == v {
                                let (a, b) = choose|a: int, b: int|
                                    0 <= a < b < j + 1 && (#[trigger] es[a]).to == v && (
                                    #[trigger] es[b]).to == v;
                                if b < j {
                                    assert(multi0[v]);
                                } else {
                                    assert(es[a].to == v);
                                    assert(seen0[v]);
                                }
                            }
                        }
                    }
                    j += 1;
                }
                let mut out: Vec<Edge> = Vec::new();
                let mut i: usize = 0;
                while i < self.g.idx_graph.edges.len()
                    invariant
                        i <= es.len(),
                        es == self@.edges,
                        self@ == old(self)@,
                        within(es, n as nat),
                        multi.len() == n,
                        forall|v: int|
                            0 <= v < n ==> (#[trigger] multi@[v] <==> exists|a: int, b: int|
                                0 <= a < b < es.len() && (#[trigger] es[a]).to == v && (
                                #[trigger] es[b]).to == v),
                        out.len() == i,
                        forall|h: int| 0 <= h < i ==> #[trigger] out@[h] == folded(es)[h],
                    decreases es.len() - i,
                {
                    let e = self.g.idx_graph.edges[i];
                    let weak = match e.kind {
                        Dependency::Weak => true,
                        Dependency::Strong => false,
                    };
                    proof {
                        let v = e.to as int;
                        if multi@[v] {
                            let (a, b) = choose|a: int, b: int|
                                0 <= a < b < es.len() && (#[trigger] es[a]).to == v && (
                                #[trigger] es[b]).to == v;
                            if a != i {
                                assert(es[a].to == es[i as int].to);
                            } else {
                                assert(es[b].to == es[i as int].to);
                            }
                            assert(!sole_consumer(es, i as int));
                        } else {
                            assert forall|h: int|
                                0 <= h < es.len() && (#[trigger] es[h]).to == es[i as int].to
                                    implies h == i by {
                                if h < i {
                                    assert(es[h].to == v && es[i as int].to == v);
                                } else if i < h {
                                    assert(es[i as int].to == v && es[h].to == v);
                                }
                            }
                        }
                    }
                    if weak && !multi[e.to] {
                        out.push(Edge { from: e.from, to: e.to, kind: Dependency::Strong });
                    } else {
                        out.push(e);
                    }
                    i += 1;
                }
                proof {
                    assert(out@ =~= folded(es));
                    lemma_folded_shape(es);
                }
                self.g.idx_graph = IdxGraph { edges: out };
            },
        }
    }
}

/// No two nodes of a condensation hold the same units.
pub proof fn lemma_condensed_distinct(g: GraphView<ItemId>)
    requires
        g.wf(),
        g.nodes.len() <= usize::MAX,
    ensures
        condensed_nodes(g).no_duplicates(),
{
    let n = g.nodes.len();
    let gs = groups(g.edges, n);
    let cn = condensed_nodes(g);
    assert forall|k: int, h: int| 0 <= k < cn.len() && 0 <= h < cn.len() && k != h implies cn[k]
        != cn[h] by {
        lemma_group_members(g.edges, n, k);
        lemma_group_members(g.edges, n, h);
        let l = leaders(g.edges, n)[k];
        let i = gs[k].index_of(l);
        assert(gs[k][i] == l);
        if cn[k] == cn[h] {
            assert(cn[k].len() == cn[h].len());
            assert(cn[k][i] == g.nodes[l as int]);
            assert(cn[h][i] == g.nodes[gs[h][i] as int]);
            assert(gs[h][i] == l);
            assert(component(g.edges, n, gs[h][i]) == h);
            assert(component(g.edges, n, gs[k][i]) == k);
        }
    }
}

impl Default for DepGraph {
    fn default() -> (d: Self)
        ensures
            d.wf(),
            d@.nodes == Seq::<ItemId>::empty(),
            d@.edges == Seq::<Edge>::empty(),
    {
        DepGraph::new()
    }
}

} // verus!
