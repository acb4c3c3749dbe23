//! The two modes compared: what making weak edges strong does to the split.

use crate::condense::{
    component, components, condensed_edges, connected, crosses, groups, is_leader, leader_pred,
    leaders, lemma_component, lemma_condensed, member_pred, members, nodes_below, same_scc,
};
use crate::dep_graph::{folded, weak_handled, Mode};
use crate::graph::{
    edge_index, lemma_tag_at, linked, simple, tag, with_edge, Dependency, Edge, GraphView,
};
use crate::item::ItemId;
use crate::layout::{cond_edges, cond_roots, head_pred, into, live_of, ones, part_count, weak_into};
use crate::reach::{any_step, step_into};
use vstd::prelude::*;

verus! {

/// Two edge lists join the same pairs of nodes at the same positions.
pub open spec fn same_shape(es: Seq<Edge>, fs: Seq<Edge>) -> bool {
    &&& es.len() == fs.len()
    &&& forall|i: int|
        0 <= i < es.len() ==> (#[trigger] es[i]).from == fs[i].from && es[i].to == fs[i].to
}

/// `fs` is `es` with some of its weak edges made strong.
pub open spec fn strengthened(es: Seq<Edge>, fs: Seq<Edge>) -> bool {
    &&& same_shape(es, fs)
    &&& forall|i: int|
        0 <= i < es.len() && (#[trigger] es[i]).kind == Dependency::Strong ==> fs[i].kind
            == Dependency::Strong
}

/// Edge lists of the same shape join the same pairs of nodes.
pub proof fn lemma_same_links(es: Seq<Edge>, fs: Seq<Edge>)
    requires
        same_shape(es, fs),
    ensures
        forall|a: usize, b: usize| #[trigger] linked(es, a, b) == linked(fs, a, b),
        any_step(es) == any_step(fs),
        forall|allowed: Seq<bool>| #[trigger] step_into(es, allowed) == step_into(fs, allowed),
{
    assert forall|a: usize, b: usize| #[trigger] linked(es, a, b) == linked(fs, a, b) by {
        if linked(es, a, b) {
            let i = edge_index(es, a, b);
            assert(fs[i].from == a && fs[i].to == b);
        }
        if linked(fs, a, b) {
            let i = edge_index(fs, a, b);
            assert(es[i].from == a && es[i].to == b);
        }
    }
    assert(any_step(es) =~= any_step(fs));
    assert forall|allowed: Seq<bool>|
        #[trigger] step_into(es, allowed) == step_into(fs, allowed) by {
        assert(step_into(es, allowed) =~= step_into(fs, allowed));
    }
}

/// Graphs of the same shape have the same components.
#[verifier::rlimit(100)]
pub proof fn lemma_same_components(es: Seq<Edge>, fs: Seq<Edge>, n: nat)
    requires
        same_shape(es, fs),
        n <= usize::MAX,
    ensures
        forall|a: usize, b: usize| #[trigger] same_scc(es, a, b) == same_scc(fs, a, b),
        leaders(es, n) == leaders(fs, n),
        groups(es, n) == groups(fs, n),
        components(es, n) == components(fs, n),
{
    lemma_same_links(es, fs);
    assert forall|a: usize, b: usize| #[trigger] same_scc(es, a, b) == same_scc(fs, a, b) by {
        assert(connected(es, a, b) == connected(fs, a, b));
        assert(connected(es, b, a) == connected(fs, b, a));
    }
    assert forall|a: usize| #[trigger] is_leader(es, a) == is_leader(fs, a) by {
        if is_leader(es, a) {
            assert forall|b: usize| b < a implies !#[trigger] same_scc(fs, a, b) by {
                assert(!same_scc(es, a, b));
            }
        }
        if is_leader(fs, a) {
            assert forall|b: usize| b < a implies !#[trigger] same_scc(es, a, b) by {
                assert(!same_scc(fs, a, b));
            }
        }
    }
    assert(leader_pred(es) =~= leader_pred(fs));
    assert forall|l: usize| #[trigger] members(es, n, l) == members(fs, n, l) by {
        assert(member_pred(es, l) =~= member_pred(fs, l));
    }
    assert(groups(es, n) =~= groups(fs, n));
    assert forall|x: int|
        0 <= x < n implies #[trigger] components(es, n)[x] == components(fs, n)[x] by {
        lemma_component(es, n, x as usize);
        lemma_component(fs, n, x as usize);
        let c = component(es, n, x as usize);
        assert(same_scc(fs, leaders(fs, n)[c], x as usize));
    }
    assert(components(es, n) =~= components(fs, n));
}

/// Graphs of the same shape have condensed edges of the same shape.
#[verifier::rlimit(100)]
pub proof fn lemma_condensed_shape(es: Seq<Edge>, fs: Seq<Edge>, comp: Seq<usize>)
    requires
        same_shape(es, fs),
    ensures
        same_shape(condensed_edges(es, comp), condensed_edges(fs, comp)),
        simple(condensed_edges(es, comp)),
        simple(condensed_edges(fs, comp)),
    decreases es.len(),
{
    lemma_condensed(es, comp);
    lemma_condensed(fs, comp);
    if es.len() > 0 {
        let e = es.last();
        let f = fs.last();
        let rest = condensed_edges(es.drop_last(), comp);
        let rest2 = condensed_edges(fs.drop_last(), comp);
        assert(same_shape(es.drop_last(), fs.drop_last()));
        lemma_condensed_shape(es.drop_last(), fs.drop_last(), comp);
        assert(e.from == f.from && e.to == f.to);
        if e.from < comp.len() && e.to < comp.len() && comp[e.from as int] != comp[e.to as int] {
            let a = comp[e.from as int];
            let b = comp[e.to as int];
            lemma_same_links(rest, rest2);
            if linked(rest, a, b) {
                let p = edge_index(rest, a, b);
                lemma_tag_at(rest, p);
                lemma_tag_at(rest2, p);
                assert(edge_index(rest2, a, b) == p);
            }
            let out = with_edge(rest, a, b, e.kind);
            let out2 = with_edge(rest2, a, b, f.kind);
            assert(same_shape(out, out2));
        }
    }
}

/// Where a graph has weak edges made strong, its condensed edges have weak
/// edges made strong.
pub proof fn lemma_condensed_kinds(es: Seq<Edge>, fs: Seq<Edge>, comp: Seq<usize>)
    requires
        strengthened(es, fs),
    ensures
        strengthened(condensed_edges(es, comp), condensed_edges(fs, comp)),
{
    let c = condensed_edges(es, comp);
    let d = condensed_edges(fs, comp);
    lemma_condensed_shape(es, fs, comp);
    lemma_condensed(es, comp);
    lemma_condensed(fs, comp);
    assert forall|i: int|
        0 <= i < c.len() && (#[trigger] c[i]).kind == Dependency::Strong implies d[i].kind
        == Dependency::Strong by {
        let a = c[i].from;
        let b = c[i].to;
        lemma_tag_at(c, i);
        assert(tag(c, a, b) == Some(Dependency::Strong));
        let j = choose|j: int| #[trigger] crosses(es, comp, j, a, b) && es[j].kind == Dependency::Strong;
        assert(crosses(fs, comp, j, a, b) && fs[j].kind == Dependency::Strong);
        assert(tag(d, a, b) == Some(Dependency::Strong));
        lemma_tag_at(d, i);
    }
}

/// A test that holds of fewer nodes picks fewer nodes.
pub proof fn lemma_filter_fewer(n: nat, p: spec_fn(usize) -> bool, q: spec_fn(usize) -> bool)
    requires
        forall|x: usize| #[trigger] p(x) ==> q(x),
    ensures
        nodes_below(n).filter(p).len() <= nodes_below(n).filter(q).len(),
    decreases n,
{
    if n == 0 {
        assert(nodes_below(0) =~= Seq::<usize>::empty());
        reveal(Seq::filter);
        assert(nodes_below(0).filter(p).len() == 0);
    } else {
        let m = (n - 1) as nat;
        lemma_filter_fewer(m, p, q);
        assert(nodes_below(n) =~= nodes_below(m).push(m as usize));
        nodes_below(m).lemma_filter_push(m as usize, p);
        nodes_below(m).lemma_filter_push(m as usize, q);
    }
}

/// Making weak edges strong never adds a part.
#[verifier::rlimit(100)]
pub proof fn lemma_stronger_fewer_parts(es: Seq<Edge>, fs: Seq<Edge>, ids: Seq<ItemId>)
    requires
        strengthened(es, fs),
        ids.len() <= usize::MAX,
    ensures
        part_count(fs, ids) <= part_count(es, ids),
{
    let n = ids.len();
    lemma_same_components(es, fs, n);
    let comp = components(es, n);
    let c = cond_edges(es, n);
    let d = cond_edges(fs, n);
    let rs = cond_roots(es, ids);
    assert(cond_roots(fs, ids) == rs);
    assert(d == condensed_edges(fs, comp));
    lemma_condensed_kinds(es, fs, comp);
    lemma_same_links(c, d);
    let m = rs.len();
    assert(step_into(c, ones(m)) == step_into(d, ones(m)));
    assert(live_of(c, rs) =~= live_of(d, rs));
    let lv = live_of(c, rs);
    assert forall|k: usize| #[trigger] head_pred(d, rs)(k) implies head_pred(c, rs)(k) by {
        if !rs[k as int] {
            if weak_into(d, lv, k) {
                let a = choose|a: int| #[trigger] into(d, lv, a, k, Dependency::Weak);
                assert(c[a].kind == Dependency::Weak);
                assert(into(c, lv, a, k, Dependency::Weak));
            } else {
                let (a, b) = choose|a: int, b: int|
                    a < b && #[trigger] into(d, lv, a, k, Dependency::Strong) && #[trigger] into(
                        d,
                        lv,
                        b,
                        k,
                        Dependency::Strong,
                    );
                if c[a].kind == Dependency::Weak {
                    assert(into(c, lv, a, k, Dependency::Weak));
                } else if c[b].kind == Dependency::Weak {
                    assert(into(c, lv, b, k, Dependency::Weak));
                } else {
                    assert(into(c, lv, a, k, Dependency::Strong) && into(
                        c,
                        lv,
                        b,
                        k,
                        Dependency::Strong,
                    ));
                }
            }
        }
    }
    lemma_filter_fewer(m, head_pred(d, rs), head_pred(c, rs));
}

/// A module is split into no more parts for production than for development.
pub proof fn law_mode_divergence(g: GraphView<ItemId>)
    requires
        g.nodes.len() <= usize::MAX,
    ensures
        part_count(weak_handled(g.edges, Mode::Production), g.nodes) <= part_count(
            weak_handled(g.edges, Mode::Development),
            g.nodes,
        ),
{
    assert(strengthened(g.edges, folded(g.edges)));
    lemma_stronger_fewer_parts(g.edges, folded(g.edges), g.nodes);
}

} // verus!
