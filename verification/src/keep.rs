//! Which units a split keeps: those that the synthetic units reach, and no
//! others.

use crate::condense::{
    component, components, crosses, groups, lemma_component, lemma_condensed, lemma_filter_below,
};
use crate::graph::{linked, tag, Edge, GraphView};
use crate::item::ItemId;
use crate::layout::{
    cond_edges, cond_roots, first_server, head_of, head_pred, heads_of, inner_of,
    lemma_first_server, live_of, ones, owner, part_count, part_of, parts_of, serves, unit,
};
use crate::reach::{
    any_step, is_walk, lemma_closed, lemma_reaches_mono, lemma_reaches_self, lemma_reaches_step,
    lemma_reaches_trans, reached, reaches, step_into, strong_step,
};
use crate::split::{in_part, is_stmt, part_nodes, stmts, to_stmt};
use vstd::prelude::*;

verus! {

/// The edges between the components of a graph join components.
pub proof fn lemma_cond_links(es: Seq<Edge>, n: nat, a: usize, b: usize)
    requires
        n <= usize::MAX,
        linked(cond_edges(es, n), a, b),
    ensures
        a < groups(es, n).len(),
        b < groups(es, n).len(),
{
    let comp = components(es, n);
    lemma_condensed(es, comp);
    let i = choose|i: int| #[trigger] crosses(es, comp, i, a, b);
    lemma_component(es, n, es[i].from);
    lemma_component(es, n, es[i].to);
}

/// Every node of a walk from a root is live, and some head serves it.
#[verifier::rlimit(100)]
proof fn lemma_walk_served(c: Seq<Edge>, rs: Seq<bool>, p: Seq<usize>, i: int)
    requires
        rs.len() <= usize::MAX,
        is_walk(step_into(c, ones(rs.len())), p),
        p[0] < rs.len(),
        rs[p[0] as int],
        0 <= i < p.len(),
    ensures
        p[i] < rs.len(),
        reaches(step_into(c, ones(rs.len())), p[0], p[i]),
        live_of(c, rs)[p[i] as int],
        exists|h: usize| heads_of(c, rs).contains(h) && #[trigger] serves(c, inner_of(c, rs), h, p[i]),
    decreases i,
{
    let m = rs.len();
    let wide = step_into(c, ones(m));
    let inner = inner_of(c, rs);
    let narrow = step_into(c, inner);
    let lv = live_of(c, rs);
    let v = p[i];
    if i == 0 {
        lemma_reaches_self(wide, v);
    } else {
        lemma_walk_served(c, rs, p, i - 1);
        assert(wide(p[i - 1], p[i - 1 + 1]));
        lemma_reaches_step(wide, p[0], p[i - 1], v);
    }
    assert(reached(c, rs, ones(m), v));
    assert(lv[v as int]);
    lemma_filter_below(m, head_pred(c, rs));
    if head_of(c, rs, lv, v) {
        assert(head_pred(c, rs)(v));
        assert(heads_of(c, rs).contains(v));
        lemma_reaches_self(narrow, v);
        assert(unit(m, v)[v as int]);
        assert(serves(c, inner, v, v));
    } else {
        assert(i > 0);
        let u = p[i - 1];
        let h = choose|h: usize| heads_of(c, rs).contains(h) && #[trigger] serves(c, inner, h, u);
        let s = choose|s: usize|
            s < unit(m, h).len() && unit(m, h)[s as int] && #[trigger] reaches(narrow, s, u);
        assert(inner[v as int]);
        assert(narrow(u, v));
        lemma_reaches_step(narrow, s, u, v);
        assert(serves(c, inner, h, v));
    }
}

/// Every live component has a part.
pub proof fn lemma_live_has_owner(c: Seq<Edge>, rs: Seq<bool>, k: usize)
    requires
        rs.len() <= usize::MAX,
        k < rs.len(),
        live_of(c, rs)[k as int],
    ensures
        owner(c, rs, k) is Some,
        owner(c, rs, k)->0 < heads_of(c, rs).len(),
{
    let m = rs.len();
    let wide = step_into(c, ones(m));
    let s = choose|s: usize| s < rs.len() && rs[s as int] && #[trigger] reaches(wide, s, k);
    let p = choose|p: Seq<usize>| #[trigger] is_walk(wide, p) && p[0] == s && p.last() == k;
    lemma_walk_served(c, rs, p, p.len() - 1);
    let hs = heads_of(c, rs);
    let inner = inner_of(c, rs);
    let h = choose|h: usize| hs.contains(h) && #[trigger] serves(c, inner, h, k);
    let q = hs.index_of(h);
    lemma_filter_below(m, head_pred(c, rs));
    lemma_first_server(c, hs, inner, k, hs.len() as int);
    if first_server(c, hs, inner, k, hs.len() as int) is None {
        assert(!serves(c, inner, hs[q], k));
    }
}

/// Every component that has a part is live.
pub proof fn lemma_owner_is_live(c: Seq<Edge>, rs: Seq<bool>, k: usize)
    requires
        rs.len() <= usize::MAX,
        owner(c, rs, k) is Some,
    ensures
        k < rs.len(),
        live_of(c, rs)[k as int],
        owner(c, rs, k)->0 < heads_of(c, rs).len(),
{
    let m = rs.len();
    let wide = step_into(c, ones(m));
    let inner = inner_of(c, rs);
    let narrow = step_into(c, inner);
    let hs = heads_of(c, rs);
    let lv = live_of(c, rs);
    lemma_filter_below(m, head_pred(c, rs));
    lemma_first_server(c, hs, inner, k, hs.len() as int);
    let q = owner(c, rs, k)->0 as int;
    let h = hs[q];
    assert(head_pred(c, rs)(h));
    assert(lv[h as int]);
    let s = choose|s: usize| s < rs.len() && rs[s as int] && #[trigger] reaches(wide, s, h);
    let t = choose|t: usize|
        t < unit(m, h).len() && unit(m, h)[t as int] && #[trigger] reaches(narrow, t, k);
    assert(t == h);
    assert forall|x: usize, y: usize| #[trigger] narrow(x, y) implies wide(x, y) by {}
    lemma_reaches_mono(narrow, wide, h, k);
    lemma_reaches_trans(wide, s, h, k);
    let inside = |x: usize| x < m;
    assert forall|x: usize, y: usize| inside(x) && #[trigger] wide(x, y) implies inside(y) by {}
    lemma_closed(wide, inside, h, k);
    assert(reached(c, rs, ones(m), k));
}

/// A split keeps what the synthetic units reach, and nothing else.
///
/// Take the unit at node `x` and the component that holds it. If a walk along
/// strong edges leads to that component from a component that holds a
/// synthetic unit, the unit has a part. If no walk at all leads there from
/// such a component, the unit has none. A unit with a part is among the nodes
/// of that part and of no other, and if it is a statement, the statement is in
/// the body of that part; a unit without a part is among the nodes of none.
#[verifier::rlimit(100)]
pub proof fn law_elimination(g: GraphView<ItemId>, x: usize)
    requires
        g.nodes.len() <= usize::MAX,
        x < g.nodes.len(),
    ensures
        components(g.edges, g.nodes.len())[x as int] < cond_roots(g.edges, g.nodes).len(),
        (exists|r: usize|
            r < cond_roots(g.edges, g.nodes).len() && cond_roots(g.edges, g.nodes)[r as int]
                && #[trigger] reaches(
                strong_step(cond_edges(g.edges, g.nodes.len())),
                r,
                components(g.edges, g.nodes.len())[x as int],
            )) ==> part_of(g.edges, g.nodes, x) is Some,
        (forall|r: usize|
            r < cond_roots(g.edges, g.nodes).len() && cond_roots(g.edges, g.nodes)[r as int]
                ==> !#[trigger] reaches(
                any_step(cond_edges(g.edges, g.nodes.len())),
                r,
                components(g.edges, g.nodes.len())[x as int],
            )) ==> part_of(g.edges, g.nodes, x) is None,
        part_of(g.edges, g.nodes, x) is Some ==> part_of(g.edges, g.nodes, x)->0 < part_count(
            g.edges,
            g.nodes,
        ),
        forall|p: usize|
            #[trigger] part_nodes(parts_of(g.edges, g.nodes), p).contains(x) <==> part_of(
                g.edges,
                g.nodes,
                x,
            ) == Some(p),
        forall|p: usize|
            part_of(g.edges, g.nodes, x) == Some(p) && !g.nodes[x as int].is_group()
                ==> #[trigger] stmts(g.nodes, parts_of(g.edges, g.nodes), p).contains(
                to_stmt(g.nodes)(x),
            ),
{
    let es = g.edges;
    let ids = g.nodes;
    let n = ids.len();
    let c = cond_edges(es, n);
    let rs = cond_roots(es, ids);
    let m = rs.len();
    let k = components(es, n)[x as int];
    let placed = parts_of(es, ids);
    lemma_component(es, n, x);
    assert(k < m);
    let wide = step_into(c, ones(m));
    if exists|r: usize| r < m && rs[r as int] && #[trigger] reaches(strong_step(c), r, k) {
        let r = choose|r: usize| r < m && rs[r as int] && #[trigger] reaches(strong_step(c), r, k);
        assert forall|a: usize, b: usize| #[trigger] strong_step(c)(a, b) implies wide(a, b) by {
            assert(tag(c, a, b) is Some);
            lemma_cond_links(es, n, a, b);
        }
        lemma_reaches_mono(strong_step(c), wide, r, k);
        assert(reached(c, rs, ones(m), k));
        lemma_live_has_owner(c, rs, k);
    }
    if part_of(es, ids, x) is Some {
        lemma_owner_is_live(c, rs, k);
        let r = choose|r: usize| r < rs.len() && rs[r as int] && #[trigger] reaches(wide, r, k);
        assert forall|a: usize, b: usize| #[trigger] wide(a, b) implies any_step(c)(a, b) by {}
        lemma_reaches_mono(wide, any_step(c), r, k);
    }
    assert forall|p: usize| #[trigger] part_nodes(placed, p).contains(x) <==> part_of(es, ids, x)
        == Some(p) by {
        lemma_filter_below(n, in_part(placed, p));
        let s = part_nodes(placed, p);
        if s.contains(x) {
            let i = s.index_of(x);
            assert(in_part(placed, p)(s[i]));
        }
        if part_of(es, ids, x) == Some(p) {
            assert(in_part(placed, p)(x));
        }
    }
    assert forall|p: usize|
        part_of(es, ids, x) == Some(p) && !ids[x as int].is_group() implies #[trigger] stmts(
        ids,
        placed,
        p,
    ).contains(to_stmt(ids)(x)) by {
        let s = part_nodes(placed, p);
        assert(s.contains(x));
        let i = s.index_of(x);
        assert(is_stmt(ids)(s[i]));
        s.lemma_filter_contains(is_stmt(ids), i);
        let t = s.filter(is_stmt(ids));
        let j = t.index_of(x);
        assert(t.map_values(to_stmt(ids))[j] == to_stmt(ids)(x));
    }
}

} // verus!
