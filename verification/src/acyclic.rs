//! The condensed graph has no cycle, and neither has the graph of the parts.

use crate::condense::{
    component, components, connected, crosses, groups, leader_pred, leaders, lemma_component,
    lemma_condensed, lemma_filter_below, lemma_leader_unique, lemma_same_refl, same_scc,
};
use crate::graph::{edge_index, linked, simple, Dependency, Edge};
use crate::item::ItemId;
use crate::keep::{lemma_cond_links, lemma_owner_is_live};
use crate::layout::{
    cond_edges, cond_roots, first_server, head_of, head_pred, heads_of, inner_of, into,
    lemma_first_server, live_of, many_into, ones, owner, part_count, parts_of, serves, unit,
    weak_into,
};
use crate::reach::{
    any_step, lemma_closed, lemma_last_step, lemma_reaches_mono, lemma_reaches_self,
    lemma_reaches_step, lemma_reaches_trans, lemma_step_reaches, reached, reaches, step_into, Step,
};
use crate::split::{joins, links};
use vstd::prelude::*;

verus! {

/// A walk between components follows a walk between their first nodes.
#[verifier::rlimit(100)]
pub proof fn lemma_lift_walk(es: Seq<Edge>, n: nat, a: usize, b: usize)
    requires
        n <= usize::MAX,
        a < groups(es, n).len(),
        reaches(any_step(cond_edges(es, n)), a, b),
    ensures
        b < groups(es, n).len(),
        connected(es, leaders(es, n)[a as int], leaders(es, n)[b as int]),
{
    let c = cond_edges(es, n);
    let ls = leaders(es, n);
    let m = ls.len();
    let comp = components(es, n);
    let la = ls[a as int];
    let inside = |x: usize| x < m && connected(es, la, ls[x as int]);
    lemma_same_refl(es, la);
    lemma_condensed(es, comp);
    assert forall|x: usize, y: usize|
        inside(x) && #[trigger] any_step(c)(x, y) implies inside(y) by {
        lemma_cond_links(es, n, x, y);
        let i = choose|i: int| #[trigger] crosses(es, comp, i, x, y);
        let u = es[i].from;
        let v = es[i].to;
        lemma_component(es, n, u);
        lemma_component(es, n, v);
        assert(same_scc(es, ls[x as int], u));
        assert(same_scc(es, ls[y as int], v));
        assert(linked(es, u, v));
        assert(any_step(es)(u, v));
        lemma_step_reaches(any_step(es), u, v);
        lemma_reaches_trans(any_step(es), la, ls[x as int], u);
        lemma_reaches_trans(any_step(es), la, u, v);
        lemma_reaches_trans(any_step(es), la, v, ls[y as int]);
    }
    lemma_closed(any_step(c), inside, a, b);
}

/// A graph of `n` nodes has no cycle: no node is joined to itself, and two
/// nodes that reach each other are one.
pub open spec fn acyclic(es: Seq<Edge>, n: nat) -> bool {
    &&& forall|a: usize| a < n ==> !#[trigger] linked(es, a, a)
    &&& forall|a: usize, b: usize|
        a < n && #[trigger] reaches(any_step(es), a, b) && reaches(any_step(es), b, a) ==> a == b
}

/// The condensed graph has no cycle: no component is joined to itself, and
/// two components that reach each other are one.
pub proof fn law_condensed_acyclic(es: Seq<Edge>, n: nat, a: usize, b: usize)
    requires
        n <= usize::MAX,
        a < groups(es, n).len(),
    ensures
        !linked(cond_edges(es, n), a, a),
        reaches(any_step(cond_edges(es, n)), a, b) && reaches(any_step(cond_edges(es, n)), b, a)
            ==> a == b,
{
    let c = cond_edges(es, n);
    lemma_condensed(es, components(es, n));
    if reaches(any_step(c), a, b) && reaches(any_step(c), b, a) {
        lemma_lift_walk(es, n, a, b);
        lemma_lift_walk(es, n, b, a);
        let ls = leaders(es, n);
        lemma_filter_below(n, leader_pred(es));
        assert(leader_pred(es)(ls[a as int]));
        assert(leader_pred(es)(ls[b as int]));
        lemma_leader_unique(es, ls[a as int], ls[b as int]);
        if a < b {
            assert(ls[a as int] < ls[b as int]);
        } else if b < a {
            assert(ls[b as int] < ls[a as int]);
        }
    }
}

/// A component that starts a part is served by itself alone.
pub proof fn lemma_head_serves_itself(c: Seq<Edge>, rs: Seq<bool>, h: usize, k: usize)
    requires
        head_of(c, rs, live_of(c, rs), k),
        serves(c, inner_of(c, rs), h, k),
    ensures
        h == k,
{
    let inner = inner_of(c, rs);
    let narrow = step_into(c, inner);
    let s = choose|s: usize|
        s < unit(inner.len(), h).len() && unit(inner.len(), h)[s as int] && #[trigger] reaches(
            narrow,
            s,
            k,
        );
    if h != k {
        let z = lemma_last_step(narrow, h, k);
        assert(inner[k as int]);
    }
}

/// What a head serves is live.
pub proof fn lemma_served_live(c: Seq<Edge>, rs: Seq<bool>, h: usize, k: usize)
    requires
        rs.len() <= usize::MAX,
        head_of(c, rs, live_of(c, rs), h),
        serves(c, inner_of(c, rs), h, k),
    ensures
        k < rs.len(),
        live_of(c, rs)[k as int],
{
    let m = rs.len();
    let wide = step_into(c, ones(m));
    let inner = inner_of(c, rs);
    let narrow = step_into(c, inner);
    let s = choose|s: usize| s < rs.len() && rs[s as int] && #[trigger] reaches(wide, s, h);
    let t = choose|t: usize|
        t < unit(m, h).len() && unit(m, h)[t as int] && #[trigger] reaches(narrow, t, k);
    assert forall|x: usize, y: usize| #[trigger] narrow(x, y) implies wide(x, y) by {}
    lemma_reaches_mono(narrow, wide, h, k);
    lemma_reaches_trans(wide, s, h, k);
    let inside = |x: usize| x < m;
    assert forall|x: usize, y: usize| inside(x) && #[trigger] wide(x, y) implies inside(y) by {}
    lemma_closed(wide, inside, h, k);
    assert(reached(c, rs, ones(m), k));
}

/// A component that starts no part has one live consumer at most.
pub proof fn lemma_one_consumer(c: Seq<Edge>, rs: Seq<bool>, x: usize, z: usize, y: usize)
    requires
        simple(c),
        y < rs.len(),
        inner_of(c, rs)[y as int],
        x < rs.len(),
        z < rs.len(),
        live_of(c, rs)[x as int],
        live_of(c, rs)[z as int],
        linked(c, x, y),
        linked(c, z, y),
    ensures
        x == z,
{
    let lv = live_of(c, rs);
    let a = edge_index(c, x, y);
    let b = edge_index(c, z, y);
    assert(!weak_into(c, lv, y));
    assert(!many_into(c, lv, y));
    if c[a].kind == Dependency::Weak {
        assert(into(c, lv, a, y, Dependency::Weak));
    }
    if c[b].kind == Dependency::Weak {
        assert(into(c, lv, b, y, Dependency::Weak));
    }
    assert(into(c, lv, a, y, Dependency::Strong));
    assert(into(c, lv, b, y, Dependency::Strong));
    if a < b {
        assert(many_into(c, lv, y));
    } else if b < a {
        assert(many_into(c, lv, y));
    }
}

/// The heads that serve a component which starts no part are those that
/// serve its consumer.
#[verifier::rlimit(100)]
pub proof fn lemma_same_servers(c: Seq<Edge>, rs: Seq<bool>, x: usize, y: usize, h: usize)
    requires
        rs.len() <= usize::MAX,
        simple(c),
        y < rs.len(),
        inner_of(c, rs)[y as int],
        x < rs.len(),
        live_of(c, rs)[x as int],
        linked(c, x, y),
        head_of(c, rs, live_of(c, rs), h),
    ensures
        serves(c, inner_of(c, rs), h, y) == serves(c, inner_of(c, rs), h, x),
{
    let m = rs.len();
    let inner = inner_of(c, rs);
    let narrow = step_into(c, inner);
    assert(narrow(x, y));
    if serves(c, inner, h, x) {
        let s = choose|s: usize|
            s < unit(m, h).len() && unit(m, h)[s as int] && #[trigger] reaches(narrow, s, x);
        lemma_reaches_step(narrow, s, x, y);
    }
    if serves(c, inner, h, y) {
        let s = choose|s: usize|
            s < unit(m, h).len() && unit(m, h)[s as int] && #[trigger] reaches(narrow, s, y);
        assert(s == h);
        let z = lemma_last_step(narrow, h, y);
        assert(unit(m, h)[h as int]);
        assert(serves(c, inner, h, z));
        lemma_served_live(c, rs, h, z);
        lemma_one_consumer(c, rs, x, z, y);
    }
}

/// Components that the same heads serve have the same first server.
pub proof fn lemma_first_server_same(
    c: Seq<Edge>,
    hs: Seq<usize>,
    inner: Seq<bool>,
    x: usize,
    y: usize,
    upto: int,
)
    requires
        0 <= upto <= hs.len(),
        forall|r: int|
            0 <= r < hs.len() ==> serves(c, inner, #[trigger] hs[r], x) == serves(c, inner, hs[r], y),
    ensures
        first_server(c, hs, inner, x, upto) == first_server(c, hs, inner, y, upto),
    decreases upto,
{
    if upto > 0 {
        lemma_first_server_same(c, hs, inner, x, y, upto - 1);
        assert(serves(c, inner, hs[upto - 1], x) == serves(c, inner, hs[upto - 1], y));
    }
}

/// The relation between parts: one depends on another.
pub open spec fn links_step(es: Seq<Edge>, ids: Seq<ItemId>) -> Step {
    |p: usize, q: usize| links(es, parts_of(es, ids), p, q)
}

/// A part that depends on another reaches it in the condensed graph: the
/// component that starts the one reaches the component that starts the other,
/// and the two components differ.
#[verifier::rlimit(100)]
pub proof fn lemma_link_lifts(es: Seq<Edge>, ids: Seq<ItemId>, p: usize, q: usize)
    requires
        ids.len() <= usize::MAX,
        links(es, parts_of(es, ids), p, q),
    ensures
        p < part_count(es, ids),
        q < part_count(es, ids),
        ({
            let c = cond_edges(es, ids.len());
            let hs = heads_of(c, cond_roots(es, ids));
            hs[p as int] < cond_roots(es, ids).len() && hs[q as int] < cond_roots(es, ids).len()
                && hs[p as int] != hs[q as int] && reaches(any_step(c), hs[p as int], hs[q as int])
        }),
{
    let n = ids.len();
    let c = cond_edges(es, n);
    let rs = cond_roots(es, ids);
    let m = rs.len();
    let comp = components(es, n);
    let placed = parts_of(es, ids);
    let hs = heads_of(c, rs);
    let inner = inner_of(c, rs);
    let narrow = step_into(c, inner);
    let lv = live_of(c, rs);
    let i = choose|i: int| #[trigger] joins(es, placed, i, p, q);
    let x = es[i].from;
    let y = es[i].to;
    let cx = comp[x as int];
    let cy = comp[y as int];
    lemma_component(es, n, x);
    lemma_component(es, n, y);
    assert(owner(c, rs, cx) == Some(p));
    assert(owner(c, rs, cy) == Some(q));
    lemma_owner_is_live(c, rs, cx);
    lemma_owner_is_live(c, rs, cy);
    lemma_condensed(es, comp);
    assert(cx != cy);
    assert(crosses(es, comp, i, cx, cy));
    assert(linked(c, cx, cy));
    lemma_filter_below(m, head_pred(c, rs));
    lemma_first_server(c, hs, inner, cx, hs.len() as int);
    lemma_first_server(c, hs, inner, cy, hs.len() as int);
    if inner[cy as int] {
        assert forall|r: int| 0 <= r < hs.len() implies serves(c, inner, #[trigger] hs[r], cx)
            == serves(c, inner, hs[r], cy) by {
            assert(head_pred(c, rs)(hs[r]));
            lemma_same_servers(c, rs, cx, cy, hs[r]);
        }
        lemma_first_server_same(c, hs, inner, cx, cy, hs.len() as int);
        assert(false);
    }
    assert(head_of(c, rs, lv, cy));
    lemma_head_serves_itself(c, rs, hs[q as int], cy);
    let s = choose|s: usize|
        s < unit(m, hs[p as int]).len() && unit(m, hs[p as int])[s as int] && #[trigger] reaches(
            narrow,
            s,
            cx,
        );
    assert forall|a: usize, b: usize| #[trigger] narrow(a, b) implies any_step(c)(a, b) by {}
    lemma_reaches_mono(narrow, any_step(c), hs[p as int], cx);
    assert(any_step(c)(cx, cy));
    lemma_reaches_step(any_step(c), hs[p as int], cx, cy);
    assert(head_pred(c, rs)(hs[p as int]));
    if p < q {
        assert(hs[p as int] < hs[q as int]);
    } else {
        assert(hs[q as int] < hs[p as int]);
    }
}

/// A chain of parts that depend on each other follows a walk in the
/// condensed graph.
pub proof fn lemma_chain_lifts(es: Seq<Edge>, ids: Seq<ItemId>, p: usize, q: usize)
    requires
        ids.len() <= usize::MAX,
        p < part_count(es, ids),
        reaches(links_step(es, ids), p, q),
    ensures
        q < part_count(es, ids),
        ({
            let c = cond_edges(es, ids.len());
            let hs = heads_of(c, cond_roots(es, ids));
            reaches(any_step(c), hs[p as int], hs[q as int])
        }),
{
    let c = cond_edges(es, ids.len());
    let hs = heads_of(c, cond_roots(es, ids));
    let count = part_count(es, ids);
    let hp = hs[p as int];
    let inside = |z: usize| z < count && reaches(any_step(c), hp, hs[z as int]);
    lemma_reaches_self(any_step(c), hp);
    assert forall|a: usize, b: usize|
        inside(a) && #[trigger] links_step(es, ids)(a, b) implies inside(
        b,
    ) by {
        lemma_link_lifts(es, ids, a, b);
        lemma_reaches_trans(any_step(c), hp, hs[a as int], hs[b as int]);
    }
    lemma_closed(links_step(es, ids), inside, p, q);
}

/// The parts do not depend on each other in a cycle: a part that another
/// part reaches through parts that depend on each other does not depend on
/// that part.
pub proof fn law_parts_acyclic(es: Seq<Edge>, ids: Seq<ItemId>, p: usize, q: usize)
    requires
        ids.len() <= usize::MAX,
        p < part_count(es, ids),
        reaches(links_step(es, ids), p, q),
    ensures
        !links(es, parts_of(es, ids), q, p),
{
    if links(es, parts_of(es, ids), q, p) {
        let n = ids.len();
        let c = cond_edges(es, n);
        let hs = heads_of(c, cond_roots(es, ids));
        lemma_chain_lifts(es, ids, p, q);
        lemma_link_lifts(es, ids, q, p);
        assert(cond_roots(es, ids).len() == groups(es, n).len());
        law_condensed_acyclic(es, n, hs[p as int], hs[q as int]);
    }
}

/// The condensed graph has no cycle.
pub proof fn lemma_condensed_is_acyclic(es: Seq<Edge>, n: nat)
    requires
        n <= usize::MAX,
    ensures
        acyclic(cond_edges(es, n), groups(es, n).len()),
{
    let c = cond_edges(es, n);
    assert forall|a: usize| a < groups(es, n).len() implies !#[trigger] linked(c, a, a) by {
        law_condensed_acyclic(es, n, a, a);
    }
    assert forall|a: usize, b: usize|
        a < groups(es, n).len() && #[trigger] reaches(any_step(c), a, b) && reaches(
            any_step(c),
            b,
            a,
        ) implies a == b by {
        law_condensed_acyclic(es, n, a, b);
    }
}

} // verus!
