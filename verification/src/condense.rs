//! Condensation: the strongly connected components of a graph, and the
//! acyclic graph between them.

use crate::graph::{
    lemma_with_edge, linked, simple, tag, with_edge, within, Dependency, Edge, IdxGraph,
};
use crate::reach::{
    any_step, lemma_reaches_mono, lemma_reaches_self, lemma_reaches_trans, reach_from, reached,
    reaches, step_into,
};
use vstd::prelude::*;

verus! {

/// A walk along edges of any strength leads from `a` to `b`.
pub open spec fn connected(es: Seq<Edge>, a: usize, b: usize) -> bool {
    reaches(any_step(es), a, b)
}

/// `a` and `b` lie on a common cycle, or are the same node.
pub open spec fn same_scc(es: Seq<Edge>, a: usize, b: usize) -> bool {
    connected(es, a, b) && connected(es, b, a)
}

/// `a` is the first node of its component.
pub open spec fn is_leader(es: Seq<Edge>, a: usize) -> bool {
    forall|b: usize| b < a ==> !#[trigger] same_scc(es, a, b)
}

/// The nodes `0`, `1`, ... below `n`.
pub open spec fn nodes_below(n: nat) -> Seq<usize> {
    Seq::new(n, |i: int| i as usize)
}

/// The test that picks the first node of each component.
pub open spec fn leader_pred(es: Seq<Edge>) -> spec_fn(usize) -> bool {
    |a: usize| is_leader(es, a)
}

/// The test that picks the nodes of the component of `l`.
pub open spec fn member_pred(es: Seq<Edge>, l: usize) -> spec_fn(usize) -> bool {
    |x: usize| same_scc(es, l, x)
}

/// The first nodes of the components of a graph of `n` nodes, ascending.
pub open spec fn leaders(es: Seq<Edge>, n: nat) -> Seq<usize> {
    nodes_below(n).filter(leader_pred(es))
}

/// The nodes of the component of `l`, ascending.
pub open spec fn members(es: Seq<Edge>, n: nat, l: usize) -> Seq<usize> {
    nodes_below(n).filter(member_pred(es, l))
}

/// The components of a graph of `n` nodes: ordered by their first node, each
/// with its nodes in ascending order.
pub open spec fn groups(es: Seq<Edge>, n: nat) -> Seq<Seq<usize>> {
    Seq::new(leaders(es, n).len(), |g: int| members(es, n, leaders(es, n)[g]))
}

/// The position among `groups` of the component that holds `x`.
pub open spec fn component(es: Seq<Edge>, n: nat, x: usize) -> int {
    choose|g: int| 0 <= g < leaders(es, n).len() && same_scc(es, #[trigger] leaders(es, n)[g], x)
}

/// For each node the position of its component.
pub open spec fn components(es: Seq<Edge>, n: nat) -> Seq<usize> {
    Seq::new(n, |x: int| component(es, n, x as usize) as usize)
}

/// The edges between components: every edge that joins two components is
/// recorded, in order, between the positions of the two. Several edges between
/// the same two components make one edge, strong if one of them is.
pub open spec fn condensed_edges(es: Seq<Edge>, comp: Seq<usize>) -> Seq<Edge>
    decreases es.len(),
{
    if es.len() == 0 {
        Seq::empty()
    } else {
        let rest = condensed_edges(es.drop_last(), comp);
        let e = es.last();
        if e.from < comp.len() && e.to < comp.len() && comp[e.from as int] != comp[e.to as int] {
            with_edge(rest, comp[e.from as int], comp[e.to as int], e.kind)
        } else {
            rest
        }
    }
}

/// Lying in one component is symmetric.
pub proof fn lemma_same_sym(es: Seq<Edge>, a: usize, b: usize)
    ensures
        same_scc(es, a, b) == same_scc(es, b, a),
{
}

/// Every node lies in its own component.
pub proof fn lemma_same_refl(es: Seq<Edge>, a: usize)
    ensures
        same_scc(es, a, a),
{
    lemma_reaches_self(any_step(es), a);
}

/// Lying in one component is transitive.
pub proof fn lemma_same_trans(es: Seq<Edge>, a: usize, b: usize, c: usize)
    requires
        same_scc(es, a, b),
        same_scc(es, b, c),
    ensures
        same_scc(es, a, c),
{
    lemma_reaches_trans(any_step(es), a, b, c);
    lemma_reaches_trans(any_step(es), c, b, a);
}

/// Every node has a first node of its component.
pub proof fn lemma_leader_exists(es: Seq<Edge>, x: usize) -> (l: usize)
    ensures
        l <= x,
        same_scc(es, l, x),
        is_leader(es, l),
    decreases x,
{
    if is_leader(es, x) {
        lemma_same_refl(es, x);
        x
    } else {
        let b = choose|b: usize| b < x && #[trigger] same_scc(es, x, b);
        let l = lemma_leader_exists(es, b);
        lemma_same_trans(es, l, b, x);
        l
    }
}

/// Two first nodes of the same component are one node.
pub proof fn lemma_leader_unique(es: Seq<Edge>, k: usize, l: usize)
    requires
        is_leader(es, k),
        is_leader(es, l),
        same_scc(es, k, l),
    ensures
        k == l,
{
    if k < l {
        assert(!same_scc(es, l, k));
    } else if l < k {
        assert(!same_scc(es, k, l));
    }
}

/// The views of a list of node lists.
pub open spec fn group_views(gs: Seq<Vec<usize>>) -> Seq<Seq<usize>> {
    Seq::new(gs.len(), |i: int| gs[i]@)
}

/// The components of a graph and the graph between them.
pub struct Condensation {
    /// The nodes of each component, ascending; the components are ordered by
    /// their first node.
    pub groups: Vec<Vec<usize>>,
    /// For each node the position of its component in `groups`.
    pub comp: Vec<usize>,
    /// The edges between the components, by their positions.
    pub edges: IdxGraph,
}

/// A table of `n` equal flags.
pub fn filled(n: usize, v: bool) -> (r: Vec<bool>)
    ensures
        r.len() == n,
        forall|i: int| 0 <= i < n ==> r@[i] == v,
{
    let mut r: Vec<bool> = Vec::new();
    let mut i: usize = 0;
    while i < n
        invariant
            i <= n,
            r.len() == i,
            forall|j: int| 0 <= j < i ==> r@[j] == v,
        decreases n - i,
    {
        r.push(v);
        i += 1;
    }
    r
}

/// Row `a` of `rows` marks the nodes to which a walk leads from `a`.
pub open spec fn rows_of(rows: Seq<Vec<bool>>, es: Seq<Edge>, n: nat, upto: nat) -> bool {
    &&& rows.len() == upto
    &&& forall|a: int| 0 <= a < upto ==> (#[trigger] rows[a]).len() == n
    &&& forall|a: usize, b: usize|
        a < upto && b < n ==> (rows[a as int]@[b as int] <==> #[trigger] connected(es, a, b))
}

/// What one node reaches by steps into any node is what a walk leads to
/// from it.
proof fn lemma_unit_reach(
    es: Seq<Edge>,
    seeds: Seq<bool>,
    ones: Seq<bool>,
    n: nat,
    a: usize,
    b: usize,
)
    requires
        within(es, n),
        a < n,
        seeds.len() == n,
        ones.len() == n,
        forall|i: int| 0 <= i < n ==> seeds[i] == (i == a),
        forall|i: int| 0 <= i < n ==> ones[i],
    ensures
        reached(es, seeds, ones, b) <==> connected(es, a, b),
{
    let narrow = step_into(es, ones);
    let wide = any_step(es);
    assert forall|x: usize, y: usize| #[trigger] narrow(x, y) implies wide(x, y) by {}
    assert forall|x: usize, y: usize| #[trigger] wide(x, y) implies narrow(x, y) by {
        let k = choose|k: int| 0 <= k < es.len() && (#[trigger] es[k]).from == x && es[k].to == y;
        assert(es[k].to < n);
    }
    if reached(es, seeds, ones, b) {
        let s = choose|s: usize| s < seeds.len() && seeds[s as int] && #[trigger] reaches(narrow, s, b);
        assert(s == a);
        lemma_reaches_mono(narrow, wide, a, b);
    }
    if connected(es, a, b) {
        lemma_reaches_mono(wide, narrow, a, b);
        assert(seeds[a as int]);
    }
}

/// For every node the nodes to which a walk leads from it.
fn reach_rows(edges: &Vec<Edge>, n: usize) -> (rows: Vec<Vec<bool>>)
    requires
        within(edges@, n as nat),
    ensures
        rows_of(rows@, edges@, n as nat, n as nat),
{
    let ones = filled(n, true);
    let mut rows: Vec<Vec<bool>> = Vec::new();
    let mut a: usize = 0;
    while a < n
        invariant
            a <= n,
            within(edges@, n as nat),
            ones.len() == n,
            forall|i: int| 0 <= i < n ==> ones@[i],
            rows_of(rows@, edges@, n as nat, a as nat),
        decreases n - a,
    {
        let mut seeds = filled(n, false);
        seeds.set(a, true);
        let row = reach_from(edges, &seeds, &ones);
        proof {
            assert forall|b: usize|
                b < n implies (row@[b as int] <==> #[trigger] connected(edges@, a, b)) by {
                lemma_unit_reach(edges@, seeds@, ones@, n as nat, a, b);
                assert(row@[b as int] <==> reached(edges@, seeds@, ones@, b));
            }
        }
        let ghost before = rows@;
        rows.push(row);
        proof {
            assert forall|x: usize, b: usize| x < a + 1 && b < n implies (rows@[x as int]@[b as int]
                <==> #[trigger] connected(edges@, x, b)) by {
                if x < a {
                    assert(rows@[x as int] == before[x as int]);
                }
            }
        }
        a += 1;
    }
    rows
}

/// Whether two nodes lie in one component, read from the rows.
fn in_same(rows: &Vec<Vec<bool>>, a: usize, b: usize, Ghost(es): Ghost<Seq<Edge>>) -> (r: bool)
    requires
        a < rows.len(),
        b < rows.len(),
        rows_of(rows@, es, rows.len() as nat, rows.len() as nat),
    ensures
        r == same_scc(es, a, b),
{
    rows[a][b] && rows[b][a]
}

/// The first nodes of the components, ascending.
fn find_leaders(rows: &Vec<Vec<bool>>, Ghost(es): Ghost<Seq<Edge>>) -> (ls: Vec<usize>)
    requires
        rows_of(rows@, es, rows.len() as nat, rows.len() as nat),
    ensures
        ls@ == leaders(es, rows.len() as nat),
        forall|i: int, j: int| 0 <= i < j < ls.len() ==> ls@[i] < ls@[j],
        forall|i: int|
            0 <= i < ls.len() ==> (#[trigger] ls@[i]) < rows.len() && is_leader(es, ls@[i]),
        forall|a: usize| a < rows.len() && is_leader(es, a) ==> ls@.contains(a),
{
    let n = rows.len();
    let mut ls: Vec<usize> = Vec::new();
    let mut a: usize = 0;
    proof {
        assert(nodes_below(0) =~= Seq::<usize>::empty());
        reveal(Seq::filter);
        assert(ls@ =~= nodes_below(0).filter(leader_pred(es)));
    }
    while a < n
        invariant
            a <= n,
            n == rows.len(),
            rows_of(rows@, es, n as nat, n as nat),
            ls@ == nodes_below(a as nat).filter(leader_pred(es)),
            forall|i: int, j: int| 0 <= i < j < ls.len() ==> ls@[i] < ls@[j],
            forall|i: int| 0 <= i < ls.len() ==> (#[trigger] ls@[i]) < a && is_leader(es, ls@[i]),
            forall|x: usize| x < a && is_leader(es, x) ==> ls@.contains(x),
        decreases n - a,
    {
        let mut first = true;
        let mut b: usize = 0;
        while b < a
            invariant
                b <= a,
                a < n,
                n == rows.len(),
                rows_of(rows@, es, n as nat, n as nat),
                first == (forall|c: usize| c < b ==> !#[trigger] same_scc(es, a, c)),
            decreases a - b,
        {
            if in_same(rows, a, b, Ghost(es)) {
                first = false;
            }
            b += 1;
        }
        proof {
            nodes_below(a as nat).lemma_filter_push(a, leader_pred(es));
            assert(nodes_below((a + 1) as nat) =~= nodes_below(a as nat).push(a));
            assert(leader_pred(es)(a) == is_leader(es, a));
        }
        let ghost before = ls@;
        if first {
            ls.push(a);
            proof {
                assert forall|x: usize| x < a + 1 && is_leader(es, x) implies ls@.contains(x) by {
                    if x < a {
                        let p = before.index_of(x);
                        assert(before.contains(x));
                        assert(ls@[p] == x);
                    } else {
                        assert(ls@[before.len() as int] == x);
                    }
                }
            }
        }
        a += 1;
    }
    ls
}

/// The nodes of the component of `l`, ascending; each of them gets `g` as
/// its entry of `comp`.
fn collect_members(
    rows: &Vec<Vec<bool>>,
    l: usize,
    g: usize,
    comp: &mut Vec<usize>,
    Ghost(es): Ghost<Seq<Edge>>,
) -> (ms: Vec<usize>)
    requires
        l < rows.len(),
        old(comp).len() == rows.len(),
        rows_of(rows@, es, rows.len() as nat, rows.len() as nat),
    ensures
        ms@ == members(es, rows.len() as nat, l),
        final(comp).len() == rows.len(),
        forall|x: usize|
            x < rows.len() ==> #[trigger] final(comp)@[x as int] == if same_scc(es, l, x) {
                g
            } else {
                old(comp)@[x as int]
            },
{
    let n = rows.len();
    let mut ms: Vec<usize> = Vec::new();
    let mut x: usize = 0;
    proof {
        assert(nodes_below(0) =~= Seq::<usize>::empty());
        reveal(Seq::filter);
        assert(ms@ =~= nodes_below(0).filter(member_pred(es, l)));
    }
    while x < n
        invariant
            x <= n,
            l < n,
            n == rows.len(),
            comp.len() == n,
            rows_of(rows@, es, n as nat, n as nat),
            ms@ == nodes_below(x as nat).filter(member_pred(es, l)),
            old(comp).len() == n,
            forall|y: usize|
                y < n ==> #[trigger] comp@[y as int] == if y < x && same_scc(es, l, y) {
                    g
                } else {
                    old(comp)@[y as int]
                },
        decreases n - x,
    {
        proof {
            nodes_below(x as nat).lemma_filter_push(x, member_pred(es, l));
            assert(nodes_below((x + 1) as nat) =~= nodes_below(x as nat).push(x));
            assert(member_pred(es, l)(x) == same_scc(es, l, x));
        }
        if in_same(rows, l, x, Ghost(es)) {
            ms.push(x);
            comp.set(x, g);
        }
        x += 1;
    }
    ms
}

/// The edges between the components.
fn condense_edges(edges: &Vec<Edge>, comp: &Vec<usize>, m: usize) -> (out: IdxGraph)
    requires
        forall|x: int| 0 <= x < comp.len() ==> comp@[x] < m,
    ensures
        out@ == condensed_edges(edges@, comp@),
        out.wf(),
        within(out@, m as nat),
{
    let mut out = IdxGraph::new();
    let mut j: usize = 0;
    assert(edges@.take(0) =~= Seq::<Edge>::empty());
    while j < edges.len()
        invariant
            j <= edges.len(),
            forall|x: int| 0 <= x < comp.len() ==> comp@[x] < m,
            out@ == condensed_edges(edges@.take(j as int), comp@),
            out.wf(),
            within(out@, m as nat),
        decreases edges.len() - j,
    {
        let e = edges[j];
        proof {
            let t = edges@.take(j + 1);
            assert(t.drop_last() =~= edges@.take(j as int));
            assert(t.last() == e);
        }
        if e.from < comp.len() && e.to < comp.len() {
            let a = comp[e.from];
            let b = comp[e.to];
            if a != b {
                proof {
                    lemma_with_edge(out@, a, b, e.kind);
                }
                out.add_edge(a, b, e.kind);
            }
        }
        j += 1;
    }
    assert(edges@.take(edges.len() as int) =~= edges@);
    out
}

/// Computes the components of a graph of `n` nodes and the edges between
/// them.
#[verifier::rlimit(100)]
pub fn condense(edges: &Vec<Edge>, n: usize) -> (c: Condensation)
    requires
        within(edges@, n as nat),
    ensures
        group_views(c.groups@) == groups(edges@, n as nat),
        c.comp@ == components(edges@, n as nat),
        c.edges@ == condensed_edges(edges@, c.comp@),
        c.edges.wf(),
        within(c.edges@, c.groups.len() as nat),
        forall|x: int| 0 <= x < n ==> (#[trigger] c.comp@[x]) < c.groups.len(),
{
    let ghost es = edges@;
    let rows = reach_rows(edges, n);
    let ls = find_leaders(&rows, Ghost(es));
    let mut comp: Vec<usize> = Vec::new();
    let mut i: usize = 0;
    while i < n
        invariant
            i <= n,
            comp.len() == i,
        decreases n - i,
    {
        comp.push(0);
        i += 1;
    }
    let mut gs: Vec<Vec<usize>> = Vec::new();
    let mut g: usize = 0;
    while g < ls.len()
        invariant
            g <= ls.len(),
            n == rows.len(),
            comp.len() == n,
            rows_of(rows@, es, n as nat, n as nat),
            ls@ == leaders(es, n as nat),
            forall|i: int, j: int| 0 <= i < j < ls.len() ==> ls@[i] < ls@[j],
            forall|i: int| 0 <= i < ls.len() ==> (#[trigger] ls@[i]) < n && is_leader(es, ls@[i]),
            gs.len() == g,
            forall|h: int| 0 <= h < g ==> (#[trigger] gs@[h])@ == members(es, n as nat, ls@[h]),
            forall|x: usize, h: int|
                x < n && 0 <= h < g && same_scc(es, #[trigger] ls@[h], x) ==> #[trigger] comp@[x as int]
                    == h,
        decreases ls.len() - g,
    {
        let l = ls[g];
        let ghost before = comp@;
        let ms = collect_members(&rows, l, g, &mut comp, Ghost(es));
        gs.push(ms);
        proof {
            assert forall|x: usize, h: int|
                x < n && 0 <= h < g + 1 && same_scc(es, #[trigger] ls@[h], x) implies #[trigger] comp@[x as int]
                == h by {
                if h < g {
                    if same_scc(es, l, x) {
                        lemma_same_sym(es, l, x);
                        lemma_same_trans(es, ls@[h], x, l);
                        lemma_leader_unique(es, ls@[h], l);
                    }
                    assert(before[x as int] == h);
                }
            }
        }
        g += 1;
    }
    proof {
        assert(group_views(gs@) =~= groups(es, n as nat));
        assert forall|x: int|
            0 <= x < n implies comp@[x] == #[trigger] components(es, n as nat)[x] by {
            let xu = x as usize;
            let l = lemma_leader_exists(es, xu);
            assert(ls@.contains(l));
            let h = ls@.index_of(l);
            assert(same_scc(es, ls@[h], xu));
            let c = component(es, n as nat, xu);
            assert(0 <= c < ls.len() && same_scc(es, ls@[c], xu));
            assert(comp@[x] == c);
        }
        assert(comp@ =~= components(es, n as nat));
        assert forall|x: int| 0 <= x < n implies (#[trigger] comp@[x]) < gs.len() by {
            let c = component(es, n as nat, x as usize);
            let l = lemma_leader_exists(es, x as usize);
            assert(ls@.contains(l));
            let h = ls@.index_of(l);
            assert(same_scc(es, ls@[h], x as usize));
            assert(comp@[x] == components(es, n as nat)[x]);
        }
    }
    let out = condense_edges(edges, &comp, gs.len());
    Condensation { groups: gs, comp, edges: out }
}

/// The nodes below `n` that pass a test: each of them passes it, they stand
/// in ascending order, and none that passes is missing.
pub proof fn lemma_filter_below(n: nat, pred: spec_fn(usize) -> bool)
    requires
        n <= usize::MAX + 1,
    ensures
        forall|i: int|
            0 <= i < nodes_below(n).filter(pred).len() ==> (#[trigger] nodes_below(n).filter(
                pred,
            )[i]) < n && pred(nodes_below(n).filter(pred)[i]),
        forall|i: int, j: int|
            0 <= i < j < nodes_below(n).filter(pred).len() ==> nodes_below(n).filter(pred)[i]
                < nodes_below(n).filter(pred)[j],
        forall|x: usize| x < n && pred(x) ==> #[trigger] nodes_below(n).filter(pred).contains(x),
    decreases n,
{
    let s = nodes_below(n).filter(pred);
    if n == 0 {
        assert(nodes_below(0) =~= Seq::<usize>::empty());
        reveal(Seq::filter);
        assert(s.len() == 0);
    } else {
        let m = (n - 1) as nat;
        let last = m as usize;
        let t = nodes_below(m).filter(pred);
        lemma_filter_below(m, pred);
        assert(nodes_below(n) =~= nodes_below(m).push(last));
        nodes_below(m).lemma_filter_push(last, pred);
        assert forall|x: usize| x < n && pred(x) implies #[trigger] s.contains(x) by {
            if x < m {
                assert(t.contains(x));
                let p = t.index_of(x);
                assert(s[p] == x);
            } else {
                assert(s[t.len() as int] == x);
            }
        }
    }
}

/// The component of a node: its position is in range, its first node lies
/// in one component with the node, and no other position has such a first
/// node.
pub proof fn lemma_component(es: Seq<Edge>, n: nat, x: usize)
    requires
        x < n <= usize::MAX + 1,
    ensures
        0 <= component(es, n, x) < leaders(es, n).len(),
        same_scc(es, leaders(es, n)[component(es, n, x)], x),
        forall|g: int|
            0 <= g < leaders(es, n).len() && same_scc(es, #[trigger] leaders(es, n)[g], x) ==> g
                == component(es, n, x),
{
    let ls = leaders(es, n);
    lemma_filter_below(n, leader_pred(es));
    let l = lemma_leader_exists(es, x);
    assert(leader_pred(es)(l));
    assert(ls.contains(l));
    let h = ls.index_of(l);
    assert(same_scc(es, ls[h], x));
    let c = component(es, n, x);
    assert forall|g: int| 0 <= g < ls.len() && same_scc(es, #[trigger] ls[g], x) implies g == c by {
        lemma_same_sym(es, ls[c], x);
        lemma_same_trans(es, ls[g], x, ls[c]);
        assert(leader_pred(es)(ls[g]));
        assert(leader_pred(es)(ls[c]));
        lemma_leader_unique(es, ls[g], ls[c]);
        if g < c {
            assert(ls[g] < ls[c]);
        } else if c < g {
            assert(ls[c] < ls[g]);
        }
    }
}

/// Nodes on a common cycle have the same component, and only they.
pub proof fn lemma_same_component(es: Seq<Edge>, n: nat, a: usize, b: usize)
    requires
        a < n <= usize::MAX + 1,
        b < n,
    ensures
        same_scc(es, a, b) <==> component(es, n, a) == component(es, n, b),
{
    lemma_component(es, n, a);
    lemma_component(es, n, b);
    let ls = leaders(es, n);
    let ca = component(es, n, a);
    let cb = component(es, n, b);
    if same_scc(es, a, b) {
        lemma_same_trans(es, ls[ca], a, b);
    }
    if ca == cb {
        lemma_same_sym(es, ls[ca], a);
        lemma_same_trans(es, a, ls[ca], b);
    }
}

/// A component holds exactly the nodes whose component it is, each once.
pub proof fn lemma_group_members(es: Seq<Edge>, n: nat, k: int)
    requires
        n <= usize::MAX + 1,
        0 <= k < groups(es, n).len(),
    ensures
        forall|i: int|
            0 <= i < groups(es, n)[k].len() ==> (#[trigger] groups(es, n)[k][i]) < n && component(
                es,
                n,
                groups(es, n)[k][i],
            ) == k,
        forall|i: int, j: int|
            0 <= i < j < groups(es, n)[k].len() ==> groups(es, n)[k][i] < groups(es, n)[k][j],
        forall|x: usize|
            x < n && component(es, n, x) == k ==> #[trigger] groups(es, n)[k].contains(x),
        groups(es, n)[k].contains(leaders(es, n)[k]),
{
    let ls = leaders(es, n);
    let l = ls[k];
    let ms = members(es, n, l);
    lemma_filter_below(n, leader_pred(es));
    lemma_filter_below(n, member_pred(es, l));
    assert(groups(es, n)[k] == ms);
    assert forall|i: int|
        0 <= i < ms.len() implies (#[trigger] ms[i]) < n && component(es, n, ms[i])
        == k by {
        assert(member_pred(es, l)(ms[i]));
        lemma_component(es, n, ms[i]);
    }
    assert forall|x: usize| x < n && component(es, n, x) == k implies #[trigger] ms.contains(x) by {
        lemma_component(es, n, x);
        assert(member_pred(es, l)(x));
    }
    lemma_same_refl(es, l);
    assert(member_pred(es, l)(l));
    assert(ms.contains(l));
}

/// Edge `i` of `es` joins the components `a` and `b`.
pub open spec fn crosses(es: Seq<Edge>, comp: Seq<usize>, i: int, a: usize, b: usize) -> bool {
    &&& 0 <= i < es.len()
    &&& es[i].from < comp.len()
    &&& es[i].to < comp.len()
    &&& comp[es[i].from as int] == a
    &&& comp[es[i].to as int] == b
}

/// The edges between components: two different components are joined
/// exactly when an edge joins a node of the one to a node of the other, and
/// strongly exactly when such an edge is strong. No component is joined to
/// itself, and no pair twice.
#[verifier::rlimit(100)]
pub proof fn lemma_condensed(es: Seq<Edge>, comp: Seq<usize>)
    ensures
        simple(condensed_edges(es, comp)),
        forall|a: usize, b: usize|
            #[trigger] linked(condensed_edges(es, comp), a, b) <==> (a != b && exists|i: int|
                #[trigger] crosses(es, comp, i, a, b)),
        forall|a: usize, b: usize|
            #[trigger] tag(condensed_edges(es, comp), a, b) == Some(Dependency::Strong) <==> (a != b
                && exists|i: int|
                #[trigger] crosses(es, comp, i, a, b) && es[i].kind == Dependency::Strong),
    decreases es.len(),
{
    let out = condensed_edges(es, comp);
    if es.len() == 0 {
        assert forall|a: usize, b: usize| !#[trigger] linked(out, a, b) by {}
    } else {
        let front = es.drop_last();
        let rest = condensed_edges(front, comp);
        let e = es.last();
        let last = es.len() - 1;
        lemma_condensed(front, comp);
        let joins = e.from < comp.len() && e.to < comp.len() && comp[e.from as int] != comp[e.to as int];
        if joins {
            lemma_with_edge(rest, comp[e.from as int], comp[e.to as int], e.kind);
        }
        assert forall|a: usize, b: usize|
            #[trigger] linked(out, a, b) <==> (a != b && exists|i: int|
            #[trigger] crosses(es, comp, i, a, b)) by {
            if linked(rest, a, b) {
                let i = choose|i: int| #[trigger] crosses(front, comp, i, a, b);
                assert(crosses(es, comp, i, a, b));
            }
            if joins && comp[e.from as int] == a && comp[e.to as int] == b {
                assert(crosses(es, comp, last, a, b));
            }
            if a != b && exists|i: int| #[trigger] crosses(es, comp, i, a, b) {
                let i = choose|i: int| #[trigger] crosses(es, comp, i, a, b);
                if i < last {
                    assert(crosses(front, comp, i, a, b));
                }
            }
        }
        assert forall|a: usize, b: usize|
            #[trigger] tag(out, a, b) == Some(Dependency::Strong) <==> (a
            != b && exists|i: int|
            #[trigger] crosses(es, comp, i, a, b) && es[i].kind == Dependency::Strong) by {
            let here = joins && comp[e.from as int] == a && comp[e.to as int] == b;
            if tag(rest, a, b) == Some(Dependency::Strong) {
                let i = choose|i: int|
                    #[trigger] crosses(front, comp, i, a, b) && front[i].kind == Dependency::Strong;
                assert(crosses(es, comp, i, a, b) && es[i].kind == Dependency::Strong);
            }
            if here && e.kind == Dependency::Strong {
                assert(crosses(es, comp, last, a, b) && es[last].kind == Dependency::Strong);
            }
            if a != b && exists|i: int|
                #[trigger] crosses(es, comp, i, a, b) && es[i].kind == Dependency::Strong {
                let i = choose|i: int|
                    #[trigger] crosses(es, comp, i, a, b) && es[i].kind == Dependency::Strong;
                if i < last {
                    assert(crosses(front, comp, i, a, b) && front[i].kind == Dependency::Strong);
                }
            }
        }
    }
}

} // verus!
