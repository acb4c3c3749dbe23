//! Which units of a module are kept when it is split, and which of them
//! share a part.

use crate::condense::{
    components, condense, condensed_edges, filled, group_views, groups, lemma_filter_below,
    lemma_group_members, nodes_below,
};
use crate::graph::{within, Dependency, Edge};
use crate::item::ItemId;
use crate::reach::{reach_from, reached};
use vstd::prelude::*;

verus! {

/// A component is a root if it holds a synthetic unit: the evaluation of the
/// module, or an exported name.
pub open spec fn is_root(ids: Seq<ItemId>, group: Seq<usize>) -> bool {
    exists|i: int| 0 <= i < group.len() && ids[#[trigger] group[i] as int].is_group()
}

/// For each component whether it is a root.
pub open spec fn roots_of(ids: Seq<ItemId>, gs: Seq<Seq<usize>>) -> Seq<bool> {
    Seq::new(gs.len(), |k: int| is_root(ids, gs[k]))
}

/// `m` marks, all set.
pub open spec fn ones(m: nat) -> Seq<bool> {
    Seq::new(m, |k: int| true)
}

/// `m` marks, of which only that of `h` is set.
pub open spec fn unit(m: nat, h: usize) -> Seq<bool> {
    Seq::new(m, |k: int| k == h)
}

/// For each component whether it is live: a root, or reached from a root
/// along edges of any strength.
pub open spec fn live_of(c: Seq<Edge>, roots: Seq<bool>) -> Seq<bool> {
    Seq::new(roots.len(), |k: int| reached(c, roots, ones(roots.len()), k as usize))
}

/// Edge `a` is an edge of strength `kind` from a live component to `v`.
pub open spec fn into(c: Seq<Edge>, live: Seq<bool>, a: int, v: usize, kind: Dependency) -> bool {
    &&& 0 <= a < c.len()
    &&& c[a].to == v
    &&& c[a].kind == kind
    &&& c[a].from < live.len()
    &&& live[c[a].from as int]
}

/// A live component depends weakly on `v`.
pub open spec fn weak_into(c: Seq<Edge>, live: Seq<bool>, v: usize) -> bool {
    exists|a: int| #[trigger] into(c, live, a, v, Dependency::Weak)
}

/// Two live components depend strongly on `v`.
pub open spec fn many_into(c: Seq<Edge>, live: Seq<bool>, v: usize) -> bool {
    exists|a: int, b: int|
        a < b && #[trigger] into(c, live, a, v, Dependency::Strong) && #[trigger] into(
            c,
            live,
            b,
            v,
            Dependency::Strong,
        )
}

/// A component starts a part of its own if it is live and is a root, or is
/// depended on weakly, or has more than one strong consumer.
pub open spec fn head_of(c: Seq<Edge>, roots: Seq<bool>, live: Seq<bool>, k: usize) -> bool {
    &&& k < roots.len()
    &&& k < live.len()
    &&& live[k as int]
    &&& (roots[k as int] || weak_into(c, live, k) || many_into(c, live, k))
}

/// The test that picks the components that start a part.
pub open spec fn head_pred(c: Seq<Edge>, roots: Seq<bool>) -> spec_fn(usize) -> bool {
    |k: usize| head_of(c, roots, live_of(c, roots), k)
}

/// The components that start a part, ascending: part `p` is the part of
/// the component at position `p`.
pub open spec fn heads_of(c: Seq<Edge>, roots: Seq<bool>) -> Seq<usize> {
    nodes_below(roots.len()).filter(head_pred(c, roots))
}

/// For each component whether it is live and shares the part of its one
/// consumer.
pub open spec fn inner_of(c: Seq<Edge>, roots: Seq<bool>) -> Seq<bool> {
    Seq::new(
        roots.len(),
        |k: int| live_of(c, roots)[k] && !head_of(c, roots, live_of(c, roots), k as usize),
    )
}

/// The component `h` reaches `k` through components that start no part.
pub open spec fn serves(c: Seq<Edge>, inner: Seq<bool>, h: usize, k: usize) -> bool {
    reached(c, unit(inner.len(), h), inner, k)
}

/// The first of the first `upto` heads that serves `k`.
pub open spec fn first_server(
    c: Seq<Edge>,
    hs: Seq<usize>,
    inner: Seq<bool>,
    k: usize,
    upto: int,
) -> Option<
    usize,
>
    decreases upto,
{
    if upto <= 0 {
        None
    } else {
        match first_server(c, hs, inner, k, upto - 1) {
            Some(q) => Some(q),
            None => if serves(c, inner, hs[upto - 1], k) {
                Some((upto - 1) as usize)
            } else {
                None
            },
        }
    }
}

/// What `first_server` finds.
pub proof fn lemma_first_server(c: Seq<Edge>, hs: Seq<usize>, inner: Seq<bool>, k: usize, upto: int)
    requires
        0 <= upto <= hs.len() <= usize::MAX,
    ensures
        match first_server(c, hs, inner, k, upto) {
            Some(q) => q < upto && serves(c, inner, hs[q as int], k) && forall|r: int|
                0 <= r < q ==> !serves(c, inner, #[trigger] hs[r], k),
            None => forall|r: int| 0 <= r < upto ==> !serves(c, inner, #[trigger] hs[r], k),
        },
    decreases upto,
{
    if upto > 0 {
        lemma_first_server(c, hs, inner, k, upto - 1);
    }
}

/// The part of a component: the position of the first head that serves it,
/// and `None` for a component that is not live.
pub open spec fn owner(c: Seq<Edge>, roots: Seq<bool>, k: usize) -> Option<usize> {
    first_server(c, heads_of(c, roots), inner_of(c, roots), k, heads_of(c, roots).len() as int)
}

/// The edges between the components of a graph.
pub open spec fn cond_edges(es: Seq<Edge>, n: nat) -> Seq<Edge> {
    condensed_edges(es, components(es, n))
}

/// For each component of a graph whether it is a root.
pub open spec fn cond_roots(es: Seq<Edge>, ids: Seq<ItemId>) -> Seq<bool> {
    roots_of(ids, groups(es, ids.len()))
}

/// The number of parts into which a graph is split.
pub open spec fn part_count(es: Seq<Edge>, ids: Seq<ItemId>) -> nat {
    heads_of(cond_edges(es, ids.len()), cond_roots(es, ids)).len()
}

/// The part of the unit at node `x`, and `None` for a unit that is left out.
pub open spec fn part_of(es: Seq<Edge>, ids: Seq<ItemId>, x: usize) -> Option<usize> {
    owner(cond_edges(es, ids.len()), cond_roots(es, ids), components(es, ids.len())[x as int])
}

/// For each node its part.
pub open spec fn parts_of(es: Seq<Edge>, ids: Seq<ItemId>) -> Seq<Option<usize>> {
    Seq::new(ids.len(), |x: int| part_of(es, ids, x as usize))
}

/// Which units are kept, and where.
pub struct Layout {
    /// The number of parts.
    pub count: usize,
    /// For each node its part, and `None` if the unit is left out.
    pub part_of: Vec<Option<usize>>,
}

/// For each component whether it is a root.
fn find_roots(gs: &Vec<Vec<usize>>, ids: &Vec<ItemId>) -> (roots: Vec<bool>)
    requires
        forall|k: int, i: int|
            0 <= k < gs.len() && 0 <= i < gs@[k].len() ==> (#[trigger] gs@[k]@[i]) < ids.len(),
    ensures
        roots@ == roots_of(ids@, group_views(gs@)),
{
    let mut roots: Vec<bool> = Vec::new();
    let mut k: usize = 0;
    while k < gs.len()
        invariant
            k <= gs.len(),
            forall|k: int, i: int|
                0 <= k < gs.len() && 0 <= i < gs@[k].len() ==> (#[trigger] gs@[k]@[i]) < ids.len(),
            roots.len() == k,
            forall|h: int| 0 <= h < k ==> #[trigger] roots@[h] == is_root(ids@, gs@[h]@),
        decreases gs.len() - k,
    {
        let group = &gs[k];
        let mut found = false;
        let mut i: usize = 0;
        while i < group.len()
            invariant
                i <= group.len(),
                forall|j: int| 0 <= j < group.len() ==> (#[trigger] group@[j]) < ids.len(),
                found == exists|j: int| 0 <= j < i && ids@[#[trigger] group@[j] as int].is_group(),
            decreases group.len() - i,
        {
            if ids[group[i]].group() {
                found = true;
            }
            i += 1;
        }
        roots.push(found);
        k += 1;
    }
    assert(roots@ =~= roots_of(ids@, group_views(gs@)));
    roots
}

/// For each component whether it starts a part.
#[verifier::rlimit(100)]
fn find_heads(c: &Vec<Edge>, roots: &Vec<bool>, live: &Vec<bool>) -> (heads: Vec<bool>)
    requires
        roots.len() == live.len(),
        within(c@, live.len() as nat),
    ensures
        heads.len() == live.len(),
        forall|k: usize|
            k < live.len() ==> #[trigger] heads@[k as int] == head_of(c@, roots@, live@, k),
{
    let m = live.len();
    let ghost cs = c@;
    let ghost lv = live@;
    let mut weak = filled(m, false);
    let mut one = filled(m, false);
    let mut many = filled(m, false);
    let mut j: usize = 0;
    while j < c.len()
        invariant
            j <= c.len(),
            cs == c@,
            lv == live@,
            m == live.len(),
            within(cs, m as nat),
            weak.len() == m,
            one.len() == m,
            many.len() == m,
            forall|v: usize|
                v < m ==> (#[trigger] weak@[v as int] <==> exists|a: int|
                    a < j && #[trigger] into(cs, lv, a, v, Dependency::Weak)),
            forall|v: usize|
                v < m ==> (#[trigger] one@[v as int] <==> exists|a: int|
                    a < j && #[trigger] into(cs, lv, a, v, Dependency::Strong)),
            forall|v: usize|
                v < m ==> (#[trigger] many@[v as int] <==> exists|a: int, b: int|
                    a < b < j && #[trigger] into(cs, lv, a, v, Dependency::Strong) && #[trigger] into(
                        cs,
                        lv,
                        b,
                        v,
                        Dependency::Strong,
                    )),
        decreases c.len() - j,
    {
        let e = c[j];
        let ghost weak0 = weak@;
        let ghost one0 = one@;
        let ghost many0 = many@;
        if live[e.from] {
            match e.kind {
                Dependency::Weak => {
                    weak.set(e.to, true);
                },
                Dependency::Strong => {
                    if one[e.to] {
                        many.set(e.to, true);
                    } else {
                        one.set(e.to, true);
                    }
                },
            }
        }
        proof {
            let jj = j as int;
            assert forall|v: usize| v < m implies (#[trigger] weak@[v as int] <==> exists|a: int|
                a < j + 1 && #[trigger] into(cs, lv, a, v, Dependency::Weak)) by {
                if weak0[v as int] {
                    let a = choose|a: int| a < j && #[trigger] into(cs, lv, a, v, Dependency::Weak);
                    assert(into(cs, lv, a, v, Dependency::Weak));
                }
                if into(cs, lv, jj, v, Dependency::Weak) {
                    assert(weak@[v as int]);
                }
                if exists|a: int| a < j + 1 && #[trigger] into(cs, lv, a, v, Dependency::Weak) {
                    let a = choose|a: int|
                        a < j + 1 && #[trigger] into(cs, lv, a, v, Dependency::Weak);
                    if a < j {
                        assert(weak0[v as int]);
                    }
                }
            }
            assert forall|v: usize| v < m implies (#[trigger] one@[v as int] <==> exists|a: int|
                a < j + 1 && #[trigger] into(cs, lv, a, v, Dependency::Strong)) by {
                if one0[v as int] {
                    let a = choose|a: int|
                        a < j && #[trigger] into(cs, lv, a, v, Dependency::Strong);
                    assert(into(cs, lv, a, v, Dependency::Strong));
                }
                if into(cs, lv, jj, v, Dependency::Strong) {
                    assert(one@[v as int]);
                }
                if exists|a: int| a < j + 1 && #[trigger] into(cs, lv, a, v, Dependency::Strong) {
                    let a = choose|a: int|
                        a < j + 1 && #[trigger] into(cs, lv, a, v, Dependency::Strong);
                    if a < j {
                        assert(one0[v as int]);
                    }
                }
            }
            assert forall|v: usize| v < m implies (#[trigger] many@[v as int] <==> exists|
                a: int,
                b: int,
            |
                a < b < j + 1 && #[trigger] into(cs, lv, a, v, Dependency::Strong) && #[trigger] into(
                    cs,
                    lv,
                    b,
                    v,
                    Dependency::Strong,
                )) by {
                if many0[v as int] {
                    let (a, b) = choose|a: int, b: int|
                        a < b < j && #[trigger] into(cs, lv, a, v, Dependency::Strong)
                            && #[trigger] into(cs, lv, b, v, Dependency::Strong);
                    assert(into(cs, lv, a, v, Dependency::Strong) && into(
                        cs,
                        lv,
                        b,
                        v,
                        Dependency::Strong,
                    ));
                }
                if one0[v as int] && into(cs, lv, jj, v, Dependency::Strong) {
                    let a = choose|a: int|
                        a < j && #[trigger] into(cs, lv, a, v, Dependency::Strong);
                    assert(into(cs, lv, a, v, Dependency::Strong) && into(
                        cs,
                        lv,
                        jj,
                        v,
                        Dependency::Strong,
                    ));
                    assert(many@[v as int]);
                }
                if exists|a: int, b: int|
                    a < b < j + 1 && #[trigger] into(cs, lv, a, v, Dependency::Strong)
                        && #[trigger] into(cs, lv, b, v, Dependency::Strong) {
                    let (a, b) = choose|a: int, b: int|
                        a < b < j + 1 && #[trigger] into(cs, lv, a, v, Dependency::Strong)
                            && #[trigger] into(cs, lv, b, v, Dependency::Strong);
                    if b < j {
                        assert(many0[v as int]);
                    } else {
                        assert(into(cs, lv, a, v, Dependency::Strong));
                        assert(one0[v as int]);
                    }
                }
            }
        }
        j += 1;
    }
    let mut heads: Vec<bool> = Vec::new();
    let mut k: usize = 0;
    while k < m
        invariant
            k <= m,
            cs == c@,
            lv == live@,
            m == live.len(),
            m == roots.len(),
            weak.len() == m,
            one.len() == m,
            many.len() == m,
            forall|v: usize| v < m ==> (#[trigger] weak@[v as int] <==> weak_into(cs, lv, v)),
            forall|v: usize| v < m ==> (#[trigger] many@[v as int] <==> many_into(cs, lv, v)),
            heads.len() == k,
            forall|v: usize| v < k ==> #[trigger] heads@[v as int] == head_of(cs, roots@, lv, v),
        decreases m - k,
    {
        heads.push(live[k] && (roots[k] || weak[k] || many[k]));
        k += 1;
    }
    heads
}

/// The parts of the components: each live component belongs to the first
/// head that serves it.
fn find_owners(c: &Vec<Edge>, hs: &Vec<usize>, inner: &Vec<bool>) -> (own: Vec<Option<usize>>)
    requires
        forall|p: int| 0 <= p < hs.len() ==> (#[trigger] hs@[p]) < inner.len(),
    ensures
        own.len() == inner.len(),
        forall|k: usize|
            k < inner.len() ==> #[trigger] own@[k as int] == first_server(
                c@,
                hs@,
                inner@,
                k,
                hs.len() as int,
            ),
{
    let m = inner.len();
    let mut own: Vec<Option<usize>> = Vec::new();
    let mut i: usize = 0;
    while i < m
        invariant
            i <= m,
            own.len() == i,
            forall|k: int| 0 <= k < i ==> own@[k] == None::<usize>,
        decreases m - i,
    {
        own.push(None);
        i += 1;
    }
    let mut p: usize = 0;
    while p < hs.len()
        invariant
            p <= hs.len(),
            m == inner.len(),
            own.len() == m,
            forall|p: int| 0 <= p < hs.len() ==> (#[trigger] hs@[p]) < inner.len(),
            forall|k: usize|
                k < m ==> #[trigger] own@[k as int] == first_server(c@, hs@, inner@, k, p as int),
        decreases hs.len() - p,
    {
        let mut seed = filled(m, false);
        seed.set(hs[p], true);
        assert(seed@ =~= unit(m as nat, hs@[p as int]));
        let r = reach_from(c, &seed, inner);
        let mut k: usize = 0;
        while k < m
            invariant
                k <= m,
                p < hs.len(),
                m == inner.len(),
                own.len() == m,
                r.len() == m,
                forall|v: usize|
                    v < m ==> (r@[v as int] <==> #[trigger] serves(c@, inner@, hs@[p as int], v)),
                forall|v: usize|
                    v < k ==> #[trigger] own@[v as int] == first_server(
                        c@,
                        hs@,
                        inner@,
                        v,
                        p as int + 1,
                    ),
                forall|v: usize|
                    k <= v < m ==> #[trigger] own@[v as int] == first_server(
                        c@,
                        hs@,
                        inner@,
                        v,
                        p as int,
                    ),
            decreases m - k,
        {
            assert(r@[k as int] <==> serves(c@, inner@, hs@[p as int], k));
            if r[k] && own[k].is_none() {
                own.set(k, Some(p));
            }
            k += 1;
        }
        p += 1;
    }
    own
}

/// Decides which units of a graph are kept and which share a part.
///
/// The components of the graph are taken as a whole. A component is kept if
/// it holds a synthetic unit or is reached from such a component. A kept
/// component starts a part of its own if it holds a synthetic unit, if a kept
/// component depends on it weakly, or if two kept components depend on it
/// strongly; any other kept component shares the part of its one consumer.
/// The parts are numbered in the order of the components that start them.
#[verifier::rlimit(100)]
pub fn layout(edges: &Vec<Edge>, ids: &Vec<ItemId>) -> (l: Layout)
    requires
        within(edges@, ids.len() as nat),
    ensures
        l.count == part_count(edges@, ids@),
        l.part_of@ == parts_of(edges@, ids@),
{
    let n = ids.len();
    let cond = condense(edges, n);
    let ghost es = edges@;
    let ghost c = cond_edges(es, n as nat);
    let ghost gs = groups(es, n as nat);
    let ghost rs = cond_roots(es, ids@);
    let m = cond.groups.len();
    proof {
        assert forall|k: int, i: int|
            0 <= k < cond.groups.len() && 0 <= i < cond.groups@[k].len() implies (
        #[trigger] cond.groups@[k]@[i]) < ids.len() by {
            lemma_group_members(es, n as nat, k);
            assert(gs[k] == cond.groups@[k]@);
        }
    }
    let roots = find_roots(&cond.groups, ids);
    let all = filled(m, true);
    assert(all@ =~= ones(m as nat));
    let live = reach_from(cond.edges.all_edges(), &roots, &all);
    assert(live@ =~= live_of(c, rs));
    let heads = find_heads(cond.edges.all_edges(), &roots, &live);
    let mut hs: Vec<usize> = Vec::new();
    let mut inner: Vec<bool> = Vec::new();
    let mut k: usize = 0;
    proof {
        assert(nodes_below(0) =~= Seq::<usize>::empty());
        reveal(Seq::filter);
        assert(hs@ =~= nodes_below(0).filter(head_pred(c, rs)));
    }
    while k < m
        invariant
            k <= m,
            m == roots.len(),
            m == live.len(),
            m == heads.len(),
            roots@ == rs,
            live@ == live_of(c, rs),
            forall|v: usize| v < m ==> #[trigger] heads@[v as int] == head_of(c, rs, live@, v),
            hs@ == nodes_below(k as nat).filter(head_pred(c, rs)),
            inner.len() == k,
            forall|v: int| 0 <= v < k ==> #[trigger] inner@[v] == inner_of(c, rs)[v],
        decreases m - k,
    {
        proof {
            nodes_below(k as nat).lemma_filter_push(k, head_pred(c, rs));
            assert(nodes_below((k + 1) as nat) =~= nodes_below(k as nat).push(k));
            assert(head_pred(c, rs)(k) == heads@[k as int]);
        }
        if heads[k] {
            hs.push(k);
        }
        inner.push(live[k] && !heads[k]);
        k += 1;
    }
    proof {
        assert(inner@ =~= inner_of(c, rs));
        lemma_filter_below(m as nat, head_pred(c, rs));
    }
    let own = find_owners(cond.edges.all_edges(), &hs, &inner);
    let mut placed: Vec<Option<usize>> = Vec::new();
    let mut x: usize = 0;
    while x < n
        invariant
            x <= n,
            n == ids.len(),
            n == cond.comp.len(),
            cond.comp@ == components(es, n as nat),
            forall|x: int| 0 <= x < n ==> (#[trigger] cond.comp@[x]) < m,
            own.len() == m,
            es == edges@,
            c == cond_edges(es, n as nat),
            rs == cond_roots(es, ids@),
            forall|k: usize| k < m ==> #[trigger] own@[k as int] == owner(c, rs, k),
            placed.len() == x,
            forall|y: int| 0 <= y < x ==> #[trigger] placed@[y] == part_of(es, ids@, y as usize),
        decreases n - x,
    {
        placed.push(own[cond.comp[x]]);
        x += 1;
    }
    assert(placed@ =~= parts_of(es, ids@));
    Layout { count: hs.len(), part_of: placed }
}

} // verus!
