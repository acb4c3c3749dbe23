//! Walks through a graph, and the computation of what a set of nodes reaches.

use crate::graph::{linked, tag, Dependency, Edge};
use vstd::prelude::*;

verus! {

/// A relation that says from which node a walk may step to which.
pub type Step = spec_fn(usize, usize) -> bool;

/// A step along any edge.
pub open spec fn any_step(es: Seq<Edge>) -> Step {
    |a: usize, b: usize| linked(es, a, b)
}

/// A step along a strong edge.
pub open spec fn strong_step(es: Seq<Edge>) -> Step {
    |a: usize, b: usize| tag(es, a, b) == Some(Dependency::Strong)
}

/// A step along any edge that ends in a node marked in `allowed`.
pub open spec fn step_into(es: Seq<Edge>, allowed: Seq<bool>) -> Step {
    |a: usize, b: usize| linked(es, a, b) && b < allowed.len() && allowed[b as int]
}

/// `p` is a walk: it has a first node, and each further node is one step
/// from the node before it.
pub open spec fn is_walk(step: Step, p: Seq<usize>) -> bool {
    p.len() >= 1 && forall|i: int| 0 <= i < p.len() - 1 ==> step(#[trigger] p[i], p[i + 1])
}

/// A walk leads from `a` to `b`; a walk of no step leads from a node to
/// itself.
pub open spec fn reaches(step: Step, a: usize, b: usize) -> bool {
    exists|p: Seq<usize>| #[trigger] is_walk(step, p) && p[0] == a && p.last() == b
}

/// Every node reaches itself.
pub proof fn lemma_reaches_self(step: Step, a: usize)
    ensures
        reaches(step, a, a),
{
    let p = seq![a];
    assert(is_walk(step, p));
    assert(p[0] == a && p.last() == a);
}

/// A walk can be prolonged by one step.
pub proof fn lemma_reaches_step(step: Step, a: usize, b: usize, c: usize)
    requires
        reaches(step, a, b),
        step(b, c),
    ensures
        reaches(step, a, c),
{
    let p = choose|p: Seq<usize>| #[trigger] is_walk(step, p) && p[0] == a && p.last() == b;
    let q = p.push(c);
    assert forall|i: int| 0 <= i < q.len() - 1 implies step(#[trigger] q[i], q[i + 1]) by {
        if i < p.len() - 1 {
            assert(step(p[i], p[i + 1]));
        }
    }
    assert(is_walk(step, q));
    assert(q[0] == a && q.last() == c);
}

/// One step is a walk.
pub proof fn lemma_step_reaches(step: Step, a: usize, b: usize)
    requires
        step(a, b),
    ensures
        reaches(step, a, b),
{
    lemma_reaches_self(step, a);
    lemma_reaches_step(step, a, a, b);
}

/// Two walks that meet make one walk.
pub proof fn lemma_reaches_trans(step: Step, a: usize, b: usize, c: usize)
    requires
        reaches(step, a, b),
        reaches(step, b, c),
    ensures
        reaches(step, a, c),
{
    let p = choose|p: Seq<usize>| #[trigger] is_walk(step, p) && p[0] == a && p.last() == b;
    let q = choose|q: Seq<usize>| #[trigger] is_walk(step, q) && q[0] == b && q.last() == c;
    let r = p + q.drop_first();
    assert forall|i: int| 0 <= i < r.len() - 1 implies step(#[trigger] r[i], r[i + 1]) by {
        if i < p.len() - 1 {
            assert(step(p[i], p[i + 1]));
        } else {
            let j = i - (p.len() - 1);
            assert(step(q[j], q[j + 1]));
            assert(r[i + 1] == q[j + 1]);
            if j == 0 {
                assert(r[i] == p.last());
            } else {
                assert(r[i] == q[j]);
            }
        }
    }
    assert(is_walk(step, r));
    assert(r[0] == a && r.last() == c);
}

/// A walk stays a walk under a relation that allows more steps.
pub proof fn lemma_reaches_mono(small: Step, large: Step, a: usize, b: usize)
    requires
        reaches(small, a, b),
        forall|x: usize, y: usize| #[trigger] small(x, y) ==> large(x, y),
    ensures
        reaches(large, a, b),
{
    let p = choose|p: Seq<usize>| #[trigger] is_walk(small, p) && p[0] == a && p.last() == b;
    assert forall|i: int| 0 <= i < p.len() - 1 implies large(#[trigger] p[i], p[i + 1]) by {
        assert(small(p[i], p[i + 1]));
    }
    assert(is_walk(large, p));
}

/// A walk that begins in a set that no step leaves stays in the set.
proof fn lemma_closed_walk(step: Step, inside: spec_fn(usize) -> bool, p: Seq<usize>, i: int)
    requires
        is_walk(step, p),
        inside(p[0]),
        forall|x: usize, y: usize| inside(x) && #[trigger] step(x, y) ==> inside(y),
        0 <= i < p.len(),
    ensures
        inside(p[i]),
    decreases i,
{
    if i > 0 {
        lemma_closed_walk(step, inside, p, i - 1);
        assert(step(p[i - 1], p[i - 1 + 1]));
    }
}

/// A set that no step leaves holds whatever its members reach.
pub proof fn lemma_closed(step: Step, inside: spec_fn(usize) -> bool, a: usize, b: usize)
    requires
        inside(a),
        forall|x: usize, y: usize| inside(x) && #[trigger] step(x, y) ==> inside(y),
        reaches(step, a, b),
    ensures
        inside(b),
{
    let p = choose|p: Seq<usize>| #[trigger] is_walk(step, p) && p[0] == a && p.last() == b;
    lemma_closed_walk(step, inside, p, p.len() - 1);
}

/// A walk to another node ends with a step from a node that is not its end.
pub proof fn lemma_last_step(step: Step, a: usize, b: usize) -> (c: usize)
    requires
        reaches(step, a, b),
        a != b,
    ensures
        c != b,
        reaches(step, a, c),
        step(c, b),
{
    let p = choose|p: Seq<usize>| #[trigger] is_walk(step, p) && p[0] == a && p.last() == b;
    let j = first_hit(p, b, 0);
    let q = p.take(j);
    assert forall|i: int| 0 <= i < q.len() - 1 implies step(#[trigger] q[i], q[i + 1]) by {
        assert(step(p[i], p[i + 1]));
    }
    assert(is_walk(step, q));
    assert(q[0] == a && q.last() == p[j - 1]);
    assert(step(p[j - 1], p[j - 1 + 1]));
    p[j - 1]
}

/// The first position from `from` on at which `p` holds `b`.
proof fn first_hit(p: Seq<usize>, b: usize, from: int) -> (j: int)
    requires
        0 <= from < p.len(),
        p.last() == b,
        forall|i: int| 0 <= i < from ==> p[i] != b,
    ensures
        from <= j < p.len(),
        p[j] == b,
        forall|i: int| 0 <= i < j ==> p[i] != b,
    decreases p.len() - from,
{
    if p[from] == b {
        from
    } else {
        first_hit(p, b, from + 1)
    }
}

/// The number of entries of `s` that are not set.
pub open spec fn count_unset(s: Seq<bool>) -> nat
    decreases s.len(),
{
    if s.len() == 0 {
        0
    } else {
        count_unset(s.drop_last()) + if s.last() {
            0nat
        } else {
            1nat
        }
    }
}

/// Setting an entry that was not set leaves one unset entry fewer.
pub proof fn lemma_count_set(s: Seq<bool>, i: int)
    requires
        0 <= i < s.len(),
        !s[i],
    ensures
        count_unset(s.update(i, true)) + 1 == count_unset(s),
    decreases s.len(),
{
    let t = s.update(i, true);
    if i == s.len() - 1 {
        assert(t.drop_last() =~= s.drop_last());
    } else {
        lemma_count_set(s.drop_last(), i);
        assert(t.drop_last() =~= s.drop_last().update(i, true));
    }
}

/// Some node marked in `seeds` reaches `v` by steps into nodes marked in
/// `allowed`.
pub open spec fn reached(es: Seq<Edge>, seeds: Seq<bool>, allowed: Seq<bool>, v: usize) -> bool {
    exists|s: usize|
        s < seeds.len() && seeds[s as int] && #[trigger] reaches(step_into(es, allowed), s, v)
}

/// Edge `j` does not lead out of the marked nodes.
pub open spec fn edge_closed(es: Seq<Edge>, marks: Seq<bool>, allowed: Seq<bool>, j: int) -> bool {
    let e = es[j];
    (e.from < marks.len() && e.to < marks.len() && marks[e.from as int] && allowed[e.to as int])
        ==> marks[e.to as int]
}

/// Marks every node that a seed reaches by steps into allowed nodes; the seeds
/// themselves are marked whether allowed or not.
#[verifier::rlimit(100)]
pub fn reach_from(edges: &Vec<Edge>, seeds: &Vec<bool>, allowed: &Vec<bool>) -> (r: Vec<bool>)
    requires
        seeds.len() == allowed.len(),
    ensures
        r.len() == seeds.len(),
        forall|v: usize|
            v < r.len() ==> (r@[v as int] <==> #[trigger] reached(edges@, seeds@, allowed@, v)),
        forall|v: usize| v >= r.len() ==> !#[trigger] reached(edges@, seeds@, allowed@, v),
{
    let n = seeds.len();
    let ghost step = step_into(edges@, allowed@);
    let mut r: Vec<bool> = Vec::new();
    let mut i: usize = 0;
    while i < n
        invariant
            i <= n,
            n == seeds.len(),
            r.len() == i,
            forall|v: int| 0 <= v < i ==> r@[v] == seeds@[v],
        decreases n - i,
    {
        r.push(seeds[i]);
        i += 1;
    }
    proof {
        assert forall|v: usize|
            v < n && r@[v as int] implies #[trigger] reached(edges@, seeds@, allowed@, v) by {
            lemma_reaches_self(step, v);
        }
    }
    let mut done = false;
    while !done
        invariant
            n == seeds.len(),
            n == allowed.len(),
            r.len() == n,
            step == step_into(edges@, allowed@),
            forall|v: int| 0 <= v < n && seeds@[v] ==> r@[v],
            forall|v: usize|
                v < n && r@[v as int] ==> #[trigger] reached(edges@, seeds@, allowed@, v),
            done ==> forall|j: int|
                0 <= j < edges@.len() ==> #[trigger] edge_closed(edges@, r@, allowed@, j),
        decreases
            count_unset(r@) + if done {
                0nat
            } else {
                1nat
            },
    {
        let ghost r0 = r@;
        let mut changed = false;
        let mut j: usize = 0;
        while j < edges.len()
            invariant
                j <= edges.len(),
                n == seeds.len(),
                n == allowed.len(),
                r.len() == n,
                step == step_into(edges@, allowed@),
                forall|v: int| 0 <= v < n && seeds@[v] ==> r@[v],
                forall|v: usize|
                    v < n && r@[v as int] ==> #[trigger] reached(edges@, seeds@, allowed@, v),
                !changed ==> r@ == r0,
                !changed ==> forall|k: int|
                    0 <= k < j ==> #[trigger] edge_closed(edges@, r@, allowed@, k),
                changed ==> count_unset(r@) < count_unset(r0),
            decreases edges.len() - j,
        {
            let e = edges[j];
            if e.from < n && e.to < n {
                if r[e.from] && allowed[e.to] && !r[e.to] {
                    proof {
                        lemma_count_set(r@, e.to as int);
                        assert(reached(edges@, seeds@, allowed@, e.from));
                        let s = choose|s: usize|
                            s < seeds@.len() && seeds@[s as int] && #[trigger] reaches(step, s, e.from);
                        assert(linked(edges@, e.from, e.to));
                        assert(step(e.from, e.to));
                        lemma_reaches_step(step, s, e.from, e.to);
                        assert(reached(edges@, seeds@, allowed@, e.to));
                    }
                    let ghost before = r@;
                    r.set(e.to, true);
                    changed = true;
                    proof {
                        assert forall|v: usize|
                            v < n && r@[v as int]
                                implies #[trigger] reached(edges@, seeds@, allowed@, v) by {
                            if v != e.to {
                                assert(before[v as int]);
                            }
                        }
                    }
                }
            }
            j += 1;
        }
        if !changed {
            done = true;
        }
    }
    proof {
        let inside = |x: usize| x < n && r@[x as int];
        assert forall|x: usize, y: usize| inside(x) && #[trigger] step(x, y) implies inside(y) by {
            let k = choose|k: int| 0 <= k < edges@.len() && (#[trigger] edges@[k]).from == x && edges@[k].to == y;
            assert(edge_closed(edges@, r@, allowed@, k));
        }
        assert forall|v: usize|
            #[trigger] reached(edges@, seeds@, allowed@, v) implies v < n && r@[v as int] by {
            let s = choose|s: usize|
                s < seeds@.len() && seeds@[s as int] && #[trigger] reaches(step, s, v);
            lemma_closed(step, inside, s, v);
        }
    }
    r
}

} // verus!
