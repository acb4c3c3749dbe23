//! Adding the edges that a rule asks for: from one node to a set of nodes,
//! and between all pairs of nodes that a relation holds of.

use crate::dep_graph::DepGraph;
use crate::graph::{join, lemma_with_edge, simple, tag, with_edge, within, Dependency, Edge};
use crate::reach::Step;
use vstd::prelude::*;

verus! {

/// `es` after `from` was made to depend on every node that `mask` marks, in
/// ascending order; a node does not depend on itself.
pub open spec fn with_targets(es: Seq<Edge>, from: usize, mask: Seq<bool>, kind: Dependency) -> Seq<
    Edge,
>
    decreases mask.len(),
{
    if mask.len() == 0 {
        es
    } else {
        let rest = with_targets(es, from, mask.drop_last(), kind);
        let b = (mask.len() - 1) as usize;
        if mask.last() && b != from {
            with_edge(rest, from, b, kind)
        } else {
            rest
        }
    }
}

/// The nodes below `n` to which `rule` relates `a`, as marks.
pub open spec fn rule_row(rule: Step, a: usize, n: nat) -> Seq<bool> {
    Seq::new(n, |b: int| rule(a, b as usize))
}

/// `es` after each node below `upto`, in ascending order, was made to depend
/// on every other node below `n` to which `rule` relates it.
pub open spec fn apply_rule(es: Seq<Edge>, n: nat, upto: nat, rule: Step, kind: Dependency) -> Seq<
    Edge,
>
    decreases upto,
{
    if upto == 0 {
        es
    } else {
        let a = (upto - 1) as usize;
        with_targets(
            apply_rule(es, n, (upto - 1) as nat, rule, kind),
            a,
            rule_row(rule, a, n),
            kind,
        )
    }
}

/// What `with_targets` does to the strength of every pair of nodes.
#[verifier::rlimit(100)]
pub proof fn lemma_with_targets(es: Seq<Edge>, from: usize, mask: Seq<bool>, kind: Dependency)
    requires
        simple(es),
        mask.len() <= usize::MAX,
    ensures
        simple(with_targets(es, from, mask, kind)),
        forall|x: usize, y: usize|
            #[trigger] tag(with_targets(es, from, mask, kind), x, y) == if x == from && y
                < mask.len() && mask[y as int] && y != from {
                Some(join(tag(es, x, y), kind))
            } else {
                tag(es, x, y)
            },
        forall|n: nat|
            within(es, n) && from < n && mask.len() <= n ==> #[trigger] within(
                with_targets(es, from, mask, kind),
                n,
            ),
    decreases mask.len(),
{
    if mask.len() > 0 {
        let front = mask.drop_last();
        let rest = with_targets(es, from, front, kind);
        lemma_with_targets(es, from, front, kind);
        let b = (mask.len() - 1) as usize;
        if mask.last() && b != from {
            lemma_with_edge(rest, from, b, kind);
        }
        let out = with_targets(es, from, mask, kind);
        assert forall|x: usize, y: usize| #[trigger] tag(out, x, y) == if x == from && y
            < mask.len() && mask[y as int] && y != from {
            Some(join(tag(es, x, y), kind))
        } else {
            tag(es, x, y)
        } by {
            if y < front.len() {
                assert(front[y as int] == mask[y as int]);
            }
            assert(tag(rest, x, y) == if x == from && y < front.len() && front[y as int] && y
                != from {
                Some(join(tag(es, x, y), kind))
            } else {
                tag(es, x, y)
            });
        }
        assert forall|n: nat|
            within(es, n) && from < n && mask.len() <= n implies #[trigger] within(
            out,
            n,
        ) by {
            assert(within(rest, n));
        }
    }
}

/// What `apply_rule` does to the strength of every pair of nodes.
#[verifier::rlimit(100)]
pub proof fn lemma_apply_rule(es: Seq<Edge>, n: nat, upto: nat, rule: Step, kind: Dependency)
    requires
        simple(es),
        upto <= n <= usize::MAX,
    ensures
        simple(apply_rule(es, n, upto, rule, kind)),
        forall|x: usize, y: usize|
            #[trigger] tag(apply_rule(es, n, upto, rule, kind), x, y) == if x < upto && y < n && x
                != y && rule(x, y) {
                Some(join(tag(es, x, y), kind))
            } else {
                tag(es, x, y)
            },
        within(es, n) ==> within(apply_rule(es, n, upto, rule, kind), n),
    decreases upto,
{
    if upto > 0 {
        let a = (upto - 1) as usize;
        let rest = apply_rule(es, n, (upto - 1) as nat, rule, kind);
        lemma_apply_rule(es, n, (upto - 1) as nat, rule, kind);
        let row = rule_row(rule, a, n);
        lemma_with_targets(rest, a, row, kind);
        let out = apply_rule(es, n, upto, rule, kind);
        assert forall|x: usize, y: usize| #[trigger] tag(out, x, y) == if x < upto && y < n && x
            != y && rule(x, y) {
            Some(join(tag(es, x, y), kind))
        } else {
            tag(es, x, y)
        } by {
            assert(tag(out, x, y) == if x == a && y < row.len() && row[y as int] && y != a {
                Some(join(tag(rest, x, y), kind))
            } else {
                tag(rest, x, y)
            });
            assert(tag(rest, x, y) == if x < upto - 1 && y < n && x != y && rule(x, y) {
                Some(join(tag(es, x, y), kind))
            } else {
                tag(es, x, y)
            });
        }
        if within(es, n) {
            assert(within(rest, n));
            assert(within(out, n));
        }
    }
}

/// Row `a` of `masks` marks the nodes to which `rule` relates `a`.
pub open spec fn masks_of(masks: Seq<Vec<bool>>, rule: Step, n: nat) -> bool {
    &&& masks.len() == n
    &&& forall|a: int| 0 <= a < n ==> (#[trigger] masks[a])@ == rule_row(rule, a as usize, n)
}

impl DepGraph {
    /// Makes the node `from` depend on every other node that `mask` marks.
    pub fn add_deps(&mut self, from: usize, mask: &Vec<bool>, kind: Dependency)
        requires
            old(self).wf(),
            from < old(self)@.nodes.len(),
            mask.len() <= old(self)@.nodes.len(),
        ensures
            final(self).wf(),
            final(self)@.nodes == old(self)@.nodes,
            final(self)@.edges == with_targets(old(self)@.edges, from, mask@, kind),
    {
        let mut b: usize = 0;
        assert(mask@.take(0) =~= Seq::<bool>::empty());
        while b < mask.len()
            invariant
                b <= mask.len(),
                self.wf(),
                from < self@.nodes.len(),
                mask.len() <= self@.nodes.len(),
                self@.nodes == old(self)@.nodes,
                self@.edges == with_targets(old(self)@.edges, from, mask@.take(b as int), kind),
            decreases mask.len() - b,
        {
            proof {
                let t = mask@.take(b + 1);
                assert(t.drop_last() =~= mask@.take(b as int));
                assert(t.last() == mask@[b as int]);
            }
            if mask[b] && b != from {
                self.g.add_edge(from, b, kind);
            }
            b += 1;
        }
        assert(mask@.take(mask.len() as int) =~= mask@);
    }

    /// Makes every node depend on the other nodes that its row of `masks`
    /// marks.
    pub(crate) fn apply_masks(
        &mut self,
        masks: &Vec<Vec<bool>>,
        kind: Dependency,
        Ghost(rule): Ghost<Step>,
    )
        requires
            old(self).wf(),
            masks_of(masks@, rule, old(self)@.nodes.len()),
        ensures
            final(self).wf(),
            final(self)@.nodes == old(self)@.nodes,
            final(self)@.edges == apply_rule(
                old(self)@.edges,
                old(self)@.nodes.len(),
                old(self)@.nodes.len(),
                rule,
                kind,
            ),
    {
        let n = self.g.len();
        let mut a: usize = 0;
        while a < n
            invariant
                a <= n,
                n == self@.nodes.len(),
                self.wf(),
                self@.nodes == old(self)@.nodes,
                masks_of(masks@, rule, n as nat),
                self@.edges == apply_rule(old(self)@.edges, n as nat, a as nat, rule, kind),
            decreases n - a,
        {
            assert(masks@[a as int]@ == rule_row(rule, a, n as nat));
            self.add_deps(a, &masks[a], kind);
            a += 1;
        }
    }
}

} // verus!
