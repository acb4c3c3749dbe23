//! The whole way from a module to its parts, and what holds of the graph
//! that the analysis of a module ends with.

use crate::analyzer::{
    analysed_edges, analysed_facts, eventual_edges, eventual_ids, export_edges, hoisted_edges,
    immediate_edges, rule_holds, rule_step, ruled, Analyzer, Rule,
};
use crate::condense::{components, crosses, lemma_condensed};
use crate::dep_graph::{lemma_folded_shape, weak_handled, Mode};
use crate::graph::{
    edge_index, linked, simple, tag, with_edge, within, Dependency, Edge, GraphView,
};
use crate::item::{ItemId, ItemIdGroupKind, ItemView};
use crate::keep::law_elimination;
use crate::layout::{cond_edges, cond_roots, part_of};
use crate::link::{apply_rule, lemma_apply_rule, rule_row, with_targets};
use crate::module::{export_names, item_ids, Module, StmtView};
use crate::reach::{any_step, lemma_reaches_mono, reaches, strong_step, Step};
use crate::split::{split_of, SplitModuleResult, SplitView};
use crate::var_set::Id;
use vstd::prelude::*;

verus! {

/// The parts of a module: the split of the graph that the analysis of the
/// module ends with, after its weak edges were dealt with as `mode` asks.
pub open spec fn shaken(m: Seq<StmtView>, mode: Mode, uri: Seq<char>) -> SplitView {
    split_of(
        GraphView { nodes: item_ids(m), edges: weak_handled(analysed_edges(m), mode) },
        analysed_facts(m),
        uri,
    )
}

/// Analyses a module, deals with the weak edges as `mode` asks, and splits
/// the module into parts that carry `uri`.
pub fn shake(module: &Module, mode: Mode, uri: &str) -> (r: SplitModuleResult)
    ensures
        r@ == shaken(module@, mode, uri@),
{
    let mut a = Analyzer::analyze(module);
    a.g.handle_weak(mode);
    a.g.split_module(uri, &a.items)
}

/// The edges with which a module is split.
pub open spec fn final_edges(m: Seq<StmtView>, mode: Mode) -> Seq<Edge> {
    weak_handled(analysed_edges(m), mode)
}

/// The graph with which a module is split.
pub open spec fn final_graph(m: Seq<StmtView>, mode: Mode) -> GraphView<ItemId> {
    GraphView { nodes: item_ids(m), edges: final_edges(m, mode) }
}

/// A module is small enough for its units to be counted.
pub open spec fn countable(m: Seq<StmtView>) -> bool {
    m.len() + 1 + export_names(m).len() <= usize::MAX
}

/// The units of a module and their facts: the evaluation of the module
/// comes first and has no facts, the statements follow with the facts that
/// were read off them, and the exports come last, without facts.
#[verifier::rlimit(100)]
pub proof fn lemma_units(m: Seq<StmtView>)
    requires
        countable(m),
    ensures
        item_ids(m).len() == m.len() + 1 + export_names(m).len(),
        analysed_facts(m).len() == item_ids(m).len(),
        item_ids(m)[0] == ItemId::Group(ItemIdGroupKind::ModuleEvaluation),
        forall|i: int|
            0 <= i < m.len() ==> #[trigger] item_ids(m)[i + 1] == (ItemId::Item {
                index: i as usize,
                kind: m[i].kind,
            }),
        forall|i: int| 0 <= i < m.len() ==> #[trigger] analysed_facts(m)[i + 1] == m[i].facts(),
        forall|k: int|
            0 <= k < item_ids(m).len() && !(1 <= k <= m.len()) ==> item_ids(m)[k].is_group()
                && #[trigger] analysed_facts(m)[k] == ItemView::empty(),
{
}

/// The identifiers that a rule looks at when the passes apply it: those that
/// the first pass gives back for the rule for closures, none for the others.
pub open spec fn rule_ids(rule: Rule, f: Seq<ItemView>) -> Seq<Id> {
    if rule == Rule::Eventual {
        eventual_ids(f)
    } else {
        Seq::empty()
    }
}

/// An edge that one of the passes adds for a rule is among the edges with
/// which the module is split.
#[verifier::rlimit(100)]
pub proof fn lemma_rule_linked(m: Seq<StmtView>, mode: Mode, rule: Rule, a: usize, b: usize)
    requires
        countable(m),
        a != b,
        rule_holds(rule, item_ids(m), analysed_facts(m), rule_ids(rule, analysed_facts(m)), a, b),
    ensures
        a < item_ids(m).len(),
        b < item_ids(m).len(),
        linked(final_edges(m, mode), a, b),
{
    let ids = item_ids(m);
    let f = analysed_facts(m);
    let none = Seq::<Id>::empty();
    let strong = Dependency::Strong;
    lemma_units(m);
    let e0 = Seq::<Edge>::empty();
    let e1 = hoisted_edges(e0, ids, f);
    lemma_ruled_keeps(e0, Rule::Hoist, strong, ids, f, none);
    let e2a = ruled(e1, Rule::Read, strong, ids, f, none);
    lemma_ruled_keeps(e1, Rule::Read, strong, ids, f, none);
    let e2b = ruled(e2a, Rule::Chain, strong, ids, f, none);
    lemma_ruled_keeps(e2a, Rule::Chain, strong, ids, f, none);
    let e2 = ruled(e2b, Rule::Eval, strong, ids, f, none);
    lemma_ruled_keeps(e2b, Rule::Eval, strong, ids, f, none);
    assert(e2 == immediate_edges(e1, ids, f));
    let e3 = ruled(e2, Rule::Eventual, strong, ids, f, eventual_ids(f));
    lemma_ruled_keeps(e2, Rule::Eventual, strong, ids, f, eventual_ids(f));
    assert(e3 == eventual_edges(e2, ids, f, eventual_ids(f)));
    let e4 = export_edges(e3, ids, f);
    lemma_ruled_keeps(e3, Rule::Export, strong, ids, f, none);
    assert(e4 == analysed_edges(m));
    match rule {
        Rule::Hoist => {
            assert(linked(e1, a, b));
            assert(linked(e2a, a, b));
            assert(linked(e2b, a, b));
            assert(linked(e2, a, b));
        },
        Rule::Read => {
            assert(linked(e2a, a, b));
            assert(linked(e2b, a, b));
            assert(linked(e2, a, b));
        },
        Rule::Chain => {
            assert(linked(e2b, a, b));
            assert(linked(e2, a, b));
        },
        Rule::Eval => {
            assert(linked(e2, a, b));
        },
        Rule::Eventual => {},
        Rule::Export => {},
    }
    if rule != Rule::Export {
        assert(linked(e3, a, b));
    }
    assert(linked(e4, a, b));
    let es = final_edges(m, mode);
    lemma_folded_shape(e4);
    let i = choose|i: int| 0 <= i < e4.len() && (#[trigger] e4[i]).from == a && e4[i].to == b;
    assert(es[i].from == a && es[i].to == b);
}

/// Applying a rule keeps an edge list simple and keeps every edge.
pub proof fn lemma_ruled_keeps(
    es: Seq<Edge>,
    rule: Rule,
    kind: Dependency,
    ids: Seq<ItemId>,
    f: Seq<ItemView>,
    e: Seq<Id>,
)
    requires
        simple(es),
        ids.len() <= usize::MAX,
    ensures
        simple(ruled(es, rule, kind, ids, f, e)),
        within(es, ids.len()) ==> within(ruled(es, rule, kind, ids, f, e), ids.len()),
        forall|a: usize, b: usize|
            linked(es, a, b) ==> #[trigger] linked(ruled(es, rule, kind, ids, f, e), a, b),
        forall|a: usize, b: usize|
            a < ids.len() && b < ids.len() && a != b && rule_holds(rule, ids, f, e, a, b)
                ==> #[trigger] linked(ruled(es, rule, kind, ids, f, e), a, b),
{
    let step = rule_step(rule, ids, f, e);
    let out = ruled(es, rule, kind, ids, f, e);
    lemma_apply_rule(es, ids.len(), ids.len(), step, kind);
    assert forall|a: usize, b: usize| linked(es, a, b) implies #[trigger] linked(out, a, b) by {
        assert(tag(es, a, b) is Some);
        assert(tag(out, a, b) is Some);
    }
    assert forall|a: usize, b: usize|
        a < ids.len() && b < ids.len() && a != b && rule_holds(
            rule,
            ids,
            f,
            e,
            a,
            b,
        ) implies #[trigger] linked(out, a, b) by {
        assert(step(a, b));
        assert(tag(out, a, b) is Some);
    }
}

/// Every edge is strong.
pub open spec fn all_strong(es: Seq<Edge>) -> bool {
    forall|i: int| 0 <= i < es.len() ==> (#[trigger] es[i]).kind == Dependency::Strong
}

/// Recording a strong dependency among strong edges leaves strong edges.
pub proof fn lemma_with_edge_strong(es: Seq<Edge>, a: usize, b: usize)
    requires
        all_strong(es),
    ensures
        all_strong(with_edge(es, a, b, Dependency::Strong)),
{
    let out = with_edge(es, a, b, Dependency::Strong);
    assert forall|i: int| 0 <= i < out.len() implies (#[trigger] out[i]).kind == Dependency::Strong by {
        if linked(es, a, b) {
            if i != edge_index(es, a, b) {
                assert(out[i] == es[i]);
            }
        } else {
            if i < es.len() {
                assert(out[i] == es[i]);
            }
        }
    }
}

/// Making a node depend strongly on others among strong edges leaves strong
/// edges.
pub proof fn lemma_with_targets_strong(es: Seq<Edge>, from: usize, mask: Seq<bool>)
    requires
        all_strong(es),
    ensures
        all_strong(with_targets(es, from, mask, Dependency::Strong)),
    decreases mask.len(),
{
    if mask.len() > 0 {
        lemma_with_targets_strong(es, from, mask.drop_last());
        let rest = with_targets(es, from, mask.drop_last(), Dependency::Strong);
        lemma_with_edge_strong(rest, from, (mask.len() - 1) as usize);
    }
}

/// Applying a rule with strong edges among strong edges leaves strong edges.
pub proof fn lemma_apply_rule_strong(es: Seq<Edge>, n: nat, upto: nat, rule: Step)
    requires
        all_strong(es),
    ensures
        all_strong(apply_rule(es, n, upto, rule, Dependency::Strong)),
    decreases upto,
{
    if upto > 0 {
        lemma_apply_rule_strong(es, n, (upto - 1) as nat, rule);
        lemma_with_targets_strong(
            apply_rule(es, n, (upto - 1) as nat, rule, Dependency::Strong),
            (upto - 1) as usize,
            rule_row(rule, (upto - 1) as usize, n),
        );
    }
}

/// The analysis adds strong edges only, and so a module is split with strong
/// edges only, in either mode.
pub proof fn law_analysis_strong(m: Seq<StmtView>, mode: Mode)
    ensures
        all_strong(analysed_edges(m)),
        all_strong(final_edges(m, mode)),
{
    let ids = item_ids(m);
    let f = analysed_facts(m);
    let n = ids.len();
    let none = Seq::<Id>::empty();
    let e0 = Seq::<Edge>::empty();
    let e1 = hoisted_edges(e0, ids, f);
    lemma_apply_rule_strong(e0, n, n, rule_step(Rule::Hoist, ids, f, none));
    let e2a = ruled(e1, Rule::Read, Dependency::Strong, ids, f, none);
    lemma_apply_rule_strong(e1, n, n, rule_step(Rule::Read, ids, f, none));
    let e2b = ruled(e2a, Rule::Chain, Dependency::Strong, ids, f, none);
    lemma_apply_rule_strong(e2a, n, n, rule_step(Rule::Chain, ids, f, none));
    let e2 = ruled(e2b, Rule::Eval, Dependency::Strong, ids, f, none);
    lemma_apply_rule_strong(e2b, n, n, rule_step(Rule::Eval, ids, f, none));
    assert(e2 == immediate_edges(e1, ids, f));
    let e3 = eventual_edges(e2, ids, f, eventual_ids(f));
    lemma_apply_rule_strong(e2, n, n, rule_step(Rule::Eventual, ids, f, eventual_ids(f)));
    let e4 = export_edges(e3, ids, f);
    lemma_apply_rule_strong(e3, n, n, rule_step(Rule::Export, ids, f, none));
    assert(e4 == analysed_edges(m));
    let es = final_edges(m, mode);
    assert forall|i: int| 0 <= i < es.len() implies (#[trigger] es[i]).kind == Dependency::Strong by {
        assert(e4[i].kind == Dependency::Strong);
    }
}

/// A split of a module keeps exactly what the synthetic units reach along
/// strong edges: the unit at node `x` has a part if and only if a walk along
/// strong edges of the condensed graph leads to the component of the unit
/// from a component that holds a synthetic unit.
pub proof fn law_kept_exactly(m: Seq<StmtView>, mode: Mode, x: usize)
    requires
        countable(m),
        x < item_ids(m).len(),
    ensures
        part_of(final_edges(m, mode), item_ids(m), x) is Some <==> exists|r: usize|
            r < cond_roots(final_edges(m, mode), item_ids(m)).len() && cond_roots(
                final_edges(m, mode),
                item_ids(m),
            )[r as int] && #[trigger] reaches(
                strong_step(cond_edges(final_edges(m, mode), item_ids(m).len())),
                r,
                components(final_edges(m, mode), item_ids(m).len())[x as int],
            ),
{
    let es = final_edges(m, mode);
    let ids = item_ids(m);
    let n = ids.len();
    let c = cond_edges(es, n);
    let rs = cond_roots(es, ids);
    let k = components(es, n)[x as int];
    lemma_units(m);
    law_analysis_strong(m, mode);
    law_elimination(final_graph(m, mode), x);
    lemma_condensed(es, components(es, n));
    assert forall|a: usize, b: usize| #[trigger] any_step(c)(a, b) implies strong_step(c)(a, b) by {
        let i = choose|i: int| #[trigger] crosses(es, components(es, n), i, a, b);
        assert(es[i].kind == Dependency::Strong);
    }
    if part_of(es, ids, x) is Some {
        let r = choose|r: usize| r < rs.len() && rs[r as int] && #[trigger] reaches(any_step(c), r, k);
        lemma_reaches_mono(any_step(c), strong_step(c), r, k);
    }
}

} // verus!
