//! What holds of the analysis, the condensation and the split as a whole.

use crate::analyzer::{
    analysed_facts, closure_uses, eventual_ids, lemma_eventual_ids_cover, provides, rule_holds,
    Rule,
};
use crate::condense::{component, components, lemma_same_component, same_scc};
use crate::dep_graph::Mode;
use crate::graph::GraphView;
use crate::item::ItemId;
use crate::layout::part_of;
use crate::module::{item_ids, StmtView};
use crate::pipeline::{countable, final_edges, lemma_rule_linked, lemma_units, shaken};
use crate::reach::{any_step, lemma_step_reaches};
use crate::split::SplitView;
use crate::var_set::Id;
use vstd::prelude::*;

verus! {

/// The split of a module is determined by its statements, the mode and the
/// address: two results of splitting the same module in the same mode are
/// the same, part by part, and so have the same number of parts.
pub proof fn law_determinism(
    m: Seq<StmtView>,
    mode: Mode,
    uri: Seq<char>,
    first: SplitView,
    second: SplitView,
)
    requires
        first == shaken(m, mode, uri),
        second == shaken(m, mode, uri),
    ensures
        first == second,
        first.modules.len() == second.modules.len(),
        forall|p: int| 0 <= p < first.modules.len() ==> first.modules[p] == second.modules[p],
{
}

/// Units that depend on each other in a cycle lie in one node of the
/// condensed graph, and so go to one part or are left out together.
pub proof fn law_cycle_safety(g: GraphView<ItemId>, a: usize, b: usize)
    requires
        g.nodes.len() <= usize::MAX,
        a < g.nodes.len(),
        b < g.nodes.len(),
        same_scc(g.edges, a, b),
    ensures
        component(g.edges, g.nodes.len(), a) == component(g.edges, g.nodes.len(), b),
        part_of(g.edges, g.nodes, a) == part_of(g.edges, g.nodes, b),
{
    lemma_same_component(g.edges, g.nodes.len(), a, b);
    let n = g.nodes.len();
    assert(components(g.edges, n)[a as int] == component(g.edges, n, a) as usize);
    assert(components(g.edges, n)[b as int] == component(g.edges, n, b) as usize);
}

/// Two units of a module whose closures each use a binding that the other
/// declares or may write lie in one node of the condensed graph in either
/// mode, and so go to one part or are left out together.
#[verifier::rlimit(100)]
pub proof fn law_mutual_recursion(m: Seq<StmtView>, mode: Mode, a: usize, b: usize, v: Id, w: Id)
    requires
        countable(m),
        a != b,
        a < item_ids(m).len(),
        b < item_ids(m).len(),
        closure_uses(analysed_facts(m)[a as int], v),
        provides(analysed_facts(m)[b as int], v),
        closure_uses(analysed_facts(m)[b as int], w),
        provides(analysed_facts(m)[a as int], w),
    ensures
        same_scc(final_edges(m, mode), a, b),
        part_of(final_edges(m, mode), item_ids(m), a) == part_of(
            final_edges(m, mode),
            item_ids(m),
            b,
        ),
{
    let ids = item_ids(m);
    let f = analysed_facts(m);
    let es = final_edges(m, mode);
    lemma_units(m);
    lemma_eventual_ids_cover(f, a as int, v);
    lemma_eventual_ids_cover(f, b as int, w);
    assert(rule_holds(Rule::Eventual, ids, f, eventual_ids(f), a, b));
    assert(rule_holds(Rule::Eventual, ids, f, eventual_ids(f), b, a));
    lemma_rule_linked(m, mode, Rule::Eventual, a, b);
    lemma_rule_linked(m, mode, Rule::Eventual, b, a);
    assert(any_step(es)(a, b));
    assert(any_step(es)(b, a));
    lemma_step_reaches(any_step(es), a, b);
    lemma_step_reaches(any_step(es), b, a);
    law_cycle_safety(GraphView { nodes: ids, edges: es }, a, b);
}

} // verus!
