//! Merging what a split gave: the merge of a part with the parts of its
//! split comes to an end, resolves every import, and puts every part behind
//! the parts on which it depends.

use crate::acyclic::{law_parts_acyclic, lemma_link_lifts, links_step};
use crate::condense::{leader_pred, lemma_filter_below, nodes_below};
use crate::graph::GraphView;
use crate::item::{ItemId, ItemView};
use crate::layout::{cond_edges, cond_roots, head_pred, part_count, parts_of};
use crate::merge::merged;
use crate::order::{
    complete, import_at, imports_all, imports_first, lemma_block_find, lemma_merge_order, tail_of,
};
use crate::reach::reaches;
use crate::split::{
    deps, links_from, offered_names, part_body, split_of, stmts, to_import, ModuleItemView,
};
use crate::tables::{acyclic_links, no_imports, table_ok};
use vstd::prelude::*;

verus! {

/// The parts of a split as a table: every import names a part of the split
/// on which the importing part depends.
#[verifier::rlimit(100)]
pub proof fn lemma_split_table(g: GraphView<ItemId>, f: Seq<ItemView>, uri: Seq<char>)
    requires
        g.nodes.len() <= usize::MAX,
    ensures
        split_of(g, f, uri).modules.len() == part_count(g.edges, g.nodes),
        table_ok(split_of(g, f, uri).modules, links_step(g.edges, g.nodes)),
        acyclic_links(links_step(g.edges, g.nodes), part_count(g.edges, g.nodes)),
{
    let es = g.edges;
    let ids = g.nodes;
    let placed = parts_of(es, ids);
    let count = part_count(es, ids);
    let t = split_of(g, f, uri).modules;
    let link = links_step(es, ids);
    assert forall|p: int, j: int|
        0 <= p < t.len() && 0 <= j < t[p].body.len() implies match #[trigger] t[p].body[j] {
        ModuleItemView::Import { part, .. } => part < t.len() && link(p as usize, part),
        _ => true,
    } by {
        let pu = p as usize;
        let dp = deps(es, placed, count, pu);
        let ims = dp.map_values(to_import(placed, f, pu));
        let sts = stmts(ids, placed, pu);
        let offered = offered_names(es, placed, f, count, pu);
        assert(t[p].body == part_body(es, ids, f, placed, count, pu));
        lemma_filter_below(count, links_from(es, placed, pu));
        if j < ims.len() {
            assert(t[p].body[j] == ims[j]);
            assert(links_from(es, placed, pu)(dp[j]));
        } else if j < ims.len() + sts.len() {
            assert(t[p].body[j] == sts[j - ims.len()]);
        } else {
            assert(offered.len() > 0);
            assert(t[p].body[j] == ModuleItemView::Export { names: offered });
        }
    }
    assert forall|p: usize, q: usize|
        p < count && #[trigger] reaches(link, p, q) implies !link(q, p) by {
        law_parts_acyclic(es, ids, p, q);
    }
}

/// For each part of a split the number of its imports.
pub open spec fn split_leads(g: GraphView<ItemId>) -> Seq<int> {
    Seq::new(
        part_count(g.edges, g.nodes),
        |p: int|
            deps(g.edges, parts_of(g.edges, g.nodes), part_count(g.edges, g.nodes), p as usize).len() as int,
    )
}

/// The bodies of the parts of a split begin with their imports, and a part
/// imports every part on which it depends.
#[verifier::rlimit(100)]
pub proof fn lemma_split_shape(g: GraphView<ItemId>, f: Seq<ItemView>, uri: Seq<char>)
    requires
        g.nodes.len() <= usize::MAX,
    ensures
        imports_first(split_of(g, f, uri).modules, split_leads(g)),
        imports_all(
            split_of(g, f, uri).modules,
            split_leads(g),
            links_step(g.edges, g.nodes),
        ),
        forall|p: int|
            0 <= p < part_count(g.edges, g.nodes) ==> #[trigger] tail_of(
                split_of(g, f, uri).modules,
                split_leads(g),
                p as usize,
            ) == stmts(g.nodes, parts_of(g.edges, g.nodes), p as usize) + if offered_names(
                g.edges,
                parts_of(g.edges, g.nodes),
                f,
                part_count(g.edges, g.nodes),
                p as usize,
            ).len() > 0 {
                seq![
                    ModuleItemView::Export {
                        names: offered_names(
                            g.edges,
                            parts_of(g.edges, g.nodes),
                            f,
                            part_count(g.edges, g.nodes),
                            p as usize,
                        ),
                    },
                ]
            } else {
                Seq::empty()
            },
{
    let es = g.edges;
    let ids = g.nodes;
    let placed = parts_of(es, ids);
    let count = part_count(es, ids);
    let t = split_of(g, f, uri).modules;
    let leads = split_leads(g);
    let link = links_step(es, ids);
    assert forall|p: int| 0 <= p < t.len() implies 0 <= #[trigger] leads[p] <= t[p].body.len() by {
        let pu = p as usize;
        assert(t[p].body == part_body(es, ids, f, placed, count, pu));
    }
    assert forall|p: int, j: int| 0 <= p < t.len() && 0 <= j < t[p].body.len() implies (
    #[trigger] t[p].body[j] is Import <==> j < leads[p]) by {
        let pu = p as usize;
        let dp = deps(es, placed, count, pu);
        let ims = dp.map_values(to_import(placed, f, pu));
        let sts = stmts(ids, placed, pu);
        let offered = offered_names(es, placed, f, count, pu);
        assert(t[p].body == part_body(es, ids, f, placed, count, pu));
        if j < ims.len() {
            assert(t[p].body[j] == ims[j]);
        } else if j < ims.len() + sts.len() {
            assert(t[p].body[j] == sts[j - ims.len()]);
        } else {
            assert(offered.len() > 0);
            assert(t[p].body[j] == ModuleItemView::Export { names: offered });
        }
    }
    assert forall|p: usize, q: usize| p < t.len() && #[trigger] link(p, q) implies exists|j: int|
        0 <= j < leads[p as int] && #[trigger] import_at(t, p, j) == q by {
        lemma_link_lifts(es, ids, p, q);
        let dp = deps(es, placed, count, p);
        lemma_filter_below(count, links_from(es, placed, p));
        assert(links_from(es, placed, p)(q));
        assert(dp.contains(q));
        let j = dp.index_of(q);
        let ims = dp.map_values(to_import(placed, f, p));
        assert(t[p as int].body == part_body(es, ids, f, placed, count, p));
        assert(t[p as int].body[j] == ims[j]);
        assert(import_at(t, p, j) == q);
    }
    assert forall|p: int| 0 <= p < count implies #[trigger] tail_of(t, leads, p as usize)
        == stmts(ids, placed, p as usize) + if offered_names(es, placed, f, count, p as usize).len()
        > 0 {
        seq![ModuleItemView::Export { names: offered_names(es, placed, f, count, p as usize) }]
    } else {
        Seq::empty()
    } by {
        let pu = p as usize;
        assert(t[p].body == part_body(es, ids, f, placed, count, pu));
        let dp = deps(es, placed, count, pu);
        let ims = dp.map_values(to_import(placed, f, pu));
        let rest = stmts(ids, placed, pu) + if offered_names(es, placed, f, count, pu).len() > 0 {
            seq![ModuleItemView::Export { names: offered_names(es, placed, f, count, pu) }]
        } else {
            Seq::empty()
        };
        assert(t[p].body =~= ims + rest);
        assert((ims + rest).skip(ims.len() as int) =~= rest);
    }
}

/// Merging a part of a split with the parts of the same split gives the
/// bodies, without their imports, of the parts on which the part depends,
/// directly or through other parts: each of them once, every part behind the
/// parts on which it depends, and the part itself last. The order of the
/// parts is given back.
pub proof fn law_round_trip(
    g: GraphView<ItemId>,
    f: Seq<ItemView>,
    uri: Seq<char>,
    e: usize,
) -> (order:
    Seq<usize>)
    requires
        g.nodes.len() <= usize::MAX,
        e < part_count(g.edges, g.nodes),
    ensures
        merged(split_of(g, f, uri).modules[e as int], split_of(g, f, uri).modules) is Done,
        complete(
            split_of(g, f, uri).modules,
            split_leads(g),
            links_step(g.edges, g.nodes),
            e,
            order,
            merged(split_of(g, f, uri).modules[e as int], split_of(g, f, uri).modules)->Done_0,
        ),
{
    lemma_split_table(g, f, uri);
    lemma_split_shape(g, f, uri);
    let t = split_of(g, f, uri).modules;
    assert(t.len() <= usize::MAX) by {
        let rs = cond_roots(g.edges, g.nodes);
        let c = cond_edges(g.edges, g.nodes.len());
        nodes_below(rs.len()).lemma_filter_len(head_pred(c, rs));
        nodes_below(g.nodes.len()).lemma_filter_len(
            leader_pred(g.edges),
        );
    }
    lemma_merge_order(t, split_leads(g), links_step(g.edges, g.nodes), e)
}

/// Merging a part of a split with the parts of the same split comes to an
/// end, is never given up, and leaves no import in the merged module.
pub proof fn law_merge_resolves(g: GraphView<ItemId>, f: Seq<ItemView>, uri: Seq<char>, e: usize)
    requires
        g.nodes.len() <= usize::MAX,
        e < part_count(g.edges, g.nodes),
    ensures
        merged(split_of(g, f, uri).modules[e as int], split_of(g, f, uri).modules) is Done,
        no_imports(
            merged(split_of(g, f, uri).modules[e as int], split_of(g, f, uri).modules)->Done_0,
        ),
{
    let t = split_of(g, f, uri).modules;
    let leads = split_leads(g);
    let order = law_round_trip(g, f, uri, e);
    lemma_split_shape(g, f, uri);
    let body = merged(t[e as int], t)->Done_0;
    assert forall|a: int| 0 <= a < body.len() implies !(#[trigger] body[a] is Import) by {
        let (i, c) = lemma_block_find(t, leads, order, a);
        let p = order[i];
        assert(body[a] == t[p as int].body[leads[p as int] + c]);
    }
}

} // verus!
