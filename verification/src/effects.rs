//! Side effects after a round trip: the merged evaluation of a module runs
//! the statements with side effects in the order of the module.

use crate::acyclic::links_step;
use crate::analyzer::{analysed_facts, effect_before, rule_holds, Rule};
use crate::condense::{
    component, components, crosses, groups, is_leader, leader_pred, leaders, lemma_component,
    lemma_condensed, lemma_filter_below, lemma_group_members, lemma_same_refl,
};
use crate::dep_graph::Mode;
use crate::graph::{linked, Edge};
use crate::item::{ItemId, ItemView};
use crate::keep::{law_elimination, lemma_live_has_owner, lemma_owner_is_live};
use crate::layout::{
    cond_edges, cond_roots, head_of, head_pred, heads_of, inner_of, is_root, lemma_first_server,
    live_of, ones, owner, part_count, part_of, parts_of, serves, unit,
};
use crate::merge::merged;
use crate::module::{item_ids, StmtView};
use crate::order::{
    block_start, complete, earlier, import_at, lemma_block_entry, lemma_block_find,
    lemma_block_starts, tail_of,
};
use crate::pipeline::{
    countable, final_edges, final_graph, lemma_rule_linked, lemma_units, rule_ids, shaken,
};
use crate::reach::{
    lemma_reaches_self, lemma_reaches_step, lemma_step_reaches, reached, reaches, step_into,
};
use crate::roundtrip::{law_round_trip, lemma_split_shape, split_leads};
use crate::split::{in_part, is_stmt, joins, links, part_nodes, stmts, to_stmt, ModuleItemView};
use vstd::prelude::*;

verus! {

/// The first node of a graph lies in the first component.
pub proof fn lemma_first_component(es: Seq<Edge>, n: nat)
    requires
        0 < n <= usize::MAX,
    ensures
        leaders(es, n).len() > 0,
        leaders(es, n)[0] == 0,
        component(es, n, 0) == 0,
        components(es, n)[0] == 0,
        groups(es, n)[0].contains(0),
{
    let ls = leaders(es, n);
    lemma_filter_below(n, leader_pred(es));
    assert(is_leader(es, 0));
    assert(leader_pred(es)(0usize));
    assert(ls.contains(0));
    let i = ls.index_of(0usize);
    if i > 0 {
        assert(ls[0] < ls[i]);
    }
    lemma_same_refl(es, 0);
    lemma_component(es, n, 0);
    lemma_group_members(es, n, 0);
}

/// The evaluation of a module is in the first part.
#[verifier::rlimit(100)]
pub proof fn lemma_eval_part(m: Seq<StmtView>, mode: Mode)
    requires
        countable(m),
    ensures
        part_count(final_edges(m, mode), item_ids(m)) > 0,
        part_of(final_edges(m, mode), item_ids(m), 0) == Some(0usize),
{
    let es = final_edges(m, mode);
    let ids = item_ids(m);
    let n = ids.len();
    lemma_units(m);
    lemma_first_component(es, n);
    let c = cond_edges(es, n);
    let rs = cond_roots(es, ids);
    let lv = live_of(c, rs);
    let hs = heads_of(c, rs);
    let inner = inner_of(c, rs);
    let gs = groups(es, n);
    let i = gs[0].index_of(0usize);
    assert(ids[gs[0][i] as int].is_group());
    assert(is_root(ids, gs[0]));
    assert(rs[0]);
    lemma_reaches_self(step_into(c, ones(rs.len())), 0);
    assert(reached(c, rs, ones(rs.len()), 0));
    assert(lv[0]);
    assert(head_of(c, rs, lv, 0));
    lemma_filter_below(rs.len(), head_pred(c, rs));
    assert(head_pred(c, rs)(0usize));
    assert(hs.contains(0));
    let k = hs.index_of(0usize);
    if k > 0 {
        assert(hs[0] < hs[k]);
    }
    lemma_reaches_self(step_into(c, inner), 0);
    assert(unit(inner.len(), 0)[0]);
    assert(serves(c, inner, 0, 0));
    lemma_first_server(c, hs, inner, 0, hs.len() as int);
    assert(owner(c, rs, 0) == Some(0usize));
}

/// A statement with side effects has a part, which is the first part or a
/// part on which the first part depends.
pub proof fn lemma_effect_part(m: Seq<StmtView>, mode: Mode, i: int)
    requires
        countable(m),
        0 <= i < m.len(),
        m[i].side_effects,
    ensures
        part_of(final_edges(m, mode), item_ids(m), (i + 1) as usize) is Some,
        reaches(
            links_step(final_edges(m, mode), item_ids(m)),
            0,
            part_of(final_edges(m, mode), item_ids(m), (i + 1) as usize)->0,
        ),
{
    let es = final_edges(m, mode);
    let ids = item_ids(m);
    let f = analysed_facts(m);
    let n = ids.len();
    let x = (i + 1) as usize;
    let link = links_step(es, ids);
    lemma_units(m);
    assert(f[i + 1] == m[i].facts());
    assert(rule_holds(Rule::Eval, ids, f, rule_ids(Rule::Eval, f), 0, x));
    lemma_rule_linked(m, mode, Rule::Eval, 0, x);
    lemma_eval_part(m, mode);
    lemma_edge_parts(es, ids, 0, x);
    let p = part_of(es, ids, x)->0;
    if p == 0 {
        lemma_reaches_self(link, 0);
    } else {
        lemma_step_reaches(link, 0, p);
    }
}

/// A unit on which a unit with a part depends has a part: the same part, or
/// a part on which that part depends.
#[verifier::rlimit(100)]
pub proof fn lemma_edge_parts(es: Seq<Edge>, ids: Seq<ItemId>, x: usize, y: usize)
    requires
        ids.len() <= usize::MAX,
        x < ids.len(),
        y < ids.len(),
        linked(es, x, y),
        part_of(es, ids, x) is Some,
    ensures
        part_of(es, ids, y) is Some,
        part_of(es, ids, y) == part_of(es, ids, x) || links(
            es,
            parts_of(es, ids),
            part_of(es, ids, x)->0,
            part_of(es, ids, y)->0,
        ),
{
    let n = ids.len();
    let c = cond_edges(es, n);
    let rs = cond_roots(es, ids);
    let comp = components(es, n);
    let placed = parts_of(es, ids);
    let cx = comp[x as int];
    let cy = comp[y as int];
    lemma_component(es, n, x);
    lemma_component(es, n, y);
    lemma_owner_is_live(c, rs, cx);
    if cx != cy {
        lemma_condensed(es, comp);
        let k = choose|k: int| 0 <= k < es.len() && (#[trigger] es[k]).from == x && es[k].to == y;
        assert(crosses(es, comp, k, cx, cy));
        assert(linked(c, cx, cy));
        let m = rs.len();
        let wide = step_into(c, ones(m));
        let s = choose|s: usize| s < rs.len() && rs[s as int] && #[trigger] reaches(wide, s, cx);
        assert(wide(cx, cy));
        lemma_reaches_step(wide, s, cx, cy);
        assert(reached(c, rs, ones(m), cy));
        lemma_live_has_owner(c, rs, cy);
    }
    let k = choose|k: int| 0 <= k < es.len() && (#[trigger] es[k]).from == x && es[k].to == y;
    if part_of(es, ids, y) != part_of(es, ids, x) {
        assert(joins(es, placed, k, part_of(es, ids, x)->0, part_of(es, ids, y)->0));
    }
}

/// Before a unit with side effects that follows another, there is a last
/// unit with side effects.
pub proof fn lemma_prev_effect(f: Seq<ItemView>, x: usize, y: usize, from: usize) -> (k: usize)
    requires
        x < y < f.len(),
        f[x as int].side_effects,
        x <= from < y,
        forall|c: usize| from < c < y ==> !(#[trigger] f[c as int]).side_effects,
    ensures
        x <= k < y,
        effect_before(f, k, y),
    decreases from - x,
{
    if f[from as int].side_effects {
        from
    } else {
        lemma_prev_effect(f, x, y, (from - 1) as usize)
    }
}

/// The nodes of a sequence in ascending order that pass a test stay in
/// ascending order, and none that passes is lost.
#[verifier::rlimit(100)]
pub proof fn lemma_filter_sorted(s: Seq<usize>, pred: spec_fn(usize) -> bool)
    requires
        forall|i: int, j: int| 0 <= i < j < s.len() ==> s[i] < s[j],
    ensures
        forall|i: int, j: int|
            0 <= i < j < s.filter(pred).len() ==> s.filter(pred)[i] < s.filter(pred)[j],
        forall|i: int|
            0 <= i < s.filter(pred).len() ==> s.contains(#[trigger] s.filter(pred)[i]) && pred(
                s.filter(pred)[i],
            ),
        forall|x: usize| s.contains(x) && pred(x) ==> #[trigger] s.filter(pred).contains(x),
    decreases s.len(),
{
    let out = s.filter(pred);
    if s.len() == 0 {
        reveal(Seq::filter);
        assert(out.len() == 0);
        assert forall|x: usize| s.contains(x) && pred(x) implies #[trigger] out.contains(x) by {
            let i = s.index_of(x);
        }
    } else {
        let front = s.drop_last();
        let last = s.last();
        let sub = front.filter(pred);
        assert forall|i: int, j: int| 0 <= i < j < front.len() implies front[i] < front[j] by {
            assert(s[i] < s[j]);
        }
        lemma_filter_sorted(front, pred);
        assert(s =~= front.push(last));
        front.lemma_filter_push(last, pred);
        assert forall|i: int| 0 <= i < sub.len() implies (#[trigger] sub[i]) < last by {
            assert(front.contains(sub[i]));
            let k = front.index_of(sub[i]);
            assert(s[k] < s[s.len() - 1]);
        }
        assert forall|i: int| 0 <= i < out.len() implies s.contains(#[trigger] out[i]) && pred(
            out[i],
        ) by {
            if i < sub.len() {
                assert(out[i] == sub[i]);
                assert(front.contains(sub[i]));
                let k = front.index_of(sub[i]);
                assert(s[k] == sub[i]);
            } else {
                assert(s[s.len() - 1] == last);
            }
        }
        assert forall|x: usize| s.contains(x) && pred(x) implies #[trigger] out.contains(x) by {
            let k = s.index_of(x);
            if k < front.len() {
                assert(front[k] == x);
                assert(front.contains(x));
                assert(sub.contains(x));
                let i = sub.index_of(x);
                assert(out[i] == x);
            } else {
                assert(out[sub.len() as int] == x);
            }
        }
    }
}

/// The statements of two units of one part stand in the part in the order
/// of the units.
pub proof fn lemma_stmts_in_order(
    ids: Seq<ItemId>,
    placed: Seq<Option<usize>>,
    p: usize,
    x: usize,
    y: usize,
)
    requires
        placed.len() == ids.len(),
        ids.len() <= usize::MAX,
        x < y < ids.len(),
        placed[x as int] == Some(p),
        placed[y as int] == Some(p),
        !ids[x as int].is_group(),
        !ids[y as int].is_group(),
    ensures
        exists|a: int, b: int|
            0 <= a < b < stmts(ids, placed, p).len() && #[trigger] stmts(ids, placed, p)[a]
                == to_stmt(ids)(x) && #[trigger] stmts(ids, placed, p)[b] == to_stmt(ids)(y),
{
    let nodes = part_nodes(placed, p);
    lemma_filter_below(placed.len(), in_part(placed, p));
    assert(in_part(placed, p)(x));
    assert(in_part(placed, p)(y));
    lemma_filter_sorted(nodes, is_stmt(ids));
    let kept = nodes.filter(is_stmt(ids));
    assert(is_stmt(ids)(x));
    assert(is_stmt(ids)(y));
    assert(kept.contains(x));
    assert(kept.contains(y));
    let a = kept.index_of(x);
    let b = kept.index_of(y);
    if b <= a {
        if b < a {
            assert(kept[b] < kept[a]);
        }
    }
    let st = stmts(ids, placed, p);
    assert(st[a] == to_stmt(ids)(x));
    assert(st[b] == to_stmt(ids)(y));
}

/// The table, the numbers of imports and the relation between the parts of
/// a module that was split fit the order in which a merge completed the parts
/// on which the first part depends.
pub open spec fn merged_in(
    m: Seq<StmtView>,
    mode: Mode,
    uri: Seq<char>,
    order: Seq<usize>,
) -> bool {
    &&& merged(shaken(m, mode, uri).modules[0], shaken(m, mode, uri).modules) is Done
    &&& complete(
        shaken(m, mode, uri).modules,
        split_leads(final_graph(m, mode)),
        links_step(final_edges(m, mode), item_ids(m)),
        0,
        order,
        merged(shaken(m, mode, uri).modules[0], shaken(m, mode, uri).modules)->Done_0,
    )
}

/// The part of a unit with side effects is completed no later than the part
/// of a unit with side effects that follows it.
#[verifier::rlimit(100)]
pub proof fn lemma_effect_pos(
    m: Seq<StmtView>,
    mode: Mode,
    uri: Seq<char>,
    order: Seq<usize>,
    x: usize,
    y: usize,
)
    requires
        countable(m),
        merged_in(m, mode, uri, order),
        1 <= x < y <= m.len(),
        m[x - 1].side_effects,
        m[y - 1].side_effects,
    ensures
        part_of(final_edges(m, mode), item_ids(m), x) is Some,
        part_of(final_edges(m, mode), item_ids(m), y) is Some,
        order.contains(part_of(final_edges(m, mode), item_ids(m), x)->0),
        order.contains(part_of(final_edges(m, mode), item_ids(m), y)->0),
        order.index_of(part_of(final_edges(m, mode), item_ids(m), x)->0) <= order.index_of(
            part_of(final_edges(m, mode), item_ids(m), y)->0,
        ),
    decreases y - x,
{
    let es = final_edges(m, mode);
    let ids = item_ids(m);
    let f = analysed_facts(m);
    let g = final_graph(m, mode);
    let t = shaken(m, mode, uri).modules;
    let leads = split_leads(g);
    let link = links_step(es, ids);
    let placed = parts_of(es, ids);
    lemma_units(m);
    lemma_effect_part(m, mode, x - 1);
    lemma_effect_part(m, mode, y - 1);
    let px = part_of(es, ids, x)->0;
    let py = part_of(es, ids, y)->0;
    assert(order.contains(px));
    assert(order.contains(py));
    let iy = order.index_of(py);
    assert(f[(x - 1) + 1] == m[x - 1].facts());
    assert(f[(y - 1) + 1] == m[y - 1].facts());
    let k = lemma_prev_effect(f, x, y, (y - 1) as usize);
    assert(rule_holds(Rule::Chain, ids, f, rule_ids(Rule::Chain, f), y, k));
    lemma_rule_linked(m, mode, Rule::Chain, y, k);
    lemma_edge_parts(es, ids, y, k);
    let pk = part_of(es, ids, k)->0;
    assert(f[(k - 1) + 1] == m[k - 1].facts());
    lemma_effect_part(m, mode, k - 1);
    assert(order.contains(pk));
    if pk != py {
        lemma_split_shape(g, f, uri);
        assert(link(py, pk));
        assert(py < t.len());
        let j = choose|j: int| 0 <= j < leads[py as int] && #[trigger] import_at(t, py, j) == pk;
        assert(earlier(order, iy, import_at(t, order[iy], j)));
        let k2 = choose|k2: int| 0 <= k2 < iy && #[trigger] order[k2] == pk;
        assert(order.index_of(pk) == k2);
    }
    if k != x {
        lemma_effect_pos(m, mode, uri, order, x, k);
    }
}

/// After a round trip no side effect is lost: when the first part of a
/// split, which holds the evaluation of the module, is merged with the parts
/// of the split, the merged module holds every statement with side effects.
#[verifier::rlimit(100)]
pub proof fn law_side_effects_kept(m: Seq<StmtView>, mode: Mode, uri: Seq<char>, i: int)
    requires
        countable(m),
        0 <= i < m.len(),
        m[i].side_effects,
    ensures
        shaken(m, mode, uri).modules.len() > 0,
        merged(shaken(m, mode, uri).modules[0], shaken(m, mode, uri).modules) is Done,
        merged(shaken(m, mode, uri).modules[0], shaken(m, mode, uri).modules)->Done_0.contains(
            ModuleItemView::Stmt { index: i as usize },
        ),
{
    let es = final_edges(m, mode);
    let ids = item_ids(m);
    let f = analysed_facts(m);
    let g = final_graph(m, mode);
    let t = shaken(m, mode, uri).modules;
    let leads = split_leads(g);
    let placed = parts_of(es, ids);
    lemma_units(m);
    lemma_eval_part(m, mode);
    let order = law_round_trip(g, f, uri, 0);
    let body = merged(t[0], t)->Done_0;
    let x = (i + 1) as usize;
    lemma_effect_part(m, mode, i);
    let px = part_of(es, ids, x)->0;
    assert(order.contains(px));
    let ix = order.index_of(px);
    lemma_split_shape(g, f, uri);
    law_elimination(g, x);
    assert(to_stmt(ids)(x) == ModuleItemView::Stmt { index: i as usize });
    let sx = stmts(ids, placed, px);
    assert(sx.contains(to_stmt(ids)(x)));
    let a0 = sx.index_of(to_stmt(ids)(x));
    assert(px < part_count(es, ids));
    assert(tail_of(t, leads, px)[a0] == sx[a0]);
    lemma_block_entry(t, leads, order, ix, a0);
    let st = block_start(t, leads, order, ix);
    assert(body[st + a0] == ModuleItemView::Stmt { index: i as usize });
}

/// After a round trip the statements with side effects stand in the order
/// of the module: when the first part of a split, which holds the evaluation
/// of the module, is merged with the parts of the split, the merged module
/// holds every statement with side effects, and of two such statements it
/// holds the one that comes first in the module before the other.
#[verifier::rlimit(100)]
pub proof fn law_side_effects_in_order(m: Seq<StmtView>, mode: Mode, uri: Seq<char>, i: int, j: int)
    requires
        countable(m),
        0 <= i < j < m.len(),
        m[i].side_effects,
        m[j].side_effects,
    ensures
        shaken(m, mode, uri).modules.len() > 0,
        merged(shaken(m, mode, uri).modules[0], shaken(m, mode, uri).modules) is Done,
        exists|a: int, b: int|
            0 <= a < b < merged(
                shaken(m, mode, uri).modules[0],
                shaken(m, mode, uri).modules,
            )->Done_0.len() && #[trigger] merged(
                shaken(m, mode, uri).modules[0],
                shaken(m, mode, uri).modules,
            )->Done_0[a] == (ModuleItemView::Stmt { index: i as usize }) && #[trigger] merged(
                shaken(m, mode, uri).modules[0],
                shaken(m, mode, uri).modules,
            )->Done_0[b] == (ModuleItemView::Stmt { index: j as usize }),
{
    let es = final_edges(m, mode);
    let ids = item_ids(m);
    let f = analysed_facts(m);
    let g = final_graph(m, mode);
    let t = shaken(m, mode, uri).modules;
    let leads = split_leads(g);
    let placed = parts_of(es, ids);
    let count = part_count(es, ids);
    lemma_units(m);
    lemma_eval_part(m, mode);
    let order = law_round_trip(g, f, uri, 0);
    let body = merged(t[0], t)->Done_0;
    assert(merged_in(m, mode, uri, order));
    let x = (i + 1) as usize;
    let y = (j + 1) as usize;
    lemma_effect_pos(m, mode, uri, order, x, y);
    let px = part_of(es, ids, x)->0;
    let py = part_of(es, ids, y)->0;
    let ix = order.index_of(px);
    let iy = order.index_of(py);
    lemma_split_shape(g, f, uri);
    law_elimination(g, x);
    law_elimination(g, y);
    assert(to_stmt(ids)(x) == ModuleItemView::Stmt { index: i as usize });
    assert(to_stmt(ids)(y) == ModuleItemView::Stmt { index: j as usize });
    let sx = stmts(ids, placed, px);
    let sy = stmts(ids, placed, py);
    assert(px < count && py < count);
    assert(tail_of(t, leads, px).len() >= sx.len());
    assert(tail_of(t, leads, py).len() >= sy.len());
    if ix == iy {
        lemma_stmts_in_order(ids, placed, px, x, y);
        let (a0, b0) = choose|a0: int, b0: int|
            0 <= a0 < b0 < sx.len() && #[trigger] sx[a0] == to_stmt(ids)(x) && #[trigger] sx[b0]
                == to_stmt(ids)(y);
        lemma_block_entry(t, leads, order, ix, a0);
        lemma_block_entry(t, leads, order, ix, b0);
        let st = block_start(t, leads, order, ix);
        assert(tail_of(t, leads, px)[a0] == sx[a0]);
        assert(tail_of(t, leads, px)[b0] == sx[b0]);
        assert(body[st + a0] == ModuleItemView::Stmt { index: i as usize });
        assert(body[st + b0] == ModuleItemView::Stmt { index: j as usize });
    } else {
        assert(sx.contains(to_stmt(ids)(x)));
        assert(sy.contains(to_stmt(ids)(y)));
        let a0 = sx.index_of(to_stmt(ids)(x));
        let b0 = sy.index_of(to_stmt(ids)(y));
        lemma_block_entry(t, leads, order, ix, a0);
        lemma_block_entry(t, leads, order, iy, b0);
        lemma_block_starts(t, leads, order, ix, iy);
        let sa = block_start(t, leads, order, ix);
        let sb = block_start(t, leads, order, iy);
        assert(tail_of(t, leads, px)[a0] == sx[a0]);
        assert(tail_of(t, leads, py)[b0] == sy[b0]);
        assert(body[sa + a0] == ModuleItemView::Stmt { index: i as usize });
        assert(body[sb + b0] == ModuleItemView::Stmt { index: j as usize });
        assert(sa + a0 < sb + b0);
    }
}

/// After a round trip no statement stands twice in the merged module.
#[verifier::rlimit(100)]
pub proof fn law_statements_once(m: Seq<StmtView>, mode: Mode, uri: Seq<char>, a: int, b: int)
    requires
        countable(m),
        merged(shaken(m, mode, uri).modules[0], shaken(m, mode, uri).modules) is Done,
        0 <= a < b < merged(
            shaken(m, mode, uri).modules[0],
            shaken(m, mode, uri).modules,
        )->Done_0.len(),
        merged(shaken(m, mode, uri).modules[0], shaken(m, mode, uri).modules)->Done_0[a] is Stmt,
    ensures
        merged(shaken(m, mode, uri).modules[0], shaken(m, mode, uri).modules)->Done_0[a] != merged(
            shaken(m, mode, uri).modules[0],
            shaken(m, mode, uri).modules,
        )->Done_0[b],
{
    let es = final_edges(m, mode);
    let ids = item_ids(m);
    let f = analysed_facts(m);
    let g = final_graph(m, mode);
    let t = shaken(m, mode, uri).modules;
    let leads = split_leads(g);
    let placed = parts_of(es, ids);
    let count = part_count(es, ids);
    lemma_units(m);
    lemma_eval_part(m, mode);
    let order = law_round_trip(g, f, uri, 0);
    let body = merged(t[0], t)->Done_0;
    lemma_split_shape(g, f, uri);
    let (i1, c1) = lemma_block_find(t, leads, order, a);
    let (i2, c2) = lemma_block_find(t, leads, order, b);
    let pa = order[i1];
    let pb = order[i2];
    if body[a] == body[b] {
        let s1 = stmts(ids, placed, pa);
        let s2 = stmts(ids, placed, pb);
        assert(c1 < s1.len());
        assert(c2 < s2.len());
        let n1 = part_nodes(placed, pa);
        let n2 = part_nodes(placed, pb);
        lemma_filter_below(placed.len(), in_part(placed, pa));
        lemma_filter_below(placed.len(), in_part(placed, pb));
        lemma_filter_sorted(n1, is_stmt(ids));
        lemma_filter_sorted(n2, is_stmt(ids));
        let k1 = n1.filter(is_stmt(ids));
        let k2 = n2.filter(is_stmt(ids));
        let x = k1[c1];
        let y = k2[c2];
        assert(s1[c1] == to_stmt(ids)(x));
        assert(s2[c2] == to_stmt(ids)(y));
        assert(n1.contains(x) && is_stmt(ids)(x));
        assert(n2.contains(y) && is_stmt(ids)(y));
        let u = n1.index_of(x);
        let v = n2.index_of(y);
        assert(in_part(placed, pa)(n1[u]));
        assert(in_part(placed, pb)(n2[v]));
        assert(1 <= x <= m.len());
        assert(1 <= y <= m.len());
        assert(ids[(x - 1) + 1] == ItemId::Item { index: (x - 1) as usize, kind: m[x - 1].kind });
        assert(ids[(y - 1) + 1] == ItemId::Item { index: (y - 1) as usize, kind: m[y - 1].kind });
        assert(x == y);
        assert(pa == pb);
        assert(i1 == i2);
        if c1 < c2 {
            assert(k1[c1] < k1[c2]);
        } else if c2 < c1 {
            assert(k1[c2] < k1[c1]);
        }
        assert(false);
    }
}

} // verus!
