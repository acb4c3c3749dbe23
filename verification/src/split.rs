//! Splitting a module into parts: the statements of each part, and the
//! imports and exports that tie the parts together.

use crate::condense::{lemma_filter_below, nodes_below};
use crate::dep_graph::DepGraph;
use crate::graph::{Edge, GraphView};
use crate::item::{item_views, Item, ItemId, ItemIdGroupKind, ItemView};
use crate::layout::{layout, part_count, parts_of};
use crate::seqs::absorb;
use crate::var_set::{
    var_seq, var_set_contains, var_set_get, var_set_len, var_set_new, var_set_union, Id, VarSet,
};
use vstd::prelude::*;

verus! {

/// One entry of the body of a part.
#[derive(Debug)]
pub enum ModuleItem {
    /// The part needs part `part` of the same module, and reads `names`
    /// from it.
    Import { part: usize, names: Vec<Id> },
    /// The statement at position `index` of the module that was split.
    Stmt { index: usize },
    /// The part offers `names` to the other parts.
    Export { names: Vec<Id> },
}

/// The mathematical content of a [`ModuleItem`].
pub enum ModuleItemView {
    Import { part: usize, names: Seq<Id> },
    Stmt { index: usize },
    Export { names: Seq<Id> },
}

impl View for ModuleItem {
    type V = ModuleItemView;

    open spec fn view(&self) -> ModuleItemView {
        match *self {
            ModuleItem::Import { part, names } => ModuleItemView::Import { part, names: names@ },
            ModuleItem::Stmt { index } => ModuleItemView::Stmt { index },
            ModuleItem::Export { names } => ModuleItemView::Export { names: names@ },
        }
    }
}

/// The views of a sequence of entries.
pub open spec fn body_view(s: Seq<ModuleItem>) -> Seq<ModuleItemView> {
    Seq::new(s.len(), |i: int| s[i]@)
}

/// A synthetic module: a part of a module that was split, or several parts
/// merged into one.
#[derive(Debug)]
pub struct Part {
    /// The address of the module that the part was taken from.
    pub uri: String,
    pub body: Vec<ModuleItem>,
}

/// The mathematical content of a [`Part`].
pub struct PartView {
    pub uri: Seq<char>,
    pub body: Seq<ModuleItemView>,
}

impl View for Part {
    type V = PartView;

    open spec fn view(&self) -> PartView {
        PartView { uri: self.uri@, body: body_view(self.body@) }
    }
}

/// A copy of a list of identifiers.
pub fn dup_ids(v: &Vec<Id>) -> (r: Vec<Id>)
    ensures
        r@ == v@,
{
    let mut r: Vec<Id> = Vec::new();
    let mut i: usize = 0;
    while i < v.len()
        invariant
            i <= v.len(),
            r@ == v@.take(i as int),
        decreases v.len() - i,
    {
        r.push(v[i]);
        assert(v@.take(i as int).push(v@[i as int]) =~= v@.take(i + 1));
        i += 1;
    }
    assert(v@.take(v.len() as int) =~= v@);
    r
}

impl Clone for ModuleItem {
    fn clone(&self) -> (r: Self)
        ensures
            r@ == self@,
    {
        match self {
            ModuleItem::Import { part, names } => ModuleItem::Import {
                part: *part,
                names: dup_ids(names),
            },
            ModuleItem::Stmt { index } => ModuleItem::Stmt { index: *index },
            ModuleItem::Export { names } => ModuleItem::Export { names: dup_ids(names) },
        }
    }
}

impl Clone for Part {
    fn clone(&self) -> (r: Self)
        ensures
            r@ == self@,
    {
        let mut body: Vec<ModuleItem> = Vec::new();
        let mut i: usize = 0;
        while i < self.body.len()
            invariant
                i <= self.body.len(),
                body.len() == i,
                forall|j: int| 0 <= j < i ==> (#[trigger] body@[j])@ == self.body@[j]@,
            decreases self.body.len() - i,
        {
            body.push(self.body[i].clone());
            i += 1;
        }
        let r = Part { uri: self.uri.clone(), body };
        assert(r@.body =~= self@.body);
        r
    }
}

/// The views of a sequence of parts.
pub open spec fn part_views(s: Seq<Part>) -> Seq<PartView> {
    Seq::new(s.len(), |i: int| s[i]@)
}

/// The views of a sequence of lists.
pub open spec fn list_views(s: Seq<Vec<usize>>) -> Seq<Seq<usize>> {
    Seq::new(s.len(), |i: int| s[i]@)
}

/// What a split gives.
#[derive(Debug)]
pub struct SplitModuleResult {
    /// For the evaluation of the module and for each exported name the part
    /// that holds it.
    pub entrypoints: Vec<(ItemIdGroupKind, usize)>,
    /// For each part the parts that it imports, ascending.
    pub part_deps: Vec<Vec<usize>>,
    /// The parts.
    pub modules: Vec<Part>,
}

/// The mathematical content of a [`SplitModuleResult`].
pub struct SplitView {
    pub entrypoints: Seq<(ItemIdGroupKind, usize)>,
    pub part_deps: Seq<Seq<usize>>,
    pub modules: Seq<PartView>,
}

impl View for SplitModuleResult {
    type V = SplitView;

    open spec fn view(&self) -> SplitView {
        SplitView {
            entrypoints: self.entrypoints@,
            part_deps: list_views(self.part_deps@),
            modules: part_views(self.modules@),
        }
    }
}

/// The test for the nodes of part `p`.
pub open spec fn in_part(placed: Seq<Option<usize>>, p: usize) -> spec_fn(usize) -> bool {
    |x: usize| x < placed.len() && placed[x as int] == Some(p)
}

/// The nodes of part `p`, ascending.
pub open spec fn part_nodes(placed: Seq<Option<usize>>, p: usize) -> Seq<usize> {
    nodes_below(placed.len()).filter(in_part(placed, p))
}

/// The identifiers that the units at `nodes` declare, or those that they
/// read, at once or in closures; each once, in order.
pub open spec fn gathered(nodes: Seq<usize>, f: Seq<ItemView>, reads: bool) -> Seq<Id>
    decreases nodes.len(),
{
    if nodes.len() == 0 {
        Seq::empty()
    } else {
        let rest = gathered(nodes.drop_last(), f, reads);
        let it = f[nodes.last() as int];
        if reads {
            absorb(absorb(rest, it.read_vars), it.eventual_read_vars)
        } else {
            absorb(rest, it.var_decls)
        }
    }
}

/// The bindings that part `p` declares.
pub open spec fn part_decls(placed: Seq<Option<usize>>, f: Seq<ItemView>, p: usize) -> Seq<Id> {
    gathered(part_nodes(placed, p), f, false)
}

/// The bindings that part `p` reads.
pub open spec fn part_needs(placed: Seq<Option<usize>>, f: Seq<ItemView>, p: usize) -> Seq<Id> {
    gathered(part_nodes(placed, p), f, true)
}

/// Edge `i` leads from part `p` to part `q`.
pub open spec fn joins(
    es: Seq<Edge>,
    placed: Seq<Option<usize>>,
    i: int,
    p: usize,
    q: usize,
) -> bool {
    &&& 0 <= i < es.len()
    &&& es[i].from < placed.len()
    &&& es[i].to < placed.len()
    &&& placed[es[i].from as int] == Some(p)
    &&& placed[es[i].to as int] == Some(q)
}

/// Part `p` depends on another part `q`: a unit of `p` depends on a unit of
/// `q`.
pub open spec fn links(es: Seq<Edge>, placed: Seq<Option<usize>>, p: usize, q: usize) -> bool {
    p != q && exists|i: int| #[trigger] joins(es, placed, i, p, q)
}

/// The test for the parts on which `p` depends.
pub open spec fn links_from(es: Seq<Edge>, placed: Seq<Option<usize>>, p: usize) -> spec_fn(
    usize,
) -> bool {
    |q: usize| links(es, placed, p, q)
}

/// The parts on which `p` depends, ascending.
pub open spec fn deps(
    es: Seq<Edge>,
    placed: Seq<Option<usize>>,
    count: nat,
    p: usize,
) -> Seq<usize> {
    nodes_below(count).filter(links_from(es, placed, p))
}

/// The test for the identifiers in `keep`.
pub open spec fn held_by(keep: Seq<Id>) -> spec_fn(Id) -> bool {
    |v: Id| keep.contains(v)
}

/// The bindings that part `p` reads and part `q` declares.
pub open spec fn import_names(
    placed: Seq<Option<usize>>,
    f: Seq<ItemView>,
    p: usize,
    q: usize,
) -> Seq<
    Id,
> {
    part_decls(placed, f, q).filter(held_by(part_needs(placed, f, p)))
}

/// The bindings that the first `upto` parts read, as far as they depend on
/// `q`.
pub open spec fn wanted(
    es: Seq<Edge>,
    placed: Seq<Option<usize>>,
    f: Seq<ItemView>,
    q: usize,
    upto: nat,
) -> Seq<Id>
    decreases upto,
{
    if upto == 0 {
        Seq::empty()
    } else {
        let p = (upto - 1) as usize;
        let rest = wanted(es, placed, f, q, p as nat);
        if links(es, placed, p, q) {
            absorb(rest, part_needs(placed, f, p))
        } else {
            rest
        }
    }
}

/// The bindings that part `q` declares and a part that depends on it reads.
pub open spec fn offered_names(
    es: Seq<Edge>,
    placed: Seq<Option<usize>>,
    f: Seq<ItemView>,
    count: nat,
    q: usize,
) -> Seq<Id> {
    part_decls(placed, f, q).filter(held_by(wanted(es, placed, f, q, count)))
}

/// The test for the nodes of statements.
pub open spec fn is_stmt(ids: Seq<ItemId>) -> spec_fn(usize) -> bool {
    |x: usize| x < ids.len() && !ids[x as int].is_group()
}

/// The position in the module of the statement of a unit.
pub open spec fn stmt_index(id: ItemId) -> usize {
    match id {
        ItemId::Item { index, .. } => index,
        ItemId::Group(_) => 0,
    }
}

/// The entry for the statement at a node.
pub open spec fn to_stmt(ids: Seq<ItemId>) -> spec_fn(usize) -> ModuleItemView {
    |x: usize| ModuleItemView::Stmt { index: stmt_index(ids[x as int]) }
}

/// The statements of part `p`, in the order of the module.
pub open spec fn stmts(
    ids: Seq<ItemId>,
    placed: Seq<Option<usize>>,
    p: usize,
) -> Seq<ModuleItemView> {
    part_nodes(placed, p).filter(is_stmt(ids)).map_values(to_stmt(ids))
}

/// The entry for the import of a part into part `p`.
pub open spec fn to_import(placed: Seq<Option<usize>>, f: Seq<ItemView>, p: usize) -> spec_fn(
    usize,
) -> ModuleItemView {
    |q: usize| ModuleItemView::Import { part: q, names: import_names(placed, f, p, q) }
}

/// The body of part `p`: an import of each part on which it depends, its
/// statements, and its exports if it has any.
pub open spec fn part_body(
    es: Seq<Edge>,
    ids: Seq<ItemId>,
    f: Seq<ItemView>,
    placed: Seq<Option<usize>>,
    count: nat,
    p: usize,
) -> Seq<ModuleItemView> {
    let offered = offered_names(es, placed, f, count, p);
    deps(es, placed, count, p).map_values(to_import(placed, f, p)) + stmts(ids, placed, p) + if offered.len()
        > 0 {
        seq![ModuleItemView::Export { names: offered }]
    } else {
        Seq::empty()
    }
}

/// The test for the nodes of synthetic units that have a part.
pub open spec fn is_entry(ids: Seq<ItemId>, placed: Seq<Option<usize>>) -> spec_fn(usize) -> bool {
    |x: usize| x < ids.len() && x < placed.len() && ids[x as int].is_group() && placed[x as int] is Some
}

/// The entry point for the synthetic unit at a node.
pub open spec fn to_entry(ids: Seq<ItemId>, placed: Seq<Option<usize>>) -> spec_fn(usize) -> (
    ItemIdGroupKind,
    usize,
) {
    |x: usize|
        (
            match ids[x as int] {
                ItemId::Group(kind) => kind,
                ItemId::Item { .. } => ItemIdGroupKind::ModuleEvaluation,
            },
            placed[x as int].unwrap(),
        )
}

/// What splitting a graph gives, for the facts `f` and the address `uri`.
pub open spec fn split_of(g: GraphView<ItemId>, f: Seq<ItemView>, uri: Seq<char>) -> SplitView {
    let placed = parts_of(g.edges, g.nodes);
    let count = part_count(g.edges, g.nodes);
    SplitView {
        entrypoints: nodes_below(g.nodes.len()).filter(is_entry(g.nodes, placed)).map_values(
            to_entry(g.nodes, placed),
        ),
        part_deps: Seq::new(count, |p: int| deps(g.edges, placed, count, p as usize)),
        modules: Seq::new(
            count,
            |p: int|
                PartView {
                    uri,
                    body: part_body(g.edges, g.nodes, f, placed, count, p as usize),
                },
        ),
    }
}

/// The nodes of a part.
fn nodes_of(placed: &Vec<Option<usize>>, p: usize) -> (r: Vec<usize>)
    ensures
        r@ == part_nodes(placed@, p),
        forall|i: int| 0 <= i < r.len() ==> (#[trigger] r@[i]) < placed.len(),
{
    let n = placed.len();
    let mut r: Vec<usize> = Vec::new();
    let mut x: usize = 0;
    proof {
        assert(nodes_below(0) =~= Seq::<usize>::empty());
        reveal(Seq::filter);
        assert(r@ =~= nodes_below(0).filter(in_part(placed@, p)));
    }
    while x < n
        invariant
            x <= n,
            n == placed.len(),
            r@ == nodes_below(x as nat).filter(in_part(placed@, p)),
            forall|i: int| 0 <= i < r.len() ==> (#[trigger] r@[i]) < n,
        decreases n - x,
    {
        proof {
            nodes_below(x as nat).lemma_filter_push(x, in_part(placed@, p));
            assert(nodes_below((x + 1) as nat) =~= nodes_below(x as nat).push(x));
        }
        let here = match placed[x] {
            Some(q) => q == p,
            None => false,
        };
        if here {
            r.push(x);
        }
        x += 1;
    }
    r
}

/// The identifiers that the units at `nodes` declare, or read.
fn gather(nodes: &Vec<usize>, items: &Vec<Item>, reads: bool) -> (s: VarSet)
    requires
        forall|i: int| 0 <= i < nodes.len() ==> (#[trigger] nodes@[i]) < items.len(),
    ensures
        var_seq(s) == gathered(nodes@, item_views(items@), reads),
{
    let mut s = var_set_new();
    let mut i: usize = 0;
    assert(nodes@.take(0) =~= Seq::<usize>::empty());
    while i < nodes.len()
        invariant
            i <= nodes.len(),
            forall|i: int| 0 <= i < nodes.len() ==> (#[trigger] nodes@[i]) < items.len(),
            var_seq(s) == gathered(nodes@.take(i as int), item_views(items@), reads),
        decreases nodes.len() - i,
    {
        proof {
            let t = nodes@.take(i + 1);
            assert(t.drop_last() =~= nodes@.take(i as int));
            assert(t.last() == nodes@[i as int]);
        }
        let it = &items[nodes[i]];
        if reads {
            var_set_union(&mut s, &it.read_vars);
            var_set_union(&mut s, &it.eventual_read_vars);
        } else {
            var_set_union(&mut s, &it.var_decls);
        }
        i += 1;
    }
    assert(nodes@.take(nodes.len() as int) =~= nodes@);
    s
}

/// For each part whether part `p` depends on it.
#[verifier::rlimit(100)]
fn link_row(edges: &Vec<Edge>, placed: &Vec<Option<usize>>, count: usize, p: usize) -> (row: Vec<
    bool,
>)
    ensures
        row.len() == count,
        forall|q: usize| q < count ==> #[trigger] row@[q as int] == links(edges@, placed@, p, q),
{
    let ghost es = edges@;
    let ghost pl = placed@;
    let mut row: Vec<bool> = Vec::new();
    let mut q: usize = 0;
    while q < count
        invariant
            q <= count,
            row.len() == q,
            forall|k: int| 0 <= k < q ==> !row@[k],
        decreases count - q,
    {
        row.push(false);
        q += 1;
    }
    let mut j: usize = 0;
    while j < edges.len()
        invariant
            j <= edges.len(),
            es == edges@,
            pl == placed@,
            row.len() == count,
            forall|q: usize|
                q < count ==> (#[trigger] row@[q as int] <==> (p != q && exists|i: int|
                    i < j && #[trigger] joins(es, pl, i, p, q))),
        decreases edges.len() - j,
    {
        let e = edges[j];
        let ghost before = row@;
        let mut target: Option<usize> = None;
        if e.from < placed.len() && e.to < placed.len() {
            let from_p = match placed[e.from] {
                Some(a) => a == p,
                None => false,
            };
            if from_p {
                match placed[e.to] {
                    Some(b) => {
                        if b != p && b < count {
                            row.set(b, true);
                            target = Some(b);
                        }
                    },
                    None => {},
                }
            }
        }
        proof {
            assert forall|q: usize| q < count implies (#[trigger] row@[q as int] <==> (p != q
                && exists|i: int| i < j + 1 && #[trigger] joins(es, pl, i, p, q))) by {
                if before[q as int] {
                    let i = choose|i: int| i < j && #[trigger] joins(es, pl, i, p, q);
                    assert(joins(es, pl, i, p, q));
                }
                if target == Some(q) {
                    assert(joins(es, pl, j as int, p, q));
                }
                if p != q && exists|i: int| i < j + 1 && #[trigger] joins(es, pl, i, p, q) {
                    let i = choose|i: int| i < j + 1 && #[trigger] joins(es, pl, i, p, q);
                    if i < j {
                        assert(before[q as int]);
                    }
                }
            }
        }
        j += 1;
    }
    proof {
        assert forall|q: usize|
            q < count implies #[trigger] row@[q as int] == links(es, pl, p, q) by {
            if links(es, pl, p, q) {
                let i = choose|i: int| #[trigger] joins(es, pl, i, p, q);
                assert(i < edges.len());
            }
        }
    }
    row
}

/// The positions that a row marks, ascending.
fn marked(row: &Vec<bool>, Ghost(pred): Ghost<spec_fn(usize) -> bool>) -> (r: Vec<usize>)
    requires
        forall|q: usize| q < row.len() ==> #[trigger] row@[q as int] == pred(q),
    ensures
        r@ == nodes_below(row.len() as nat).filter(pred),
{
    let n = row.len();
    let mut r: Vec<usize> = Vec::new();
    let mut x: usize = 0;
    proof {
        assert(nodes_below(0) =~= Seq::<usize>::empty());
        reveal(Seq::filter);
        assert(r@ =~= nodes_below(0).filter(pred));
    }
    while x < n
        invariant
            x <= n,
            n == row.len(),
            forall|q: usize| q < row.len() ==> #[trigger] row@[q as int] == pred(q),
            r@ == nodes_below(x as nat).filter(pred),
        decreases n - x,
    {
        proof {
            nodes_below(x as nat).lemma_filter_push(x, pred);
            assert(nodes_below((x + 1) as nat) =~= nodes_below(x as nat).push(x));
        }
        if row[x] {
            r.push(x);
        }
        x += 1;
    }
    r
}

/// The identifiers of `src` that `keep` holds, in the order of `src`.
fn pick(src: &VarSet, keep: &VarSet) -> (r: Vec<Id>)
    ensures
        r@ == var_seq(*src).filter(held_by(var_seq(*keep))),
{
    let n = var_set_len(src);
    let ghost sv = var_seq(*src);
    let ghost pred = held_by(var_seq(*keep));
    let mut r: Vec<Id> = Vec::new();
    let mut i: usize = 0;
    proof {
        assert(sv.take(0) =~= Seq::<Id>::empty());
        reveal(Seq::filter);
        assert(r@ =~= sv.take(0).filter(pred));
    }
    while i < n
        invariant
            i <= n,
            n == sv.len(),
            sv == var_seq(*src),
            pred == held_by(var_seq(*keep)),
            r@ == sv.take(i as int).filter(pred),
        decreases n - i,
    {
        proof {
            sv.take(i as int).lemma_filter_push(sv[i as int], pred);
            assert(sv.take(i + 1) =~= sv.take(i as int).push(sv[i as int]));
        }
        match var_set_get(src, i) {
            Some(v) => {
                if var_set_contains(keep, v) {
                    r.push(v);
                }
            },
            None => {},
        }
        i += 1;
    }
    assert(sv.take(n as int) =~= sv);
    r
}

/// The statements among the units at `nodes`.
#[verifier::rlimit(100)]
fn stmts_of(nodes: &Vec<usize>, ids: &Vec<ItemId>, out: &mut Vec<ModuleItem>)
    requires
        forall|i: int| 0 <= i < nodes.len() ==> (#[trigger] nodes@[i]) < ids.len(),
    ensures
        body_view(final(out)@) == body_view(old(out)@) + nodes@.filter(is_stmt(ids@)).map_values(
            to_stmt(ids@),
        ),
{
    let ghost pred = is_stmt(ids@);
    let ghost conv = to_stmt(ids@);
    let ghost start = body_view(out@);
    let mut i: usize = 0;
    proof {
        assert(nodes@.take(0) =~= Seq::<usize>::empty());
        reveal(Seq::filter);
        assert(body_view(out@) =~= start + nodes@.take(0).filter(pred).map_values(conv));
    }
    while i < nodes.len()
        invariant
            i <= nodes.len(),
            forall|i: int| 0 <= i < nodes.len() ==> (#[trigger] nodes@[i]) < ids.len(),
            pred == is_stmt(ids@),
            conv == to_stmt(ids@),
            start == body_view(old(out)@),
            body_view(out@) == start + nodes@.take(i as int).filter(pred).map_values(conv),
        decreases nodes.len() - i,
    {
        let x = nodes[i];
        let ghost before = body_view(out@);
        proof {
            nodes@.take(i as int).lemma_filter_push(x, pred);
            assert(nodes@.take(i + 1) =~= nodes@.take(i as int).push(x));
        }
        match ids[x] {
            ItemId::Item { index, .. } => {
                out.push(ModuleItem::Stmt { index });
                proof {
                    let kept = nodes@.take(i as int).filter(pred);
                    assert(kept.push(x).map_values(conv) =~= kept.map_values(conv).push(conv(x)));
                    assert(body_view(out@) =~= before.push(conv(x)));
                    assert(body_view(out@) =~= start + kept.push(x).map_values(conv));
                }
            },
            ItemId::Group(_) => {},
        }
        i += 1;
    }
    assert(nodes@.take(nodes.len() as int) =~= nodes@);
}

/// What is known of each part before its body is written.
struct Sketch {
    nodes: Vec<Vec<usize>>,
    decls: Vec<VarSet>,
    needs: Vec<VarSet>,
    rows: Vec<Vec<bool>>,
}

impl Sketch {
    /// The sketch holds, for each of the first `upto` parts, what the split
    /// says of the part.
    spec fn matches(
        &self,
        es: Seq<Edge>,
        f: Seq<ItemView>,
        placed: Seq<Option<usize>>,
        count: nat,
        upto: nat,
    ) -> bool {
        &&& self.nodes.len() == upto
        &&& self.decls.len() == upto
        &&& self.needs.len() == upto
        &&& self.rows.len() == upto
        &&& forall|p: int|
            0 <= p < upto ==> (#[trigger] self.nodes@[p])@ == part_nodes(placed, p as usize)
        &&& forall|p: int, i: int|
            0 <= p < upto && 0 <= i < self.nodes@[p].len() ==> (#[trigger] self.nodes@[p]@[i])
                < placed.len()
        &&& forall|p: int|
            0 <= p < upto ==> var_seq(#[trigger] self.decls@[p]) == part_decls(placed, f, p as usize)
        &&& forall|p: int|
            0 <= p < upto ==> var_seq(#[trigger] self.needs@[p]) == part_needs(placed, f, p as usize)
        &&& forall|p: int| 0 <= p < upto ==> (#[trigger] self.rows@[p]).len() == count
        &&& forall|p: int, q: usize|
            0 <= p < upto && q < count ==> #[trigger] self.rows@[p]@[q as int] == links(
                es,
                placed,
                p as usize,
                q,
            )
    }
}

/// Gathers, for each part, its nodes, what it declares and reads, and the
/// parts on which it depends.
fn sketch(edges: &Vec<Edge>, items: &Vec<Item>, placed: &Vec<Option<usize>>, count: usize) -> (s:
    Sketch)
    requires
        placed.len() == items.len(),
    ensures
        s.matches(edges@, item_views(items@), placed@, count as nat, count as nat),
{
    let ghost es = edges@;
    let ghost f = item_views(items@);
    let mut s = Sketch { nodes: Vec::new(), decls: Vec::new(), needs: Vec::new(), rows: Vec::new() };
    let mut p: usize = 0;
    while p < count
        invariant
            p <= count,
            placed.len() == items.len(),
            es == edges@,
            f == item_views(items@),
            s.matches(es, f, placed@, count as nat, p as nat),
        decreases count - p,
    {
        let nodes = nodes_of(placed, p);
        let decls = gather(&nodes, items, false);
        let needs = gather(&nodes, items, true);
        let row = link_row(edges, placed, count, p);
        let ghost before = s;
        s.nodes.push(nodes);
        s.decls.push(decls);
        s.needs.push(needs);
        s.rows.push(row);
        proof {
            assert forall|a: int, q: usize|
                0 <= a < p + 1 && q < count implies #[trigger] s.rows@[a]@[q as int]
                == links(es, placed@, a as usize, q) by {
                if a < p {
                    assert(s.rows@[a] == before.rows@[a]);
                }
            }
            assert forall|a: int, i: int| 0 <= a < p + 1 && 0 <= i < s.nodes@[a].len() implies (
            #[trigger] s.nodes@[a]@[i]) < placed.len() by {
                if a < p {
                    assert(s.nodes@[a] == before.nodes@[a]);
                }
            }
        }
        p += 1;
    }
    s
}

/// The bindings that the parts which depend on `q` read.
fn wanted_of(s: &Sketch, q: usize, Ghost(es): Ghost<Seq<Edge>>, Ghost(f): Ghost<Seq<ItemView>>, Ghost(
    placed,
): Ghost<Seq<Option<usize>>>) -> (w: VarSet)
    requires
        q < s.rows.len(),
        s.matches(es, f, placed, s.rows.len() as nat, s.rows.len() as nat),
    ensures
        var_seq(w) == wanted(es, placed, f, q, s.rows.len() as nat),
{
    let count = s.rows.len();
    let mut w = var_set_new();
    let mut p: usize = 0;
    while p < count
        invariant
            p <= count,
            q < count,
            count == s.rows.len(),
            s.matches(es, f, placed, count as nat, count as nat),
            var_seq(w) == wanted(es, placed, f, q, p as nat),
        decreases count - p,
    {
        assert(s.rows@[p as int]@[q as int] == links(es, placed, p, q));
        assert(var_seq(s.needs@[p as int]) == part_needs(placed, f, p));
        if s.rows[p][q] {
            var_set_union(&mut w, &s.needs[p]);
        }
        p += 1;
    }
    w
}

/// Writes the body of part `p`.
#[verifier::rlimit(100)]
fn write_part(
    s: &Sketch,
    ids: &Vec<ItemId>,
    p: usize,
    Ghost(es): Ghost<Seq<Edge>>,
    Ghost(f): Ghost<Seq<ItemView>>,
    Ghost(placed): Ghost<Seq<Option<usize>>>,
) -> (r: (Vec<ModuleItem>, Vec<usize>))
    requires
        p < s.rows.len(),
        placed.len() == ids.len(),
        s.matches(es, f, placed, s.rows.len() as nat, s.rows.len() as nat),
    ensures
        body_view(r.0@) == part_body(es, ids@, f, placed, s.rows.len() as nat, p),
        r.1@ == deps(es, placed, s.rows.len() as nat, p),
{
    let count = s.rows.len();
    let ghost conv = to_import(placed, f, p);
    assert(s.rows@[p as int].len() == count);
    let on = marked(&s.rows[p], Ghost(links_from(es, placed, p)));
    proof {
        lemma_filter_below(count as nat, links_from(es, placed, p));
    }
    let mut body: Vec<ModuleItem> = Vec::new();
    let mut i: usize = 0;
    assert(body_view(body@) =~= on@.take(0).map_values(conv));
    while i < on.len()
        invariant
            i <= on.len(),
            p < count,
            count == s.rows.len(),
            s.matches(es, f, placed, count as nat, count as nat),
            conv == to_import(placed, f, p),
            forall|k: int| 0 <= k < on.len() ==> (#[trigger] on@[k]) < count,
            body_view(body@) == on@.take(i as int).map_values(conv),
        decreases on.len() - i,
    {
        let q = on[i];
        assert(var_seq(s.decls@[q as int]) == part_decls(placed, f, q));
        assert(var_seq(s.needs@[p as int]) == part_needs(placed, f, p));
        let names = pick(&s.decls[q], &s.needs[p]);
        let ghost before = body_view(body@);
        body.push(ModuleItem::Import { part: q, names });
        proof {
            assert(body_view(body@) =~= before.push(conv(q)));
            assert(on@.take(i + 1).map_values(conv) =~= on@.take(i as int).map_values(conv).push(
                conv(q),
            ));
        }
        i += 1;
    }
    assert(on@.take(on.len() as int) =~= on@);
    assert(s.nodes@[p as int]@ == part_nodes(placed, p));
    stmts_of(&s.nodes[p], ids, &mut body);
    let w = wanted_of(s, p, Ghost(es), Ghost(f), Ghost(placed));
    assert(var_seq(s.decls@[p as int]) == part_decls(placed, f, p));
    let offered = pick(&s.decls[p], &w);
    let ghost before = body_view(body@);
    if offered.len() > 0 {
        body.push(ModuleItem::Export { names: offered });
        assert(body_view(body@) =~= before.push(ModuleItemView::Export { names: offered@ }));
        assert(before.push(ModuleItemView::Export { names: offered@ }) =~= before
            + seq![ModuleItemView::Export { names: offered@ }]);
    } else {
        assert(before + Seq::<ModuleItemView>::empty() =~= before);
    }
    (body, on)
}

/// The entry points: for each synthetic unit that has a part, its kind and
/// its part.
fn entries(ids: &Vec<ItemId>, placed: &Vec<Option<usize>>) -> (r: Vec<(ItemIdGroupKind, usize)>)
    requires
        ids.len() == placed.len(),
    ensures
        r@ == nodes_below(ids.len() as nat).filter(is_entry(ids@, placed@)).map_values(
            to_entry(ids@, placed@),
        ),
{
    let n = ids.len();
    let ghost pred = is_entry(ids@, placed@);
    let ghost conv = to_entry(ids@, placed@);
    let mut r: Vec<(ItemIdGroupKind, usize)> = Vec::new();
    let mut x: usize = 0;
    proof {
        assert(nodes_below(0) =~= Seq::<usize>::empty());
        reveal(Seq::filter);
        assert(r@ =~= nodes_below(0).filter(pred).map_values(conv));
    }
    while x < n
        invariant
            x <= n,
            n == ids.len(),
            n == placed.len(),
            pred == is_entry(ids@, placed@),
            conv == to_entry(ids@, placed@),
            r@ == nodes_below(x as nat).filter(pred).map_values(conv),
        decreases n - x,
    {
        proof {
            nodes_below(x as nat).lemma_filter_push(x, pred);
            assert(nodes_below((x + 1) as nat) =~= nodes_below(x as nat).push(x));
        }
        match ids[x] {
            ItemId::Group(kind) => {
                match placed[x] {
                    Some(p) => {
                        r.push((kind, p));
                        proof {
                            let kept = nodes_below(x as nat).filter(pred);
                            assert(kept.push(x).map_values(conv) =~= kept.map_values(conv).push(
                                conv(x),
                            ));
                        }
                    },
                    None => {},
                }
            },
            ItemId::Item { .. } => {},
        }
        x += 1;
    }
    r
}

impl DepGraph {
    /// Splits the module into parts.
    ///
    /// The units that are kept and the parts that they go to are those of
    /// [`layout`]. Each part imports the parts on which one of its units
    /// depends, in ascending order, with the bindings that it reads from
    /// each; holds the statements of its units in the order of the module;
    /// and exports the bindings that the parts which depend on it read.
    /// `items` holds the facts of the unit at each node; the parts carry `uri`.
    #[verifier::rlimit(100)]
    pub fn split_module(&self, uri: &str, items: &Vec<Item>) -> (r: SplitModuleResult)
        requires
            self.wf(),
            items.len() == self@.nodes.len(),
        ensures
            r@ == split_of(self@, item_views(items@), uri@),
    {
        let ghost es = self@.edges;
        let ghost ids = self@.nodes;
        let ghost f = item_views(items@);
        assert(self.g.graph_ix@ =~= ids);
        let lay = layout(self.g.idx_graph.all_edges(), &self.g.graph_ix);
        let ghost placed = lay.part_of@;
        let count = lay.count;
        let s = sketch(self.g.idx_graph.all_edges(), items, &lay.part_of, count);
        let mut modules: Vec<Part> = Vec::new();
        let mut part_deps: Vec<Vec<usize>> = Vec::new();
        let mut p: usize = 0;
        while p < count
            invariant
                p <= count,
                count == s.rows.len(),
                count == part_count(es, ids),
                placed == parts_of(es, ids),
                placed.len() == self.g.graph_ix.len(),
                self.g.graph_ix@ == ids,
                s.matches(es, f, placed, count as nat, count as nat),
                modules.len() == p,
                part_deps.len() == p,
                forall|a: int|
                    0 <= a < p ==> (#[trigger] modules@[a])@ == (PartView {
                        uri: uri@,
                        body: part_body(es, ids, f, placed, count as nat, a as usize),
                    }),
                forall|a: int|
                    0 <= a < p ==> (#[trigger] part_deps@[a])@ == deps(
                        es,
                        placed,
                        count as nat,
                        a as usize,
                    ),
            decreases count - p,
        {
            let (body, on) = write_part(&s, &self.g.graph_ix, p, Ghost(es), Ghost(f), Ghost(placed));
            modules.push(Part { uri: uri.to_owned(), body });
            part_deps.push(on);
            p += 1;
        }
        let entrypoints = entries(&self.g.graph_ix, &lay.part_of);
        let r = SplitModuleResult { entrypoints, part_deps, modules };
        proof {
            let want = split_of(self@, f, uri@);
            assert(r@.modules =~= want.modules);
            assert(r@.part_deps =~= want.part_deps);
        }
        r
    }
}

} // verus!
