//! The effect analysis: four passes that record what each unit declares,
//! reads and writes, and add the edges that follow from it.

use crate::condense::filled;
use crate::dep_graph::DepGraph;
use crate::graph::{Dependency, Edge, Key};
use crate::item::{item_views, Item, ItemId, ItemIdGroupKind, ItemView};
use crate::link::{apply_rule, masks_of, rule_row};
use crate::module::{item_ids, Module, Stmt, StmtView};
use crate::reach::Step;
use crate::seqs::{absorb, lemma_absorb_grows};
use crate::var_set::{
    shares, var_seq, var_set_contains, var_set_get, var_set_len, var_set_new, var_set_of,
    var_set_union, var_sets_share, Id, VarSet,
};
use vstd::prelude::*;

verus! {

/// The relations by which the analysis adds edges.
#[derive(Clone, Copy, Debug, PartialEq, Eq, Structural)]
pub enum Rule {
    /// A unit reads a binding that a hoisted unit declares.
    Hoist,
    /// A unit reads a variable that an earlier unit was the last to write.
    Read,
    /// A unit with side effects follows the last such unit before it.
    Chain,
    /// The evaluation of the module needs every unit with side effects.
    Eval,
    /// A closure of a unit reads or writes a variable that another unit
    /// declares or writes, at once or in a closure of its own, wherever that
    /// unit stands.
    Eventual,
    /// An exported name needs every unit that writes its binding.
    Export,
}

/// `b` is the last unit before `a` that writes `v`.
pub open spec fn writes_before(f: Seq<ItemView>, v: Id, b: usize, a: usize) -> bool {
    &&& b < a
    &&& f[b as int].write_vars.contains(v)
    &&& forall|c: usize| b < c < a ==> !(#[trigger] f[c as int]).write_vars.contains(v)
}

/// `b` is the last unit before `a` that has side effects.
pub open spec fn effect_before(f: Seq<ItemView>, b: usize, a: usize) -> bool {
    &&& b < a
    &&& f[b as int].side_effects
    &&& forall|c: usize| b < c < a ==> !(#[trigger] f[c as int]).side_effects
}

/// A closure of the unit reads or writes `v`.
pub open spec fn closure_uses(it: ItemView, v: Id) -> bool {
    it.eventual_read_vars.contains(v) || it.eventual_write_vars.contains(v)
}

/// The unit declares `v`, writes it when it runs, or has a closure that
/// writes it.
pub open spec fn provides(it: ItemView, v: Id) -> bool {
    it.var_decls.contains(v) || it.write_vars.contains(v) || it.eventual_write_vars.contains(v)
}

/// A closure of `x` uses one of the identifiers `e`, and `y` declares it or
/// may write it.
pub open spec fn needs_later(e: Seq<Id>, x: ItemView, y: ItemView) -> bool {
    exists|v: Id| e.contains(v) && #[trigger] closure_uses(x, v) && provides(y, v)
}

/// Whether `rule` relates the unit at position `a` to the unit at position
/// `b`, given the units, their facts, and the identifiers `e` that the rule
/// for closures looks at.
pub open spec fn rule_holds(
    rule: Rule,
    ids: Seq<ItemId>,
    f: Seq<ItemView>,
    e: Seq<Id>,
    a: usize,
    b: usize,
) -> bool {
    a < f.len() && b < f.len() && match rule {
        Rule::Hoist => f[b as int].is_hoisted && shares(
            f[a as int].read_vars,
            f[b as int].var_decls,
        ),
        Rule::Read => exists|v: Id|
            f[a as int].read_vars.contains(v) && #[trigger] writes_before(f, v, b, a),
        Rule::Chain => f[a as int].side_effects && effect_before(f, b, a),
        Rule::Eval => ids[a as int] == ItemId::Group(ItemIdGroupKind::ModuleEvaluation)
            && f[b as int].side_effects,
        Rule::Eventual => needs_later(e, f[a as int], f[b as int]),
        Rule::Export => match ids[a as int] {
            ItemId::Group(ItemIdGroupKind::Export(x)) => f[b as int].write_vars.contains(x),
            _ => false,
        },
    }
}

/// A rule as a relation between positions.
pub open spec fn rule_step(rule: Rule, ids: Seq<ItemId>, f: Seq<ItemView>, e: Seq<Id>) -> Step {
    |a: usize, b: usize| rule_holds(rule, ids, f, e, a, b)
}

/// The edges after a rule was applied to all units: each unit, in order,
/// depends on each unit that the rule relates it to, in order.
pub open spec fn ruled(
    es: Seq<Edge>,
    rule: Rule,
    kind: Dependency,
    ids: Seq<ItemId>,
    f: Seq<ItemView>,
    e: Seq<Id>,
) -> Seq<Edge> {
    apply_rule(es, ids.len(), ids.len(), rule_step(rule, ids, f, e), kind)
}

/// The facts after the first pass: those of a statement's unit are read off
/// the statement, the others stay.
pub open spec fn recorded_facts(ids: Seq<ItemId>, m: Seq<StmtView>, before: Seq<ItemView>) -> Seq<
    ItemView,
> {
    Seq::new(
        ids.len(),
        |k: int|
            match ids[k] {
                ItemId::Item { index, .. } => if index < m.len() {
                    m[index as int].facts()
                } else {
                    before[k]
                },
                ItemId::Group(_) => before[k],
            },
    )
}

/// The identifiers that closures read or write, in the order in which the
/// units mention them.
pub open spec fn eventual_ids(f: Seq<ItemView>) -> Seq<Id>
    decreases f.len(),
{
    if f.len() == 0 {
        Seq::empty()
    } else {
        absorb(
            absorb(eventual_ids(f.drop_last()), f.last().eventual_read_vars),
            f.last().eventual_write_vars,
        )
    }
}

/// The edges after the first pass.
pub open spec fn hoisted_edges(es: Seq<Edge>, ids: Seq<ItemId>, f: Seq<ItemView>) -> Seq<Edge> {
    ruled(es, Rule::Hoist, Dependency::Strong, ids, f, Seq::empty())
}

/// The edges after the second pass.
pub open spec fn immediate_edges(es: Seq<Edge>, ids: Seq<ItemId>, f: Seq<ItemView>) -> Seq<Edge> {
    let e = Seq::<Id>::empty();
    ruled(
        ruled(
            ruled(es, Rule::Read, Dependency::Strong, ids, f, e),
            Rule::Chain,
            Dependency::Strong,
            ids,
            f,
            e,
        ),
        Rule::Eval,
        Dependency::Strong,
        ids,
        f,
        e,
    )
}

/// The edges after the third pass.
pub open spec fn eventual_edges(es: Seq<Edge>, ids: Seq<ItemId>, f: Seq<ItemView>, e: Seq<Id>) -> Seq<
    Edge,
> {
    ruled(es, Rule::Eventual, Dependency::Strong, ids, f, e)
}

/// The edges after the fourth pass.
pub open spec fn export_edges(es: Seq<Edge>, ids: Seq<ItemId>, f: Seq<ItemView>) -> Seq<Edge> {
    ruled(es, Rule::Export, Dependency::Strong, ids, f, Seq::empty())
}

/// The facts that the analysis of a module ends with.
pub open spec fn analysed_facts(m: Seq<StmtView>) -> Seq<ItemView> {
    recorded_facts(item_ids(m), m, Seq::new(item_ids(m).len(), |k: int| ItemView::empty()))
}

/// The edges that the analysis of a module ends with.
pub open spec fn analysed_edges(m: Seq<StmtView>) -> Seq<Edge> {
    let ids = item_ids(m);
    let f = analysed_facts(m);
    export_edges(
        eventual_edges(
            immediate_edges(hoisted_edges(Seq::empty(), ids, f), ids, f),
            ids,
            f,
            eventual_ids(f),
        ),
        ids,
        f,
    )
}

/// The facts of a statement.
pub fn record(s: &Stmt) -> (r: Item)
    ensures
        r@ == s@.facts(),
{
    Item {
        is_hoisted: s.is_hoisted,
        side_effects: s.side_effects,
        var_decls: var_set_of(&s.var_decls),
        read_vars: var_set_of(&s.read_vars),
        eventual_read_vars: var_set_of(&s.eventual_read_vars),
        write_vars: var_set_of(&s.write_vars),
        eventual_write_vars: var_set_of(&s.eventual_write_vars),
    }
}

/// Whether a closure of `x` uses one of the identifiers `e` that `y`
/// declares or may write.
fn later_need(e: &VarSet, x: &Item, y: &Item) -> (r: bool)
    ensures
        r == needs_later(var_seq(*e), x@, y@),
{
    let n = var_set_len(e);
    let ghost ev = var_seq(*e);
    let mut i: usize = 0;
    while i < n
        invariant
            i <= n,
            n == ev.len(),
            ev == var_seq(*e),
            forall|j: int| 0 <= j < i ==> !(closure_uses(x@, #[trigger] ev[j]) && provides(y@, ev[j])),
        decreases n - i,
    {
        match var_set_get(e, i) {
            Some(v) => {
                let used = var_set_contains(&x.eventual_read_vars, v) || var_set_contains(
                    &x.eventual_write_vars,
                    v,
                );
                if used {
                    let given = var_set_contains(&y.var_decls, v) || var_set_contains(
                        &y.write_vars,
                        v,
                    ) || var_set_contains(&y.eventual_write_vars, v);
                    if given {
                        assert(ev.contains(v) && closure_uses(x@, v) && provides(y@, v));
                        return true;
                    }
                }
            },
            None => {},
        }
        i += 1;
    }
    proof {
        if needs_later(ev, x@, y@) {
            let v = choose|v: Id| ev.contains(v) && #[trigger] closure_uses(x@, v) && provides(y@, v);
            let j = ev.index_of(v);
            assert(!(closure_uses(x@, ev[j]) && provides(y@, ev[j])));
        }
    }
    false
}

/// Whether a rule that looks at two units alone relates `a` to `b`.
fn pair_holds(
    rule: Rule,
    ids: &Vec<ItemId>,
    items: &Vec<Item>,
    e: &VarSet,
    a: usize,
    b: usize,
) -> (r: bool)
    requires
        ids.len() == items.len(),
        a < items.len(),
        b < items.len(),
        rule != Rule::Read,
        rule != Rule::Chain,
    ensures
        r == rule_holds(rule, ids@, item_views(items@), var_seq(*e), a, b),
{
    let x = &items[a];
    let y = &items[b];
    match rule {
        Rule::Hoist => y.is_hoisted && var_sets_share(&x.read_vars, &y.var_decls),
        Rule::Eval => {
            let is_eval = match ids[a] {
                ItemId::Group(ItemIdGroupKind::ModuleEvaluation) => true,
                _ => false,
            };
            is_eval && y.side_effects
        },
        Rule::Eventual => later_need(e, x, y),
        Rule::Export => match ids[a] {
            ItemId::Group(ItemIdGroupKind::Export(v)) => var_set_contains(&y.write_vars, v),
            _ => false,
        },
        Rule::Read => false,
        Rule::Chain => false,
    }
}

/// The last unit before `a` that writes `v`.
fn last_writer(items: &Vec<Item>, v: Id, a: usize) -> (r: Option<usize>)
    requires
        a <= items.len(),
    ensures
        match r {
            Some(b) => writes_before(item_views(items@), v, b, a),
            None => forall|b: usize| !writes_before(item_views(items@), v, b, a),
        },
{
    let ghost f = item_views(items@);
    let mut b = a;
    while b > 0
        invariant
            b <= a,
            a <= items.len(),
            f == item_views(items@),
            forall|c: usize| b <= c < a ==> !(#[trigger] f[c as int]).write_vars.contains(v),
        decreases b,
    {
        b -= 1;
        if var_set_contains(&items[b].write_vars, v) {
            assert(f[b as int].write_vars.contains(v));
            return Some(b);
        }
    }
    proof {
        assert forall|b: usize| !writes_before(f, v, b, a) by {
            if b < a {
                assert(!f[b as int].write_vars.contains(v));
            }
        }
    }
    None
}

/// Two different units are not both the last writer of a variable.
proof fn lemma_one_writer(f: Seq<ItemView>, v: Id, b: usize, c: usize, a: usize)
    requires
        writes_before(f, v, b, a),
        writes_before(f, v, c, a),
    ensures
        b == c,
{
    if b < c {
        assert(!f[c as int].write_vars.contains(v));
    } else if c < b {
        assert(!f[b as int].write_vars.contains(v));
    }
}

/// The marks of the units that were the last to write what `a` reads.
#[verifier::rlimit(100)]
fn read_row(items: &Vec<Item>, a: usize, Ghost(ids): Ghost<Seq<ItemId>>) -> (row: Vec<bool>)
    requires
        a < items.len(),
    ensures
        row@ == rule_row(
            rule_step(Rule::Read, ids, item_views(items@), Seq::empty()),
            a,
            items.len() as nat,
        ),
{
    let n = items.len();
    let ghost f = item_views(items@);
    let ghost reads = f[a as int].read_vars;
    let mut row = filled(n, false);
    let m = var_set_len(&items[a].read_vars);
    let mut k: usize = 0;
    while k < m
        invariant
            k <= m,
            m == reads.len(),
            a < n,
            n == items.len(),
            row.len() == n,
            f == item_views(items@),
            reads == f[a as int].read_vars,
            forall|b: usize|
                b < n ==> (#[trigger] row@[b as int] <==> exists|j: int|
                    0 <= j < k && #[trigger] writes_before(f, reads[j], b, a)),
        decreases m - k,
    {
        let ghost before = row@;
        match var_set_get(&items[a].read_vars, k) {
            Some(v) => {
                match last_writer(items, v, a) {
                    Some(w) => {
                        row.set(w, true);
                        proof {
                            assert forall|b: usize| b < n implies (#[trigger] row@[b as int]
                                <==> exists|j: int|
                                0 <= j < k + 1 && #[trigger] writes_before(f, reads[j], b, a)) by {
                                if b == w {
                                    assert(writes_before(f, reads[k as int], b, a));
                                } else {
                                    if exists|j: int|
                                        0 <= j < k + 1 && #[trigger] writes_before(
                                            f,
                                            reads[j],
                                            b,
                                            a,
                                        ) {
                                        let j = choose|j: int|
                                            0 <= j < k + 1 && #[trigger] writes_before(
                                                f,
                                                reads[j],
                                                b,
                                                a,
                                            );
                                        if j == k {
                                            lemma_one_writer(f, v, b, w, a);
                                        }
                                        assert(writes_before(f, reads[j], b, a));
                                        assert(before[b as int]);
                                    }
                                    if before[b as int] {
                                        let j = choose|j: int|
                                            0 <= j < k && #[trigger] writes_before(
                                                f,
                                                reads[j],
                                                b,
                                                a,
                                            );
                                        assert(writes_before(f, reads[j], b, a));
                                    }
                                }
                            }
                        }
                    },
                    None => {
                        proof {
                            assert forall|b: usize| b < n implies (#[trigger] row@[b as int]
                                <==> exists|j: int|
                                0 <= j < k + 1 && #[trigger] writes_before(f, reads[j], b, a)) by {
                                if exists|j: int|
                                    0 <= j < k + 1 && #[trigger] writes_before(f, reads[j], b, a) {
                                    let j = choose|j: int|
                                        0 <= j < k + 1 && #[trigger] writes_before(
                                            f,
                                            reads[j],
                                            b,
                                            a,
                                        );
                                    assert(j != k);
                                    assert(writes_before(f, reads[j], b, a));
                                }
                                if before[b as int] {
                                    let j = choose|j: int|
                                        0 <= j < k && #[trigger] writes_before(f, reads[j], b, a);
                                    assert(writes_before(f, reads[j], b, a));
                                }
                            }
                        }
                    },
                }
            },
            None => {},
        }
        k += 1;
    }
    proof {
        let step = rule_step(Rule::Read, ids, f, Seq::empty());
        let want = rule_row(step, a, n as nat);
        assert forall|b: int| 0 <= b < n implies row@[b] == want[b] by {
            let bu = b as usize;
            if row@[b] {
                let j = choose|j: int| 0 <= j < m && #[trigger] writes_before(f, reads[j], bu, a);
                assert(reads.contains(reads[j]));
                assert(rule_holds(Rule::Read, ids, f, Seq::empty(), a, bu));
            }
            if rule_holds(Rule::Read, ids, f, Seq::empty(), a, bu) {
                let v = choose|v: Id| reads.contains(v) && #[trigger] writes_before(f, v, bu, a);
                let j = reads.index_of(v);
                assert(writes_before(f, reads[j], bu, a));
            }
        }
        assert(row@ =~= want);
    }
    row
}

/// The mark of the last unit with side effects before `a`, if `a` has side
/// effects itself.
#[verifier::rlimit(100)]
fn chain_row(items: &Vec<Item>, a: usize, Ghost(ids): Ghost<Seq<ItemId>>) -> (row: Vec<bool>)
    requires
        a < items.len(),
    ensures
        row@ == rule_row(
            rule_step(Rule::Chain, ids, item_views(items@), Seq::empty()),
            a,
            items.len() as nat,
        ),
{
    let n = items.len();
    let ghost f = item_views(items@);
    let mut row = filled(n, false);
    let mut found = false;
    if items[a].side_effects {
        let mut b = a;
        while b > 0 && !found
            invariant
                b <= a,
                a < n,
                n == items.len(),
                row.len() == n,
                f == item_views(items@),
                !found ==> forall|c: usize| b <= c < a ==> !(#[trigger] f[c as int]).side_effects,
                !found ==> forall|c: int| 0 <= c < n ==> !row@[c],
                found ==> effect_before(f, b, a),
                found ==> forall|c: int| 0 <= c < n ==> row@[c] == (c == b),
            decreases b,
        {
            b -= 1;
            if items[b].side_effects {
                assert(f[b as int].side_effects);
                row.set(b, true);
                found = true;
            }
        }
        proof {
            let step = rule_step(Rule::Chain, ids, f, Seq::empty());
            let want = rule_row(step, a, n as nat);
            assert forall|c: int| 0 <= c < n implies row@[c] == want[c] by {
                let cu = c as usize;
                if effect_before(f, cu, a) {
                    if found {
                        if cu < b {
                            assert(!f[b as int].side_effects);
                        } else if b < cu {
                            assert(!f[cu as int].side_effects);
                        }
                    } else {
                        assert(!f[cu as int].side_effects);
                    }
                }
            }
            assert(row@ =~= want);
        }
    } else {
        proof {
            let step = rule_step(Rule::Chain, ids, f, Seq::empty());
            assert(row@ =~= rule_row(step, a, n as nat));
        }
    }
    row
}

/// For every unit the marks of the units that a rule relates it to.
#[verifier::rlimit(100)]
fn rule_masks(rule: Rule, ids: &Vec<ItemId>, items: &Vec<Item>, e: &VarSet) -> (masks: Vec<
    Vec<bool>,
>)
    requires
        ids.len() == items.len(),
        rule == Rule::Eventual || var_seq(*e).len() == 0,
    ensures
        masks_of(
            masks@,
            rule_step(rule, ids@, item_views(items@), var_seq(*e)),
            items.len() as nat,
        ),
{
    let n = items.len();
    let ghost f = item_views(items@);
    let ghost step = rule_step(rule, ids@, f, var_seq(*e));
    let mut masks: Vec<Vec<bool>> = Vec::new();
    let mut a: usize = 0;
    while a < n
        invariant
            a <= n,
            n == items.len(),
            ids.len() == n,
            rule == Rule::Eventual || var_seq(*e).len() == 0,
            f == item_views(items@),
            step == rule_step(rule, ids@, f, var_seq(*e)),
            masks.len() == a,
            forall|x: int|
                0 <= x < a ==> (#[trigger] masks@[x])@ == rule_row(step, x as usize, n as nat),
        decreases n - a,
    {
        let row = match rule {
            Rule::Read => {
                assert(var_seq(*e) =~= Seq::<Id>::empty());
                read_row(items, a, Ghost(ids@))
            },
            Rule::Chain => {
                assert(var_seq(*e) =~= Seq::<Id>::empty());
                chain_row(items, a, Ghost(ids@))
            },
            _ => {
                let mut row: Vec<bool> = Vec::new();
                let mut b: usize = 0;
                while b < n
                    invariant
                        b <= n,
                        a < n,
                        n == items.len(),
                        ids.len() == n,
                        rule != Rule::Read,
                        rule != Rule::Chain,
                        f == item_views(items@),
                        step == rule_step(rule, ids@, f, var_seq(*e)),
                        row.len() == b,
                        forall|y: int| 0 <= y < b ==> row@[y] == step(a, y as usize),
                    decreases n - b,
                {
                    row.push(pair_holds(rule, ids, items, e, a, b));
                    b += 1;
                }
                assert(row@ =~= rule_row(step, a, n as nat));
                row
            },
        };
        masks.push(row);
        a += 1;
    }
    masks
}

/// The state of the analysis of one module: the graph, the units, and the
/// facts of each unit at the position of the unit.
pub struct Analyzer {
    pub g: DepGraph,
    pub item_ids: Vec<ItemId>,
    pub items: Vec<Item>,
}

impl Analyzer {
    /// The nodes of the graph are the units, and every unit has facts.
    pub open spec fn wf(&self) -> bool {
        &&& self.g.wf()
        &&& self.g@.nodes == self.item_ids@
        &&& self.items.len() == self.item_ids.len()
    }

    /// Whether the nodes of the graph are the units and every unit has facts.
    pub fn is_wf(&self) -> (r: bool)
        ensures
            r == self.wf(),
    {
        if !self.g.is_wf() || self.items.len() != self.item_ids.len() {
            return false;
        }
        let same = self.g.g.graph_ix.same(&self.item_ids);
        assert(self.g@.nodes =~= self.g.g.graph_ix@);
        same
    }

    /// The facts, by position.
    pub open spec fn facts(&self) -> Seq<ItemView> {
        item_views(self.items@)
    }

    /// The analysis of a module before its first pass: the units of the
    /// module, empty facts, no edges.
    pub fn new(module: &Module) -> (a: Analyzer)
        ensures
            a.wf(),
            a.item_ids@ == item_ids(module@),
            a.g@.edges == Seq::<Edge>::empty(),
            a.facts() == Seq::new(a.item_ids@.len(), |k: int| ItemView::empty()),
    {
        let mut g = DepGraph::new();
        let (item_ids, items) = g.init(module);
        let a = Analyzer { g, item_ids, items };
        assert(a.facts() =~= Seq::new(a.item_ids@.len(), |k: int| ItemView::empty()));
        a
    }

    /// Applies one rule to the graph.
    fn apply(&mut self, rule: Rule, kind: Dependency, e: &VarSet)
        requires
            old(self).wf(),
            rule == Rule::Eventual || var_seq(*e).len() == 0,
        ensures
            final(self).wf(),
            final(self).item_ids@ == old(self).item_ids@,
            final(self).facts() == old(self).facts(),
            final(self).g@.edges == ruled(
                old(self).g@.edges,
                rule,
                kind,
                old(self).item_ids@,
                old(self).facts(),
                var_seq(*e),
            ),
    {
        let masks = rule_masks(rule, &self.item_ids, &self.items, e);
        let ghost step = rule_step(rule, self.item_ids@, self.facts(), var_seq(*e));
        self.g.apply_masks(&masks, kind, Ghost(step));
    }

    /// The first pass. Records the facts of every statement, and makes every
    /// unit that reads a binding depend strongly on the hoisted units that
    /// declare it, wherever they stand. Gives back the identifiers whose use
    /// is observed only when a closure runs: those that closures read or
    /// write.
    #[verifier::rlimit(100)]
    pub fn hoist_vars_and_bindings(&mut self, module: &Module) -> (eventual: VarSet)
        requires
            old(self).wf(),
        ensures
            final(self).wf(),
            final(self).item_ids@ == old(self).item_ids@,
            final(self).facts() == recorded_facts(old(self).item_ids@, module@, old(self).facts()),
            final(self).g@.edges == hoisted_edges(
                old(self).g@.edges,
                final(self).item_ids@,
                final(self).facts(),
            ),
            var_seq(eventual) == eventual_ids(final(self).facts()),
    {
        let n = self.item_ids.len();
        let ghost before = self.facts();
        let ghost want = recorded_facts(self.item_ids@, module@, before);
        let mut k: usize = 0;
        while k < n
            invariant
                k <= n,
                n == self.item_ids.len(),
                self.wf(),
                self.item_ids@ == old(self).item_ids@,
                self.g@ == old(self).g@,
                before == old(self).facts(),
                want == recorded_facts(self.item_ids@, module@, before),
                before.len() == n,
                self.items.len() == n,
                forall|j: int| 0 <= j < k ==> (#[trigger] self.items@[j])@ == want[j],
                forall|j: int| k <= j < n ==> (#[trigger] self.items@[j])@ == before[j],
            decreases n - k,
        {
            match self.item_ids[k] {
                ItemId::Item { index, .. } => {
                    if index < module.body.len() {
                        let item = record(&module.body[index]);
                        self.items.set(k, item);
                    }
                },
                ItemId::Group(_) => {},
            }
            k += 1;
        }
        assert(self.facts() =~= want);
        let mut eventual = var_set_new();
        let mut i: usize = 0;
        assert(self.facts().take(0) =~= Seq::<ItemView>::empty());
        while i < n
            invariant
                i <= n,
                n == self.items.len(),
                var_seq(eventual) == eventual_ids(self.facts().take(i as int)),
            decreases n - i,
        {
            proof {
                let t = self.facts().take(i + 1);
                assert(t.drop_last() =~= self.facts().take(i as int));
                assert(t.last() == self.items@[i as int]@);
            }
            var_set_union(&mut eventual, &self.items[i].eventual_read_vars);
            var_set_union(&mut eventual, &self.items[i].eventual_write_vars);
            i += 1;
        }
        assert(self.facts().take(n as int) =~= self.facts());
        let none = var_set_new();
        self.apply(Rule::Hoist, Dependency::Strong, &none);
        eventual
    }

    /// The second pass. Every unit comes to depend strongly on the unit
    /// that was the last before it to write a variable that it reads; every
    /// unit with side effects on the last such unit before it; and the
    /// evaluation of the module on every unit with side effects.
    pub fn evaluate_immediate(&mut self)
        requires
            old(self).wf(),
        ensures
            final(self).wf(),
            final(self).item_ids@ == old(self).item_ids@,
            final(self).facts() == old(self).facts(),
            final(self).g@.edges == immediate_edges(
                old(self).g@.edges,
                old(self).item_ids@,
                old(self).facts(),
            ),
    {
        let none = var_set_new();
        self.apply(Rule::Read, Dependency::Strong, &none);
        self.apply(Rule::Chain, Dependency::Strong, &none);
        self.apply(Rule::Eval, Dependency::Strong, &none);
    }

    /// The third pass. Every unit whose closures read or write one of
    /// `eventual_ids` comes to depend strongly on every unit that declares it
    /// or may write it, at once or in a closure, before or after.
    pub fn evaluate_eventual(&mut self, eventual_ids: &VarSet)
        requires
            old(self).wf(),
        ensures
            final(self).wf(),
            final(self).item_ids@ == old(self).item_ids@,
            final(self).facts() == old(self).facts(),
            final(self).g@.edges == eventual_edges(
                old(self).g@.edges,
                old(self).item_ids@,
                old(self).facts(),
                var_seq(*eventual_ids),
            ),
    {
        self.apply(Rule::Eventual, Dependency::Strong, eventual_ids);
    }

    /// The fourth pass. The unit of every exported name comes to depend
    /// strongly on every unit that writes the exported binding.
    pub fn handle_exports(&mut self)
        requires
            old(self).wf(),
        ensures
            final(self).wf(),
            final(self).item_ids@ == old(self).item_ids@,
            final(self).facts() == old(self).facts(),
            final(self).g@.edges == export_edges(
                old(self).g@.edges,
                old(self).item_ids@,
                old(self).facts(),
            ),
    {
        let none = var_set_new();
        self.apply(Rule::Export, Dependency::Strong, &none);
    }

    /// Analyses a module: sets up its units and runs the four passes.
    pub fn analyze(module: &Module) -> (a: Analyzer)
        ensures
            a.wf(),
            a.item_ids@ == item_ids(module@),
            a.facts() == analysed_facts(module@),
            a.g@.edges == analysed_edges(module@),
    {
        let mut a = Analyzer::new(module);
        let eventual = a.hoist_vars_and_bindings(module);
        a.evaluate_immediate();
        a.evaluate_eventual(&eventual);
        a.handle_exports();
        a
    }
}

/// The identifiers that the first pass gives back hold every identifier that
/// a closure of a unit reads or writes.
pub proof fn lemma_eventual_ids_cover(f: Seq<ItemView>, k: int, v: Id)
    requires
        0 <= k < f.len(),
        closure_uses(f[k], v),
    ensures
        eventual_ids(f).contains(v),
    decreases f.len(),
{
    let front = f.drop_last();
    let mid = absorb(eventual_ids(front), f.last().eventual_read_vars);
    lemma_absorb_grows(eventual_ids(front), f.last().eventual_read_vars);
    lemma_absorb_grows(mid, f.last().eventual_write_vars);
    if k < f.len() - 1 {
        assert(front[k] == f[k]);
        lemma_eventual_ids_cover(front, k, v);
    }
}

} // verus!
