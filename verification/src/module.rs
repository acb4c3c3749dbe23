//! The analysed module: a sequence of statements, each with the identifier
//! occurrences that the parser found in it.

use crate::item::{ItemId, ItemIdGroupKind, ItemIdItemKind, ItemView};
use crate::seqs::{absorb, distinct, lemma_absorb_grows};
use crate::var_set::Id;
use vstd::prelude::*;

verus! {

/// One top-level statement, as the analysis sees it.
pub struct Stmt {
    /// Whether the statement is a declaration.
    pub kind: ItemIdItemKind,
    /// The declaration takes effect before its place in the text.
    pub is_hoisted: bool,
    /// Running the statement can be observed beyond the bindings it makes.
    pub side_effects: bool,
    /// The identifiers that the statement binds.
    pub var_decls: Vec<Id>,
    /// The identifiers read when the statement runs.
    pub read_vars: Vec<Id>,
    /// The identifiers written when the statement runs.
    pub write_vars: Vec<Id>,
    /// The identifiers read inside closures that the statement makes.
    pub eventual_read_vars: Vec<Id>,
    /// The identifiers written inside closures that the statement makes.
    pub eventual_write_vars: Vec<Id>,
    /// The bindings that the statement exports.
    pub exports: Vec<Id>,
}

/// The mathematical content of a [`Stmt`].
pub struct StmtView {
    pub kind: ItemIdItemKind,
    pub is_hoisted: bool,
    pub side_effects: bool,
    pub var_decls: Seq<Id>,
    pub read_vars: Seq<Id>,
    pub write_vars: Seq<Id>,
    pub eventual_read_vars: Seq<Id>,
    pub eventual_write_vars: Seq<Id>,
    pub exports: Seq<Id>,
}

impl View for Stmt {
    type V = StmtView;

    open spec fn view(&self) -> StmtView {
        StmtView {
            kind: self.kind,
            is_hoisted: self.is_hoisted,
            side_effects: self.side_effects,
            var_decls: self.var_decls@,
            read_vars: self.read_vars@,
            write_vars: self.write_vars@,
            eventual_read_vars: self.eventual_read_vars@,
            eventual_write_vars: self.eventual_write_vars@,
            exports: self.exports@,
        }
    }
}

impl StmtView {
    /// What the analysis records about the statement: each list of
    /// occurrences becomes the set of its identifiers, in the order of their
    /// first occurrence.
    pub open spec fn facts(self) -> ItemView {
        ItemView {
            is_hoisted: self.is_hoisted,
            side_effects: self.side_effects,
            var_decls: distinct(self.var_decls),
            read_vars: distinct(self.read_vars),
            eventual_read_vars: distinct(self.eventual_read_vars),
            write_vars: distinct(self.write_vars),
            eventual_write_vars: distinct(self.eventual_write_vars),
        }
    }
}

/// A module: its statements in textual order, and the names of its
/// identifiers, by identifier.
pub struct Module {
    pub names: Vec<String>,
    pub body: Vec<Stmt>,
}

/// The views of a sequence of statements.
pub open spec fn stmt_views(s: Seq<Stmt>) -> Seq<StmtView> {
    Seq::new(s.len(), |i: int| s[i]@)
}

impl View for Module {
    type V = Seq<StmtView>;

    open spec fn view(&self) -> Seq<StmtView> {
        stmt_views(self.body@)
    }
}

/// The exported names of a module, each once, in the order of their first
/// export.
pub open spec fn export_names(m: Seq<StmtView>) -> Seq<Id>
    decreases m.len(),
{
    if m.len() == 0 {
        Seq::empty()
    } else {
        absorb(export_names(m.drop_last()), m.last().exports)
    }
}

/// The units of a module: the evaluation of the module, then one unit for
/// each statement in textual order, then one for each exported name.
pub open spec fn item_ids(m: Seq<StmtView>) -> Seq<ItemId> {
    seq![ItemId::Group(ItemIdGroupKind::ModuleEvaluation)] + Seq::new(
        m.len(),
        |i: int| ItemId::Item { index: i as usize, kind: m[i].kind },
    ) + Seq::new(
        export_names(m).len(),
        |k: int| ItemId::Group(ItemIdGroupKind::Export(export_names(m)[k])),
    )
}

/// The export names are distinct.
pub proof fn lemma_export_names_distinct(m: Seq<StmtView>)
    ensures
        export_names(m).no_duplicates(),
    decreases m.len(),
{
    if m.len() > 0 {
        lemma_export_names_distinct(m.drop_last());
        lemma_absorb_grows(export_names(m.drop_last()), m.last().exports);
    }
}

/// No unit of a module occurs twice among its units.
pub proof fn lemma_item_ids_distinct(m: Seq<StmtView>)
    requires
        m.len() <= usize::MAX,
    ensures
        item_ids(m).no_duplicates(),
{
    lemma_export_names_distinct(m);
    let ids = item_ids(m);
    let ex = export_names(m);
    assert forall|i: int, j: int| 0 <= i < ids.len() && 0 <= j < ids.len() && i != j implies ids[i]
        != ids[j] by {
        if i > m.len() && j > m.len() {
            assert(ids[i] == ItemId::Group(ItemIdGroupKind::Export(ex[i - 1 - m.len()])));
            assert(ids[j] == ItemId::Group(ItemIdGroupKind::Export(ex[j - 1 - m.len()])));
        }
    }
}

} // verus!
