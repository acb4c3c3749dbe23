//! The units that the dependency graph is made of, and what the analysis
//! knows about each of them.

use crate::graph::Key;
use crate::var_set::{var_seq, var_set_new, Id, VarSet};
use vstd::prelude::*;

verus! {

/// Whether a statement only binds names or does other work.
#[derive(Clone, Copy, Debug, PartialEq, Eq, Hash, Structural)]
pub enum ItemIdItemKind {
    /// An ordinary statement.
    Normal,
    /// A declaration: it introduces bindings.
    Declaration,
}

/// The synthetic units, which stand for no statement.
#[derive(Clone, Copy, Debug, PartialEq, Eq, Hash, Structural)]
pub enum ItemIdGroupKind {
    /// The module has been evaluated.
    ModuleEvaluation,
    /// The binding exported under this name.
    Export(Id),
}

/// The identity of one node of the dependency graph.
#[derive(Clone, Copy, Debug, PartialEq, Eq, Hash, Structural)]
pub enum ItemId {
    Group(ItemIdGroupKind),
    /// The statement at position `index` of the module.
    Item { index: usize, kind: ItemIdItemKind },
}

impl ItemId {
    /// Whether this is a synthetic unit.
    pub open spec fn is_group(&self) -> bool {
        self is Group
    }

    /// Whether this is a synthetic unit.
    #[verifier::when_used_as_spec(is_group)]
    pub fn group(&self) -> (r: bool)
        ensures
            r == self.is_group(),
    {
        match self {
            ItemId::Group(_) => true,
            ItemId::Item { .. } => false,
        }
    }
}

impl View for ItemId {
    type V = ItemId;

    open spec fn view(&self) -> ItemId {
        *self
    }
}

impl Key for ItemId {
    fn same(&self, other: &Self) -> (r: bool) {
        *self == *other
    }

    fn dup(&self) -> (r: Self) {
        *self
    }
}

impl Key for Vec<ItemId> {
    fn same(&self, other: &Self) -> (r: bool) {
        if self.len() != other.len() {
            return false;
        }
        let mut i: usize = 0;
        while i < self.len()
            invariant
                i <= self.len(),
                self.len() == other.len(),
                forall|j: int| 0 <= j < i ==> self@[j] == other@[j],
            decreases self.len() - i,
        {
            if self[i] != other[i] {
                return false;
            }
            i += 1;
        }
        assert(self@ =~= other@);
        true
    }

    fn dup(&self) -> (r: Self) {
        let mut r: Vec<ItemId> = Vec::new();
        let mut i: usize = 0;
        while i < self.len()
            invariant
                i <= self.len(),
                r@ == self@.take(i as int),
            decreases self.len() - i,
        {
            r.push(self[i]);
            assert(self@.take(i as int).push(self@[i as int]) =~= self@.take(i + 1));
            i += 1;
        }
        assert(self@.take(self.len() as int) =~= self@);
        r
    }
}

/// What the analysis knows about one unit.
pub struct Item {
    /// The declaration takes effect before its place in the text.
    pub is_hoisted: bool,
    /// Running the unit can be observed beyond the bindings it makes.
    pub side_effects: bool,
    /// The identifiers that the unit binds.
    pub var_decls: VarSet,
    /// The identifiers read when the unit runs.
    pub read_vars: VarSet,
    /// The identifiers read only when a closure made by the unit is called.
    pub eventual_read_vars: VarSet,
    /// The identifiers written when the unit runs.
    pub write_vars: VarSet,
    /// The identifiers written only when a closure made by the unit is called.
    pub eventual_write_vars: VarSet,
}

/// The mathematical content of an [`Item`].
pub struct ItemView {
    pub is_hoisted: bool,
    pub side_effects: bool,
    pub var_decls: Seq<Id>,
    pub read_vars: Seq<Id>,
    pub eventual_read_vars: Seq<Id>,
    pub write_vars: Seq<Id>,
    pub eventual_write_vars: Seq<Id>,
}

impl ItemView {
    /// The facts of a unit about which nothing is known.
    pub open spec fn empty() -> ItemView {
        ItemView {
            is_hoisted: false,
            side_effects: false,
            var_decls: Seq::empty(),
            read_vars: Seq::empty(),
            eventual_read_vars: Seq::empty(),
            write_vars: Seq::empty(),
            eventual_write_vars: Seq::empty(),
        }
    }
}

impl View for Item {
    type V = ItemView;

    open spec fn view(&self) -> ItemView {
        ItemView {
            is_hoisted: self.is_hoisted,
            side_effects: self.side_effects,
            var_decls: var_seq(self.var_decls),
            read_vars: var_seq(self.read_vars),
            eventual_read_vars: var_seq(self.eventual_read_vars),
            write_vars: var_seq(self.write_vars),
            eventual_write_vars: var_seq(self.eventual_write_vars),
        }
    }
}

impl Default for Item {
    fn default() -> (r: Item)
        ensures
            r@ == ItemView::empty(),
    {
        Item {
            is_hoisted: false,
            side_effects: false,
            var_decls: var_set_new(),
            read_vars: var_set_new(),
            eventual_read_vars: var_set_new(),
            write_vars: var_set_new(),
            eventual_write_vars: var_set_new(),
        }
    }
}

/// The views of a table of facts, by position.
pub open spec fn item_views(s: Seq<Item>) -> Seq<ItemView> {
    Seq::new(s.len(), |i: int| s[i]@)
}

} // verus!
