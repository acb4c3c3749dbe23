//! Insertion-ordered sets of identifiers, kept in an `indexmap::IndexSet`
//! hashed with `rustc_hash::FxHasher`.

use crate::seqs::{absorb, distinct};
use core::hash::BuildHasherDefault;
use indexmap::IndexSet;
use rustc_hash::FxHasher;
use vstd::prelude::*;

verus! {

/// An identifier of the analysed module: the number that the parser gave to
/// one binding. Two occurrences denote the same binding exactly when their
/// numbers are equal.
pub type Id = u32;

/// `rustc_hash::FxHasher`, of which nothing is said.
#[verifier::external_type_specification]
#[verifier::external_body]
pub struct ExFxHasher(FxHasher);

/// `core::hash::BuildHasherDefault`, of which nothing is said.
#[verifier::external_type_specification]
#[verifier::external_body]
#[verifier::reject_recursive_types(H)]
pub struct ExBuildHasherDefault<H>(BuildHasherDefault<H>);

/// `indexmap::IndexSet`. What a set of identifiers holds is [`var_seq`];
/// nothing else is said of it.
#[verifier::external_type_specification]
#[verifier::external_body]
#[verifier::reject_recursive_types(T)]
#[verifier::reject_recursive_types(S)]
pub struct ExIndexSet<T, S>(IndexSet<T, S>);

/// A set of identifiers that remembers the order in which they were inserted.
pub type VarSet = IndexSet<Id, BuildHasherDefault<FxHasher>>;

/// The identifiers that a set holds, in the order in which `IndexSet` hands
/// them out, which is the order in which they were inserted.
pub uninterp spec fn var_seq(s: VarSet) -> Seq<Id>;

/// `IndexSet::default`: a set that holds nothing.
#[verifier::external_body]
pub(crate) fn var_set_new() -> (s: VarSet)
    ensures
        var_seq(s) == Seq::<Id>::empty(),
{
    IndexSet::default()
}

/// `IndexSet::insert`: a value that the set already holds leaves the set as it
/// was and gives `false`; any other value is appended behind the values already
/// there and gives `true`.
#[verifier::external_body]
pub(crate) fn var_set_insert(s: &mut VarSet, id: Id) -> (fresh: bool)
    ensures
        fresh == !var_seq(*old(s)).contains(id),
        var_seq(*final(s)) == if fresh {
            var_seq(*old(s)).push(id)
        } else {
            var_seq(*old(s))
        },
{
    s.insert(id)
}

/// `IndexSet::contains`: whether the set holds the value.
#[verifier::external_body]
pub(crate) fn var_set_contains(s: &VarSet, id: Id) -> (found: bool)
    ensures
        found == var_seq(*s).contains(id),
{
    s.contains(&id)
}

/// `IndexSet::len`: the number of values in the set.
#[verifier::external_body]
pub(crate) fn var_set_len(s: &VarSet) -> (n: usize)
    ensures
        n == var_seq(*s).len(),
{
    s.len()
}

/// `IndexSet::get_index`: the value at a position of the insertion order, and
/// `None` from the set's length on.
#[verifier::external_body]
pub(crate) fn var_set_get(s: &VarSet, i: usize) -> (r: Option<Id>)
    ensures
        r == if i < var_seq(*s).len() {
            Some(var_seq(*s)[i as int])
        } else {
            None
        },
{
    s.get_index(i).copied()
}

/// Adds the identifiers of a list to a set, in order.
pub fn var_set_extend(dst: &mut VarSet, src: &Vec<Id>)
    ensures
        var_seq(*final(dst)) == absorb(var_seq(*old(dst)), src@),
{
    let mut i: usize = 0;
    assert(src@.take(0) =~= Seq::<Id>::empty());
    while i < src.len()
        invariant
            i <= src.len(),
            var_seq(*dst) == absorb(var_seq(*old(dst)), src@.take(i as int)),
        decreases src.len() - i,
    {
        proof {
            let t = src@.take(i + 1);
            assert(t.drop_last() =~= src@.take(i as int));
            assert(t.last() == src@[i as int]);
        }
        let _ = var_set_insert(dst, src[i]);
        i += 1;
    }
    assert(src@.take(src.len() as int) =~= src@);
}

/// Adds the identifiers of a set to another set, in order.
pub fn var_set_union(dst: &mut VarSet, src: &VarSet)
    ensures
        var_seq(*final(dst)) == absorb(var_seq(*old(dst)), var_seq(*src)),
{
    let n = var_set_len(src);
    let ghost more = var_seq(*src);
    let mut i: usize = 0;
    assert(more.take(0) =~= Seq::<Id>::empty());
    while i < n
        invariant
            i <= n,
            n == more.len(),
            more == var_seq(*src),
            var_seq(*dst) == absorb(var_seq(*old(dst)), more.take(i as int)),
        decreases n - i,
    {
        proof {
            let t = more.take(i + 1);
            assert(t.drop_last() =~= more.take(i as int));
            assert(t.last() == more[i as int]);
        }
        match var_set_get(src, i) {
            Some(v) => {
                let _ = var_set_insert(dst, v);
            },
            None => {},
        }
        i += 1;
    }
    assert(more.take(n as int) =~= more);
}

/// The set of the identifiers of a list, in the order of their first
/// occurrence.
pub fn var_set_of(src: &Vec<Id>) -> (s: VarSet)
    ensures
        var_seq(s) == distinct(src@),
{
    let mut s = var_set_new();
    var_set_extend(&mut s, src);
    s
}

/// Two sequences have an identifier in common.
pub open spec fn shares(s: Seq<Id>, t: Seq<Id>) -> bool {
    exists|v: Id| #[trigger] s.contains(v) && t.contains(v)
}

/// Whether two sets have an identifier in common.
pub fn var_sets_share(s: &VarSet, t: &VarSet) -> (r: bool)
    ensures
        r == shares(var_seq(*s), var_seq(*t)),
{
    let n = var_set_len(s);
    let ghost sv = var_seq(*s);
    let ghost tv = var_seq(*t);
    let mut i: usize = 0;
    while i < n
        invariant
            i <= n,
            n == sv.len(),
            sv == var_seq(*s),
            tv == var_seq(*t),
            forall|j: int| 0 <= j < i ==> !tv.contains(#[trigger] sv[j]),
        decreases n - i,
    {
        match var_set_get(s, i) {
            Some(v) => {
                if var_set_contains(t, v) {
                    assert(sv.contains(v));
                    return true;
                }
            },
            None => {},
        }
        i += 1;
    }
    proof {
        if shares(sv, tv) {
            let v = choose|v: Id| #[trigger] sv.contains(v) && tv.contains(v);
            let j = sv.index_of(v);
            assert(!tv.contains(sv[j]));
        }
    }
    false
}

} // verus!
