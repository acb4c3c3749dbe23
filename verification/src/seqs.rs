//! Sequences without repeats: what a sequence holds after further values
//! were added to it, each only where it was not there yet.

use vstd::prelude::*;

verus! {

/// `base` after each value of `more` was added in turn behind the values
/// already there, unless it was there already.
pub open spec fn absorb<A>(base: Seq<A>, more: Seq<A>) -> Seq<A>
    decreases more.len(),
{
    if more.len() == 0 {
        base
    } else {
        let before = absorb(base, more.drop_last());
        if before.contains(more.last()) {
            before
        } else {
            before.push(more.last())
        }
    }
}

/// The values of `s` in the order of their first occurrence.
pub open spec fn distinct<A>(s: Seq<A>) -> Seq<A> {
    absorb(Seq::empty(), s)
}

/// Adding values keeps the values that are there in their places, keeps them
/// distinct, and holds every value that was added.
pub proof fn lemma_absorb_grows<A>(base: Seq<A>, more: Seq<A>)
    ensures
        absorb(base, more).len() >= base.len(),
        forall|j: int| 0 <= j < base.len() ==> #[trigger] absorb(base, more)[j] == base[j],
        base.no_duplicates() ==> absorb(base, more).no_duplicates(),
        forall|x: A|
            #[trigger] absorb(base, more).contains(x) <==> base.contains(x) || more.contains(x),
    decreases more.len(),
{
    let after = absorb(base, more);
    if more.len() > 0 {
        let front = more.drop_last();
        let before = absorb(base, front);
        lemma_absorb_grows(base, front);
        if !before.contains(more.last()) {
            assert(after[before.len() as int] == more.last());
        }
        assert forall|x: A|
            #[trigger] after.contains(x) <==> base.contains(x) || more.contains(x) by {
            if after.contains(x) {
                let p = after.index_of(x);
                if p < before.len() {
                    assert(before[p] == x);
                    assert(before.contains(x));
                    if front.contains(x) {
                        let q = front.index_of(x);
                        assert(more[q] == x);
                    }
                } else {
                    assert(more[more.len() - 1] == x);
                }
            }
            if base.contains(x) {
                assert(before.contains(x));
                let p = before.index_of(x);
                assert(after[p] == x);
            }
            if more.contains(x) {
                let q = more.index_of(x);
                if q < front.len() {
                    assert(front[q] == x);
                    assert(before.contains(x));
                    let p = before.index_of(x);
                    assert(after[p] == x);
                } else {
                    if before.contains(x) {
                    } else {
                        assert(after[before.len() as int] == x);
                    }
                }
            }
        }
    } else {
        assert forall|x: A|
            #[trigger] after.contains(x) <==> base.contains(x) || more.contains(x) by {
            if more.contains(x) {
                let q = more.index_of(x);
            }
        }
    }
}

/// Adding a sequence is adding a front part of it and then the rest.
pub proof fn lemma_absorb_split<A>(base: Seq<A>, more: Seq<A>, k: int)
    requires
        0 <= k <= more.len(),
    ensures
        absorb(base, more) == absorb(absorb(base, more.take(k)), more.skip(k)),
    decreases more.len(),
{
    if k == more.len() {
        assert(more.take(k) =~= more);
        assert(more.skip(k) =~= Seq::<A>::empty());
    } else {
        let front = more.drop_last();
        lemma_absorb_split(base, front, k);
        assert(front.take(k) =~= more.take(k));
        assert(front.skip(k) =~= more.skip(k).drop_last());
        assert(more.skip(k).last() == more.last());
    }
}

/// Values that are new and differ from each other are all added, in order.
pub proof fn lemma_absorb_fresh<A>(base: Seq<A>, more: Seq<A>)
    requires
        (base + more).no_duplicates(),
    ensures
        absorb(base, more) == base + more,
    decreases more.len(),
{
    if more.len() > 0 {
        let front = more.drop_last();
        let all = base + more;
        assert forall|i: int, j: int|
            0 <= i < j < (base + front).len() implies (base + front)[i] != (
        base + front)[j] by {
            assert(all[i] == (base + front)[i]);
            assert(all[j] == (base + front)[j]);
        }
        lemma_absorb_fresh(base, front);
        let before = base + front;
        if before.contains(more.last()) {
            let p = before.index_of(more.last());
            assert(all[p] == more.last());
            assert(all[all.len() - 1] == more.last());
            assert(false);
        }
        assert(before.push(more.last()) =~= all);
    } else {
        assert(base + more =~= base);
    }
}

} // verus!
