//! Tables of parts whose imports follow a relation without cycles, and what
//! holds of the machine while it merges a part of such a table.

use crate::merge::{lookup, on_path, once, supplied, with_top, FrameView, Outcome, StateView};
use crate::reach::{lemma_reaches_self, lemma_reaches_step, lemma_reaches_trans, reaches, Step};
use crate::split::{ModuleItemView, PartView};
use crate::var_set::Id;
use vstd::prelude::*;

verus! {


/// Every import in a table of parts names a part of the table, to which the
/// importing part is related by `link`.
pub open spec fn table_ok(t: Seq<PartView>, link: Step) -> bool {
    forall|p: int, j: int|
        0 <= p < t.len() && 0 <= j < t[p].body.len() ==> match #[trigger] t[p].body[j] {
            ModuleItemView::Import { part, .. } => part < t.len() && link(p as usize, part),
            _ => true,
        }
}

/// No part is related to a part from which a chain of related parts leads to
/// it.
pub open spec fn acyclic_links(link: Step, count: nat) -> bool {
    forall|p: usize, q: usize| p < count && #[trigger] reaches(link, p, q) ==> !link(q, p)
}

/// A body holds no import.
pub open spec fn no_imports(body: Seq<ModuleItemView>) -> bool {
    forall|j: int| 0 <= j < body.len() ==> !(#[trigger] body[j] is Import)
}

/// The part that frame `d` of a merge that began with part `e` is merging.
pub open spec fn frame_part(s: StateView, e: usize, d: int) -> usize {
    if d == 0 {
        e
    } else {
        s.stack[d].part->0
    }
}

/// The frames of a merge of parts of the table `t` that began with part `e`:
/// each frame but the outermost merges a part to which the part of the frame
/// around it is related; the imports that are still to be looked at name
/// parts to which the part of their frame is related; no import was kept.
pub open spec fn frames_ok(s: StateView, t: Seq<PartView>, link: Step, e: usize) -> bool {
    &&& s.stack.len() >= 1
    &&& s.stack[0].part is None
    &&& e < t.len()
    &&& forall|d: int|
        1 <= d < s.stack.len() ==> (#[trigger] s.stack[d]).part is Some && s.stack[d].part->0
            < t.len() && link(frame_part(s, e, d - 1), s.stack[d].part->0)
    &&& forall|d: int, j: int|
        0 <= d < s.stack.len() && 0 <= j < s.stack[d].ahead.len() ==> match #[trigger] s.stack[d].ahead[j] {
            ModuleItemView::Import { part, .. } => part < t.len() && link(
                frame_part(s, e, d),
                part,
            ),
            _ => true,
        }
    &&& forall|d: int| 0 <= d < s.stack.len() ==> (#[trigger] s.stack[d]).kept.len() == 0
    &&& forall|d: int, j: int|
        0 <= d < s.stack.len() && 0 <= j < s.stack[d].extra.len() ==> !(
        #[trigger] s.stack[d].extra[j] is Import)
}

/// The machine is at work on such a merge.
pub open spec fn running(s: StateView, t: Seq<PartView>, link: Step, e: usize) -> bool {
    &&& s.pending is None
    &&& s.missing.len() == 0
    &&& frames_ok(s, t, link, e)
}

/// The machine waits for part `q` in such a merge.
pub open spec fn waiting(s: StateView, t: Seq<PartView>, link: Step, e: usize, q: usize) -> bool {
    &&& s.pending == Some(q)
    &&& s.missing.len() == 0
    &&& frames_ok(s, t, link, e)
    &&& q < t.len()
    &&& link(frame_part(s, e, s.stack.len() - 1), q)
    &&& !s.done.contains(q)
}

/// The part of every frame reaches the part of the innermost frame.
proof fn lemma_stack_chain(s: StateView, t: Seq<PartView>, link: Step, e: usize, d: int)
    requires
        frames_ok(s, t, link, e),
        0 <= d < s.stack.len(),
    ensures
        reaches(link, frame_part(s, e, d), frame_part(s, e, s.stack.len() - 1)),
    decreases s.stack.len() - d,
{
    if d == s.stack.len() - 1 {
        lemma_reaches_self(link, frame_part(s, e, d));
    } else {
        lemma_stack_chain(s, t, link, e, d + 1);
        assert(s.stack[d + 1].part is Some);
        assert(link(frame_part(s, e, d), frame_part(s, e, d + 1)));
        lemma_reaches_self(link, frame_part(s, e, d));
        lemma_reaches_step(link, frame_part(s, e, d), frame_part(s, e, d), frame_part(s, e, d + 1));
        lemma_reaches_trans(
            link,
            frame_part(s, e, d),
            frame_part(s, e, d + 1),
            frame_part(s, e, s.stack.len() - 1),
        );
    }
}

/// The frames stay in order when the innermost frame is replaced by one that
/// merges the same part, has no more to look at, and has kept no import.
#[verifier::rlimit(100)]
#[verifier::spinoff_prover]
proof fn lemma_top_replaced(s: StateView, t: Seq<PartView>, link: Step, e: usize, top: FrameView)
    requires
        frames_ok(s, t, link, e),
        top.part == s.stack.last().part,
        top.kept.len() == 0,
        forall|j: int| 0 <= j < top.extra.len() ==> !(#[trigger] top.extra[j] is Import),
        forall|j: int|
            0 <= j < top.ahead.len() ==> match #[trigger] top.ahead[j] {
                ModuleItemView::Import { part, .. } => part < t.len() && link(
                    frame_part(s, e, s.stack.len() - 1),
                    part,
                ),
                _ => true,
            },
    ensures
        frames_ok(StateView { stack: with_top(s.stack, top), ..s }, t, link, e),
        forall|pending: Option<usize>, names: Seq<Id>|
            #![all_triggers]
            frames_ok(
                StateView { stack: with_top(s.stack, top), pending, pending_names: names, ..s },
                t,
                link,
                e,
            ),
{
    let stack = with_top(s.stack, top);
    let last = s.stack.len() - 1;
    assert forall|pending: Option<usize>, names: Seq<Id>|
        #![all_triggers]
        frames_ok(StateView { stack, pending, pending_names: names, ..s }, t, link, e) by {
        let s1 = StateView { stack, pending, pending_names: names, ..s };
        assert(stack.len() == s.stack.len());
        assert forall|d: int|
            0 <= d < stack.len() implies frame_part(s1, e, d) == frame_part(s, e, d) by {
            if d < last {
                assert(stack[d] == s.stack[d]);
            }
        }
        assert forall|d: int| 1 <= d < stack.len() implies (#[trigger] stack[d]).part is Some
            && stack[d].part->0 < t.len() && link(frame_part(s1, e, d - 1), stack[d].part->0) by {
            assert(s.stack[d].part is Some);
            assert(frame_part(s1, e, d - 1) == frame_part(s, e, d - 1));
            if d < last {
                assert(stack[d] == s.stack[d]);
            }
        }
        assert forall|d: int, j: int|
            0 <= d < stack.len() && 0 <= j < stack[d].ahead.len()
                implies match #[trigger] stack[d].ahead[j] {
            ModuleItemView::Import { part, .. } => part < t.len() && link(
                frame_part(s1, e, d),
                part,
            ),
            _ => true,
        } by {
            assert(frame_part(s1, e, d) == frame_part(s, e, d));
            if d < last {
                assert(stack[d] == s.stack[d]);
                let it = s.stack[d].ahead[j];
            }
        }
        assert forall|d: int|
            0 <= d < stack.len() implies (#[trigger] stack[d]).kept.len() == 0 by {
            if d < last {
                assert(stack[d] == s.stack[d]);
            }
        }
        assert forall|d: int, j: int|
            0 <= d < stack.len() && 0 <= j < stack[d].extra.len() implies !(
        #[trigger] stack[d].extra[j] is Import) by {
            if d < last {
                assert(stack[d] == s.stack[d]);
                let it = s.stack[d].extra[j];
            }
        }
        assert(stack[0].part is None) by {
            if 0 < last {
                assert(stack[0] == s.stack[0]);
            }
        }
    }
}

/// One move of a machine at work keeps it at work, makes it wait for a part
/// of the table that was not loaded yet, or ends the merge with a body
/// without imports. It never gives the merge up.
#[verifier::rlimit(100)]
#[verifier::spinoff_prover]
pub proof fn lemma_once_inv(s: StateView, t: Seq<PartView>, link: Step, e: usize)
    requires
        running(s, t, link, e),
        acyclic_links(link, t.len()),
    ensures
        match once(s).1 {
            None => running(once(s).0, t, link, e) && once(s).0.done == s.done,
            Some(Outcome::Load(q)) => waiting(once(s).0, t, link, e, q) && once(s).0.done == s.done,
            Some(Outcome::Done(body)) => no_imports(body),
            Some(Outcome::Failed(_)) => false,
        },
{
    let top = s.stack.last();
    let below = s.stack.drop_last();
    let last = s.stack.len() - 1;
    assert(top == s.stack[last]);
    if top.ahead.len() == 0 {
        let body = top.kept + top.extra;
        assert forall|j: int| 0 <= j < body.len() implies !(#[trigger] body[j] is Import) by {
            assert(body[j] == s.stack[last].extra[j]);
        }
        if below.len() > 0 {
            let low = StateView { stack: below, ..s };
            assert(frames_ok(low, t, link, e)) by {
                assert forall|d: int| 0 <= d < below.len() implies frame_part(low, e, d)
                    == frame_part(s, e, d) by {}
                assert forall|d: int|
                    1 <= d < below.len() implies (#[trigger] below[d]).part is Some
                    && below[d].part->0 < t.len() && link(
                    frame_part(low, e, d - 1),
                    below[d].part->0,
                ) by {
                    assert(s.stack[d].part is Some);
                    assert(frame_part(low, e, d - 1) == frame_part(s, e, d - 1));
                }
                assert forall|d: int, j: int|
                    0 <= d < below.len() && 0 <= j < below[d].ahead.len() implies match #[trigger] below[d].ahead[j] {
                    ModuleItemView::Import { part, .. } => part < t.len() && link(
                        frame_part(low, e, d),
                        part,
                    ),
                    _ => true,
                } by {
                    let it = s.stack[d].ahead[j];
                    assert(frame_part(low, e, d) == frame_part(s, e, d));
                }
                assert forall|d: int| 0 <= d < below.len() implies (#[trigger] below[d]).kept.len()
                    == 0 by {
                    assert(s.stack[d].kept.len() == 0);
                }
                assert forall|d: int, j: int|
                    0 <= d < below.len() && 0 <= j < below[d].extra.len() implies !(
                #[trigger] below[d].extra[j] is Import) by {
                    let it = s.stack[d].extra[j];
                }
                assert(below[0] == s.stack[0]);
            }
            let parent = below.last();
            let grown = FrameView { extra: parent.extra + body, ..parent };
            assert(parent == s.stack[last - 1]);
            assert forall|j: int|
                0 <= j < grown.extra.len() implies !(#[trigger] grown.extra[j] is Import) by {
                if j < parent.extra.len() {
                    assert(grown.extra[j] == s.stack[last - 1].extra[j]);
                } else {
                    assert(grown.extra[j] == body[j - parent.extra.len()]);
                }
            }
            assert forall|j: int|
                0 <= j < grown.ahead.len() implies match #[trigger] grown.ahead[j] {
                ModuleItemView::Import { part, .. } => part < t.len() && link(
                    frame_part(low, e, below.len() - 1),
                    part,
                ),
                _ => true,
            } by {
                let it = s.stack[last - 1].ahead[j];
                assert(frame_part(low, e, below.len() - 1) == frame_part(s, e, last - 1));
            }
            lemma_top_replaced(low, t, link, e, grown);
        }
    } else {
        let item = top.ahead[0];
        let rest = FrameView { ahead: top.ahead.drop_first(), ..top };
        assert(item == s.stack[last].ahead[0]);
        assert forall|j: int| 0 <= j < rest.ahead.len() implies match #[trigger] rest.ahead[j] {
            ModuleItemView::Import { part, .. } => part < t.len() && link(
                frame_part(s, e, last),
                part,
            ),
            _ => true,
        } by {
            assert(rest.ahead[j] == s.stack[last].ahead[j + 1]);
        }
        assert forall|j: int|
            0 <= j < rest.extra.len() implies !(#[trigger] rest.extra[j] is Import) by {
            assert(rest.extra[j] == s.stack[last].extra[j]);
        }
        match item {
            ModuleItemView::Import { part, names } => {
                assert(part < t.len() && link(frame_part(s, e, last), part));
                if on_path(s.stack, part) {
                    let d = choose|d: int|
                        0 <= d < s.stack.len() && (#[trigger] s.stack[d]).part == Some(part);
                    assert(d >= 1);
                    lemma_stack_chain(s, t, link, e, d);
                    assert(frame_part(s, e, d) == part);
                    assert(false);
                }
                lemma_top_replaced(s, t, link, e, rest);
                if !s.done.contains(part) {
                    let s1 = once(s).0;
                    assert(s1.stack == with_top(s.stack, rest));
                    assert(frame_part(s1, e, s1.stack.len() - 1) == frame_part(s, e, last));
                }
            },
            _ => {
                let grown = FrameView { extra: rest.extra.push(item), ..rest };
                assert forall|j: int| 0 <= j < grown.extra.len() implies !(
                #[trigger] grown.extra[j] is Import) by {
                    if j < rest.extra.len() {
                        assert(grown.extra[j] == s.stack[last].extra[j]);
                    }
                }
                lemma_top_replaced(s, t, link, e, grown);
            },
        }
    }
}

/// A machine that waits for a part of the table is at work again once it
/// was given that part.
#[verifier::rlimit(100)]
#[verifier::spinoff_prover]
pub proof fn lemma_supplied_inv(s: StateView, t: Seq<PartView>, link: Step, e: usize, q: usize)
    requires
        waiting(s, t, link, e, q),
        table_ok(t, link),
    ensures
        running(supplied(s, lookup(t, q)), t, link, e),
        supplied(s, lookup(t, q)).done == s.done.push(q),
{
    let s1 = supplied(s, lookup(t, q));
    let frame = FrameView {
        part: Some(q),
        ahead: t[q as int].body,
        kept: Seq::empty(),
        extra: Seq::empty(),
    };
    let last = s.stack.len() - 1;
    assert(s1.stack == s.stack.push(frame));
    assert forall|d: int| 0 <= d < s1.stack.len() implies frame_part(s1, e, d) == if d <= last {
        frame_part(s, e, d)
    } else {
        q
    } by {}
    assert forall|d: int| 1 <= d < s1.stack.len() implies (#[trigger] s1.stack[d]).part is Some
        && s1.stack[d].part->0 < t.len() && link(frame_part(s1, e, d - 1), s1.stack[d].part->0) by {
        assert(frame_part(s1, e, d - 1) == frame_part(s, e, d - 1));
        if d <= last {
            assert(s.stack[d].part is Some);
        }
    }
    assert forall|d: int, j: int|
        0 <= d < s1.stack.len() && 0 <= j < s1.stack[d].ahead.len()
            implies match #[trigger] s1.stack[d].ahead[j] {
        ModuleItemView::Import { part, .. } => part < t.len() && link(frame_part(s1, e, d), part),
        _ => true,
    } by {
        if d <= last {
            let it = s.stack[d].ahead[j];
            assert(frame_part(s1, e, d) == frame_part(s, e, d));
        } else {
            let it = t[q as int].body[j];
        }
    }
    assert forall|d: int|
        0 <= d < s1.stack.len() implies (#[trigger] s1.stack[d]).kept.len() == 0 by {
        if d <= last {
            assert(s.stack[d].kept.len() == 0);
        }
    }
    assert forall|d: int, j: int|
        0 <= d < s1.stack.len() && 0 <= j < s1.stack[d].extra.len() implies !(
    #[trigger] s1.stack[d].extra[j] is Import) by {
        if d <= last {
            let it = s.stack[d].extra[j];
        }
    }
    assert(s1.stack[0] == s.stack[0]);
}

/// The number of the parts below `upto` that were not loaded.
pub open spec fn undone(done: Seq<usize>, upto: nat) -> nat
    decreases upto,
{
    if upto == 0 {
        0
    } else {
        undone(done, (upto - 1) as nat) + if done.contains((upto - 1) as usize) {
            0nat
        } else {
            1nat
        }
    }
}

/// Loading a part leaves one part fewer that was not loaded.
pub proof fn lemma_undone_push(done: Seq<usize>, q: usize, upto: nat)
    requires
        !done.contains(q),
        upto <= usize::MAX,
    ensures
        undone(done.push(q), upto) + (if q < upto {
            1nat
        } else {
            0nat
        }) == undone(done, upto),
    decreases upto,
{
    if upto > 0 {
        lemma_undone_push(done, q, (upto - 1) as nat);
        let k = (upto - 1) as usize;
        if k != q {
            if done.push(q).contains(k) {
                let i = done.push(q).index_of(k);
                assert(done[i] == k);
            }
            if done.contains(k) {
                let i = done.index_of(k);
                assert(done.push(q)[i] == k);
            }
        } else {
            assert(done.push(q)[done.len() as int] == q);
        }
    }
}

} // verus!
