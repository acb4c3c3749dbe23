//! The order of a merged module: the parts that the entry depends on, each
//! once, every part behind the parts on which it depends.

use crate::merge::{
    answered_by, lemma_answers_unique, lemma_once_decreases, lookup, merged, on_path, once, replay,
    settle, started, supplied, with_top, work, FrameView, Outcome, StateView,
};
use crate::reach::{lemma_closed, lemma_reaches_self, lemma_reaches_step, reaches, Step};
use crate::split::{ModuleItemView, PartView};
use crate::tables::{
    acyclic_links, frame_part, frames_ok, lemma_once_inv, lemma_supplied_inv, lemma_undone_push,
    running, table_ok, undone, waiting,
};
use vstd::prelude::*;

verus! {

/// The bodies of a table begin with their imports: `leads[p]` entries of part
/// `p` are imports, and no entry behind them is.
pub open spec fn imports_first(t: Seq<PartView>, leads: Seq<int>) -> bool {
    &&& leads.len() == t.len()
    &&& forall|p: int| 0 <= p < t.len() ==> 0 <= #[trigger] leads[p] <= t[p].body.len()
    &&& forall|p: int, j: int|
        0 <= p < t.len() && 0 <= j < t[p].body.len() ==> (#[trigger] t[p].body[j] is Import <==> j
            < leads[p])
}

/// The part that import `j` of part `p` names.
pub open spec fn import_at(t: Seq<PartView>, p: usize, j: int) -> usize {
    match t[p as int].body[j] {
        ModuleItemView::Import { part, .. } => part,
        _ => 0,
    }
}

/// Every part to which `link` relates a part is named by an import of that
/// part.
pub open spec fn imports_all(t: Seq<PartView>, leads: Seq<int>, link: Step) -> bool {
    forall|p: usize, q: usize|
        p < t.len() && #[trigger] link(p, q) ==> exists|j: int|
            0 <= j < leads[p as int] && #[trigger] import_at(t, p, j) == q
}

/// The body of part `p` without its imports.
pub open spec fn tail_of(t: Seq<PartView>, leads: Seq<int>, p: usize) -> Seq<ModuleItemView> {
    t[p as int].body.skip(leads[p as int])
}

/// The bodies, without imports, of the parts `ord`, one behind the other.
pub open spec fn blocks(t: Seq<PartView>, leads: Seq<int>, ord: Seq<usize>) -> Seq<ModuleItemView>
    decreases ord.len(),
{
    if ord.len() == 0 {
        Seq::empty()
    } else {
        blocks(t, leads, ord.drop_last()) + tail_of(t, leads, ord.last())
    }
}

/// What the frames of a merge have gathered, from the outermost frame to the
/// innermost.
pub open spec fn out_of(stack: Seq<FrameView>) -> Seq<ModuleItemView>
    decreases stack.len(),
{
    if stack.len() == 0 {
        Seq::empty()
    } else {
        out_of(stack.drop_last()) + stack.last().extra
    }
}

/// `q` stands in `ord` before position `i`.
pub open spec fn earlier(ord: Seq<usize>, i: int, q: usize) -> bool {
    exists|k: int| 0 <= k < i && #[trigger] ord[k] == q
}

/// Every part of `ord` is a part of the table and stands behind the parts
/// that it imports.
pub open spec fn sorted_parts(t: Seq<PartView>, leads: Seq<int>, ord: Seq<usize>) -> bool {
    &&& forall|i: int| 0 <= i < ord.len() ==> (#[trigger] ord[i]) < t.len()
    &&& forall|i: int, j: int|
        0 <= i < ord.len() && 0 <= j < leads[ord[i] as int] ==> earlier(
            ord,
            i,
            #[trigger] import_at(t, ord[i], j),
        )
}

/// The number of entries behind the imports that a frame has looked at.
pub open spec fn consumed(k: int, lead: int) -> int {
    if k > lead {
        k - lead
    } else {
        0
    }
}

/// Frame `d` has looked at `ks[d]` entries of the body of its part, and has
/// the others still to look at.
#[verifier::opaque]
pub open spec fn pos_ok(s: StateView, t: Seq<PartView>, e: usize, ks: Seq<int>) -> bool {
    &&& ks.len() == s.stack.len()
    &&& forall|d: int|
        0 <= d < s.stack.len() ==> 0 <= #[trigger] ks[d] <= t[frame_part(s, e, d) as int].body.len()
            && s.stack[d].ahead == t[frame_part(s, e, d) as int].body.skip(ks[d])
}

/// Every frame but the innermost has looked at imports only, and the last of
/// them named the part of the frame inside it.
#[verifier::opaque]
pub open spec fn child_ok(
    s: StateView,
    t: Seq<PartView>,
    leads: Seq<int>,
    e: usize,
    ks: Seq<int>,
) -> bool {
    forall|d: int|
        0 <= d < s.stack.len() - 1 ==> 1 <= #[trigger] ks[d] <= leads[frame_part(s, e, d) as int]
            && import_at(t, frame_part(s, e, d), ks[d] - 1) == frame_part(s, e, d + 1)
}

/// Every import that a frame has looked at names a part that is complete,
/// but for the import that named the part of the frame inside it.
#[verifier::opaque]
pub open spec fn seen_ok(
    s: StateView,
    t: Seq<PartView>,
    leads: Seq<int>,
    e: usize,
    ord: Seq<usize>,
    ks: Seq<int>,
) -> bool {
    forall|d: int, j: int|
        0 <= d < s.stack.len() && 0 <= j < ks[d] && j < leads[frame_part(s, e, d) as int]
            ==> ord.contains(#[trigger] import_at(t, frame_part(s, e, d), j)) || (d < s.stack.len()
            - 1 && j == ks[d] - 1)
}

/// The parts that were loaded are those that are complete and those that are
/// being merged; no part is both; the part that the merge began with was not
/// loaded.
#[verifier::opaque]
pub open spec fn memo_ok(s: StateView, e: usize, ord: Seq<usize>) -> bool {
    &&& forall|q: usize| #[trigger] s.done.contains(q) <==> ord.contains(q) || on_path(s.stack, q)
    &&& forall|d: int| 1 <= d < s.stack.len() ==> !ord.contains(#[trigger] frame_part(s, e, d))
    &&& !s.done.contains(e)
}

/// The complete parts stand each once, behind the parts that they import,
/// and the part that the merge began with reaches each of them.
#[verifier::opaque]
pub open spec fn list_ok(
    t: Seq<PartView>,
    leads: Seq<int>,
    link: Step,
    e: usize,
    ord: Seq<usize>,
) -> bool {
    &&& sorted_parts(t, leads, ord)
    &&& ord.no_duplicates()
    &&& forall|i: int| 0 <= i < ord.len() ==> reaches(link, e, #[trigger] ord[i])
}

/// What the frames have gathered are the blocks of the complete parts and
/// the entries behind the imports that the innermost frame has looked at.
#[verifier::opaque]
pub open spec fn out_ok(
    s: StateView,
    t: Seq<PartView>,
    leads: Seq<int>,
    e: usize,
    ord: Seq<usize>,
    ks: Seq<int>,
) -> bool {
    let top = s.stack.len() - 1;
    out_of(s.stack) == blocks(t, leads, ord) + tail_of(t, leads, frame_part(s, e, top)).take(
        consumed(ks[top], leads[frame_part(s, e, top) as int]),
    )
}

/// How far a merge has come. `ord` holds the parts that were merged
/// completely, in the order in which they were completed; `ks[d]` is the
/// number of entries that frame `d` has looked at.
#[verifier::opaque]
pub open spec fn ordered(
    s: StateView,
    t: Seq<PartView>,
    leads: Seq<int>,
    link: Step,
    e: usize,
    ord: Seq<usize>,
    ks: Seq<int>,
) -> bool {
    &&& pos_ok(s, t, e, ks)
    &&& child_ok(s, t, leads, e, ks)
    &&& seen_ok(s, t, leads, e, ord, ks)
    &&& memo_ok(s, e, ord)
    &&& list_ok(t, leads, link, e, ord)
    &&& out_ok(s, t, leads, e, ord, ks)
}

/// The start of block `i` among the blocks of `ord`.
pub open spec fn block_start(t: Seq<PartView>, leads: Seq<int>, ord: Seq<usize>, i: int) -> int {
    blocks(t, leads, ord.take(i)).len() as int
}

/// The blocks begin one behind the other.
pub proof fn lemma_block_starts(t: Seq<PartView>, leads: Seq<int>, ord: Seq<usize>, i: int, j: int)
    requires
        0 <= i < j <= ord.len(),
    ensures
        block_start(t, leads, ord, i) + tail_of(t, leads, ord[i]).len() <= block_start(
            t,
            leads,
            ord,
            j,
        ),
    decreases j - i,
{
    assert(ord.take(j).drop_last() =~= ord.take(j - 1));
    assert(ord.take(j).last() == ord[j - 1]);
    if i < j - 1 {
        lemma_block_starts(t, leads, ord, i, j - 1);
    }
}

/// Entry `c` of block `i` stands in the blocks at the start of the block
/// plus `c`.
pub proof fn lemma_block_entry(t: Seq<PartView>, leads: Seq<int>, ord: Seq<usize>, i: int, c: int)
    requires
        0 <= i < ord.len(),
        0 <= c < tail_of(t, leads, ord[i]).len(),
    ensures
        0 <= block_start(t, leads, ord, i) + c < blocks(t, leads, ord).len(),
        blocks(t, leads, ord)[block_start(t, leads, ord, i) + c] == tail_of(t, leads, ord[i])[c],
    decreases ord.len(),
{
    let front = ord.drop_last();
    if i == ord.len() - 1 {
        assert(ord.take(i) =~= front);
    } else {
        lemma_block_entry(t, leads, front, i, c);
        assert(front.take(i) =~= ord.take(i));
        assert(front[i] == ord[i]);
    }
}

/// The block and the place in the block of an entry of the blocks.
pub proof fn lemma_block_find(t: Seq<PartView>, leads: Seq<int>, ord: Seq<usize>, a: int) -> (r: (
    int,
    int,
))
    requires
        0 <= a < blocks(t, leads, ord).len(),
    ensures
        0 <= r.0 < ord.len(),
        0 <= r.1 < tail_of(t, leads, ord[r.0]).len(),
        a == block_start(t, leads, ord, r.0) + r.1,
        blocks(t, leads, ord)[a] == tail_of(t, leads, ord[r.0])[r.1],
    decreases ord.len(),
{
    let front = ord.drop_last();
    let before = blocks(t, leads, front);
    if a < before.len() {
        let (i, c) = lemma_block_find(t, leads, front, a);
        assert(front.take(i) =~= ord.take(i));
        assert(front[i] == ord[i]);
        (i, c)
    } else {
        let i = ord.len() - 1;
        assert(ord.take(i) =~= front);
        (i, a - before.len())
    }
}

/// What the frames have gathered, when the innermost frame is set apart.
pub proof fn lemma_out_top(stack: Seq<FrameView>, top: FrameView)
    requires
        stack.len() > 0,
    ensures
        out_of(with_top(stack, top)) == out_of(stack.drop_last()) + top.extra,
        out_of(stack) == out_of(stack.drop_last()) + stack.last().extra,
{
    assert(with_top(stack, top).drop_last() =~= stack.drop_last());
}

/// The blocks of a sequence of parts with one more part.
pub proof fn lemma_blocks_push(t: Seq<PartView>, leads: Seq<int>, ord: Seq<usize>, q: usize)
    ensures
        blocks(t, leads, ord.push(q)) == blocks(t, leads, ord) + tail_of(t, leads, q),
{
    assert(ord.push(q).drop_last() =~= ord);
}

/// The part of every frame is reached from the part that the merge began
/// with.
pub proof fn lemma_frame_reached(s: StateView, t: Seq<PartView>, link: Step, e: usize, d: int)
    requires
        frames_ok(s, t, link, e),
        0 <= d < s.stack.len(),
    ensures
        reaches(link, e, frame_part(s, e, d)),
        frame_part(s, e, d) < t.len(),
    decreases d,
{
    if d == 0 {
        lemma_reaches_self(link, e);
    } else {
        lemma_frame_reached(s, t, link, e, d - 1);
        assert(s.stack[d].part is Some);
        lemma_reaches_step(link, e, frame_part(s, e, d - 1), frame_part(s, e, d));
    }
}

/// The part of a frame is reached from the part of every frame around it.
pub proof fn lemma_frames_chain(
    s: StateView,
    t: Seq<PartView>,
    link: Step,
    e: usize,
    a: int,
    b: int,
)
    requires
        frames_ok(s, t, link, e),
        0 <= a <= b < s.stack.len(),
    ensures
        reaches(link, frame_part(s, e, a), frame_part(s, e, b)),
    decreases b - a,
{
    if a == b {
        lemma_reaches_self(link, frame_part(s, e, a));
    } else {
        lemma_frames_chain(s, t, link, e, a, b - 1);
        assert(s.stack[b].part is Some);
        lemma_reaches_step(
            link,
            frame_part(s, e, a),
            frame_part(s, e, b - 1),
            frame_part(s, e, b),
        );
    }
}

/// No two frames merge the same part.
pub proof fn lemma_frames_differ(
    s: StateView,
    t: Seq<PartView>,
    link: Step,
    e: usize,
    a: int,
    b: int,
)
    requires
        frames_ok(s, t, link, e),
        acyclic_links(link, t.len()),
        0 <= a < b < s.stack.len(),
    ensures
        frame_part(s, e, a) != frame_part(s, e, b),
{
    lemma_frames_chain(s, t, link, e, a, b - 1);
    lemma_frame_reached(s, t, link, e, a);
    assert(s.stack[b].part is Some);
    assert(link(frame_part(s, e, b - 1), frame_part(s, e, b)));
}

/// The frames after the innermost frame was replaced by a frame for the same
/// part.
proof fn lemma_swap(s: StateView, s1: StateView, e: usize, f1: FrameView)
    requires
        s.stack.len() > 0,
        s1.stack == with_top(s.stack, f1),
        f1.part == s.stack.last().part,
    ensures
        s1.stack.len() == s.stack.len(),
        s1.stack[s.stack.len() - 1] == f1,
        forall|d: int| 0 <= d < s.stack.len() - 1 ==> #[trigger] s1.stack[d] == s.stack[d],
        forall|d: int|
            0 <= d < s.stack.len() ==> #[trigger] frame_part(s1, e, d) == frame_part(s, e, d),
        forall|q: usize| #[trigger] on_path(s1.stack, q) == on_path(s.stack, q),
{
    let top = s.stack.len() - 1;
    assert(s.stack[top] == s.stack.last());
    assert forall|q: usize| #[trigger] on_path(s1.stack, q) == on_path(s.stack, q) by {
        if on_path(s1.stack, q) {
            let d = choose|d: int| 0 <= d < s1.stack.len() && (#[trigger] s1.stack[d]).part == Some(q);
            assert(s.stack[d].part == Some(q));
        }
        if on_path(s.stack, q) {
            let d = choose|d: int| 0 <= d < s.stack.len() && (#[trigger] s.stack[d]).part == Some(q);
            assert(s1.stack[d].part == Some(q));
        }
    }
}

/// What the innermost frame looks at next: the entry of its part at the
/// place that the frame has come to.
proof fn lemma_top_entry(
    s: StateView,
    t: Seq<PartView>,
    leads: Seq<int>,
    link: Step,
    e: usize,
    ks: Seq<int>,
)
    requires
        frames_ok(s, t, link, e),
        imports_first(t, leads),
        pos_ok(s, t, e, ks),
    ensures
        ks.len() == s.stack.len(),
        frame_part(s, e, s.stack.len() - 1) < t.len(),
        0 <= ks[s.stack.len() - 1] <= t[frame_part(s, e, s.stack.len() - 1) as int].body.len(),
        s.stack.last().ahead.len() == t[frame_part(s, e, s.stack.len() - 1) as int].body.len()
            - ks[s.stack.len() - 1],
        s.stack.last().ahead.len() > 0 ==> s.stack.last().ahead[0] == t[frame_part(
            s,
            e,
            s.stack.len() - 1,
        ) as int].body[ks[s.stack.len() - 1]] && (s.stack.last().ahead[0] is Import
            <==> ks[s.stack.len() - 1] < leads[frame_part(s, e, s.stack.len() - 1) as int]),
        0 <= leads[frame_part(s, e, s.stack.len() - 1) as int] <= t[frame_part(
            s,
            e,
            s.stack.len() - 1,
        ) as int].body.len(),
{
    reveal(pos_ok);
    let top = s.stack.len() - 1;
    lemma_frame_reached(s, t, link, e, top);
    assert(s.stack.last() == s.stack[top]);
    let p = frame_part(s, e, top);
    let body = t[p as int].body;
    assert(s.stack[top].ahead == body.skip(ks[top]));
    if s.stack.last().ahead.len() > 0 {
        assert(s.stack.last().ahead[0] == body[ks[top]]);
        let it = t[p as int].body[ks[top]];
    }
}

/// The places that the frames have come to, after the innermost frame has
/// looked at one more entry.
proof fn lemma_swap_pos(
    s: StateView,
    s1: StateView,
    t: Seq<PartView>,
    e: usize,
    ks: Seq<int>,
    f1: FrameView,
)
    requires
        pos_ok(s, t, e, ks),
        s.stack.len() > 0,
        s1.stack == with_top(s.stack, f1),
        f1.part == s.stack.last().part,
        s.stack.last().ahead.len() > 0,
        f1.ahead == s.stack.last().ahead.drop_first(),
    ensures
        pos_ok(s1, t, e, ks.update(s.stack.len() - 1, ks[s.stack.len() - 1] + 1)),
{
    reveal(pos_ok);
    lemma_swap(s, s1, e, f1);
    let top = s.stack.len() - 1;
    let ks1 = ks.update(top, ks[top] + 1);
    assert(s.stack.last() == s.stack[top]);
    assert forall|d: int| 0 <= d < s1.stack.len() implies 0 <= #[trigger] ks1[d] <= t[frame_part(
        s1,
        e,
        d,
    ) as int].body.len() && s1.stack[d].ahead == t[frame_part(s1, e, d) as int].body.skip(ks1[d]) by {
        assert(frame_part(s1, e, d) == frame_part(s, e, d));
        let body = t[frame_part(s, e, d) as int].body;
        assert(0 <= ks[d] <= body.len() && s.stack[d].ahead == body.skip(ks[d]));
        if d < top {
            assert(s1.stack[d] == s.stack[d]);
        } else {
            assert(f1.ahead =~= body.skip(ks[top] + 1));
        }
    }
}

/// The frames and the frames inside them, after the innermost frame was
/// replaced.
proof fn lemma_swap_child(
    s: StateView,
    s1: StateView,
    t: Seq<PartView>,
    leads: Seq<int>,
    e: usize,
    ks: Seq<int>,
    f1: FrameView,
    v: int,
)
    requires
        child_ok(s, t, leads, e, ks),
        ks.len() == s.stack.len(),
        s.stack.len() > 0,
        s1.stack == with_top(s.stack, f1),
        f1.part == s.stack.last().part,
    ensures
        child_ok(s1, t, leads, e, ks.update(s.stack.len() - 1, v)),
{
    reveal(child_ok);
    lemma_swap(s, s1, e, f1);
    let top = s.stack.len() - 1;
    let ks1 = ks.update(top, v);
    assert forall|d: int|
        0 <= d < s1.stack.len() - 1 implies 1 <= #[trigger] ks1[d] <= leads[frame_part(
        s1,
        e,
        d,
    ) as int] && import_at(t, frame_part(s1, e, d), ks1[d] - 1) == frame_part(s1, e, d + 1) by {
        assert(ks1[d] == ks[d]);
        assert(frame_part(s1, e, d) == frame_part(s, e, d));
        assert(frame_part(s1, e, d + 1) == frame_part(s, e, d + 1));
    }
}

/// The imports that the frames have looked at, after the innermost frame
/// has looked at an entry that is no import, or at an import of a complete
/// part.
proof fn lemma_swap_seen(
    s: StateView,
    s1: StateView,
    t: Seq<PartView>,
    leads: Seq<int>,
    e: usize,
    ord: Seq<usize>,
    ks: Seq<int>,
    f1: FrameView,
)
    requires
        seen_ok(s, t, leads, e, ord, ks),
        ks.len() == s.stack.len(),
        s.stack.len() > 0,
        s1.stack == with_top(s.stack, f1),
        f1.part == s.stack.last().part,
        ks[s.stack.len() - 1] >= leads[frame_part(s, e, s.stack.len() - 1) as int] || ord.contains(
            import_at(t, frame_part(s, e, s.stack.len() - 1), ks[s.stack.len() - 1]),
        ),
    ensures
        seen_ok(s1, t, leads, e, ord, ks.update(s.stack.len() - 1, ks[s.stack.len() - 1] + 1)),
{
    reveal(seen_ok);
    lemma_swap(s, s1, e, f1);
    let top = s.stack.len() - 1;
    let ks1 = ks.update(top, ks[top] + 1);
    assert forall|d: int, j: int|
        0 <= d < s1.stack.len() && 0 <= j < ks1[d] && j < leads[frame_part(s1, e, d) as int] implies ord.contains(
        #[trigger] import_at(t, frame_part(s1, e, d), j),
    ) || (d < s1.stack.len() - 1 && j == ks1[d] - 1) by {
        assert(frame_part(s1, e, d) == frame_part(s, e, d));
        if d == top && j == ks[top] {
        } else {
            assert(j < ks[d]);
            assert(ord.contains(import_at(t, frame_part(s, e, d), j)) || (d < top && j == ks[d] - 1));
        }
    }
}

/// What was loaded, after the innermost frame was replaced.
proof fn lemma_swap_memo(s: StateView, s1: StateView, e: usize, ord: Seq<usize>, f1: FrameView)
    requires
        memo_ok(s, e, ord),
        s.stack.len() > 0,
        s1.stack == with_top(s.stack, f1),
        f1.part == s.stack.last().part,
        s1.done == s.done,
    ensures
        memo_ok(s1, e, ord),
{
    reveal(memo_ok);
    lemma_swap(s, s1, e, f1);
    assert forall|d: int| 1 <= d < s1.stack.len() implies !ord.contains(
        #[trigger] frame_part(s1, e, d),
    ) by {
        assert(frame_part(s1, e, d) == frame_part(s, e, d));
    }
    assert forall|q: usize| #[trigger] s1.done.contains(q) <==> ord.contains(q) || on_path(
        s1.stack,
        q,
    ) by {
        assert(on_path(s1.stack, q) == on_path(s.stack, q));
        assert(s.done.contains(q) <==> ord.contains(q) || on_path(s.stack, q));
    }
}

/// What the frames have gathered, after the innermost frame has kept an
/// entry behind its imports.
proof fn lemma_item_out(
    s: StateView,
    s1: StateView,
    t: Seq<PartView>,
    leads: Seq<int>,
    e: usize,
    ord: Seq<usize>,
    ks: Seq<int>,
    f1: FrameView,
)
    requires
        out_ok(s, t, leads, e, ord, ks),
        ks.len() == s.stack.len(),
        s.stack.len() > 0,
        s1.stack == with_top(s.stack, f1),
        f1.part == s.stack.last().part,
        0 <= leads[frame_part(s, e, s.stack.len() - 1) as int] <= ks[s.stack.len() - 1],
        ks[s.stack.len() - 1] < t[frame_part(s, e, s.stack.len() - 1) as int].body.len(),
        f1.extra == s.stack.last().extra.push(
            t[frame_part(s, e, s.stack.len() - 1) as int].body[ks[s.stack.len() - 1]],
        ),
    ensures
        out_ok(s1, t, leads, e, ord, ks.update(s.stack.len() - 1, ks[s.stack.len() - 1] + 1)),
{
    reveal(out_ok);
    lemma_swap(s, s1, e, f1);
    let top = s.stack.len() - 1;
    let p = frame_part(s, e, top);
    let item = t[p as int].body[ks[top]];
    let tail = tail_of(t, leads, p);
    let c = consumed(ks[top], leads[p as int]);
    lemma_out_top(s.stack, f1);
    assert(frame_part(s1, e, top) == p);
    assert(tail[c] == item);
    assert(tail.take(c + 1) =~= tail.take(c).push(item));
    assert(out_of(s1.stack) =~= out_of(s.stack).push(item));
    assert(out_of(s1.stack) =~= blocks(t, leads, ord) + tail.take(c + 1));
}

/// What the frames have gathered, after the innermost frame has dropped an
/// import.
proof fn lemma_skip_out(
    s: StateView,
    s1: StateView,
    t: Seq<PartView>,
    leads: Seq<int>,
    e: usize,
    ord: Seq<usize>,
    ks: Seq<int>,
    f1: FrameView,
)
    requires
        out_ok(s, t, leads, e, ord, ks),
        ks.len() == s.stack.len(),
        s.stack.len() > 0,
        s1.stack == with_top(s.stack, f1),
        f1.part == s.stack.last().part,
        ks[s.stack.len() - 1] < leads[frame_part(s, e, s.stack.len() - 1) as int],
        f1.extra == s.stack.last().extra,
    ensures
        out_ok(s1, t, leads, e, ord, ks.update(s.stack.len() - 1, ks[s.stack.len() - 1] + 1)),
        out_of(s1.stack) == out_of(s.stack),
        consumed(ks[s.stack.len() - 1], leads[frame_part(s, e, s.stack.len() - 1) as int]) == 0,
{
    reveal(out_ok);
    lemma_swap(s, s1, e, f1);
    let top = s.stack.len() - 1;
    lemma_out_top(s.stack, f1);
    assert(frame_part(s1, e, top) == frame_part(s, e, top));
}

/// A frame looks at an entry behind the imports.
proof fn lemma_case_item(
    s: StateView,
    t: Seq<PartView>,
    leads: Seq<int>,
    link: Step,
    e: usize,
    ord: Seq<usize>,
    ks: Seq<int>,
)
    requires
        running(s, t, link, e),
        imports_first(t, leads),
        ordered(s, t, leads, link, e, ord, ks),
        s.stack.last().ahead.len() > 0,
        !(s.stack.last().ahead[0] is Import),
    ensures
        ordered(
            once(s).0,
            t,
            leads,
            link,
            e,
            ord,
            ks.update(s.stack.len() - 1, ks[s.stack.len() - 1] + 1),
        ),
{
    reveal(ordered);
    let top = s.stack.len() - 1;
    let f = s.stack.last();
    let item = f.ahead[0];
    let rest = FrameView { ahead: f.ahead.drop_first(), ..f };
    let grown = FrameView { extra: rest.extra.push(item), ..rest };
    let s1 = once(s).0;
    assert(s1.stack == with_top(s.stack, grown));
    assert(s1.done == s.done);
    lemma_top_entry(s, t, leads, link, e, ks);
    lemma_swap_pos(s, s1, t, e, ks, grown);
    lemma_swap_child(s, s1, t, leads, e, ks, grown, ks[top] + 1);
    lemma_swap_seen(s, s1, t, leads, e, ord, ks, grown);
    lemma_swap_memo(s, s1, e, ord, grown);
    lemma_item_out(s, s1, t, leads, e, ord, ks, grown);
}

/// A frame looks at the import of a part that was merged before.
proof fn lemma_case_skip(
    s: StateView,
    t: Seq<PartView>,
    leads: Seq<int>,
    link: Step,
    e: usize,
    ord: Seq<usize>,
    ks: Seq<int>,
)
    requires
        running(s, t, link, e),
        acyclic_links(link, t.len()),
        imports_first(t, leads),
        ordered(s, t, leads, link, e, ord, ks),
        s.stack.last().ahead.len() > 0,
        s.stack.last().ahead[0] is Import,
        s.done.contains(s.stack.last().ahead[0]->Import_part),
    ensures
        once(s).1 is None,
        ordered(
            once(s).0,
            t,
            leads,
            link,
            e,
            ord,
            ks.update(s.stack.len() - 1, ks[s.stack.len() - 1] + 1),
        ),
{
    reveal(ordered);
    let top = s.stack.len() - 1;
    let f = s.stack.last();
    let q = f.ahead[0]->Import_part;
    let rest = FrameView { ahead: f.ahead.drop_first(), ..f };
    lemma_once_inv(s, t, link, e);
    let s1 = once(s).0;
    assert(!on_path(s.stack, q));
    assert(s1.stack == with_top(s.stack, rest));
    assert(s1.done == s.done);
    lemma_top_entry(s, t, leads, link, e, ks);
    assert(import_at(t, frame_part(s, e, top), ks[top]) == q);
    assert(ord.contains(q)) by {
        reveal(memo_ok);
    }
    lemma_swap_pos(s, s1, t, e, ks, rest);
    lemma_swap_child(s, s1, t, leads, e, ks, rest, ks[top] + 1);
    lemma_swap_seen(s, s1, t, leads, e, ord, ks, rest);
    lemma_swap_memo(s, s1, e, ord, rest);
    lemma_skip_out(s, s1, t, leads, e, ord, ks, rest);
}

/// The frames after the innermost frame was replaced by a frame for the same
/// part and a frame for the part `q` was put inside it.
proof fn lemma_push(
    s: StateView,
    s2: StateView,
    e: usize,
    rest: FrameView,
    frame: FrameView,
    q: usize,
)
    requires
        s.stack.len() > 0,
        s2.stack == with_top(s.stack, rest).push(frame),
        rest.part == s.stack.last().part,
        frame.part == Some(q),
    ensures
        s2.stack.len() == s.stack.len() + 1,
        s2.stack[s.stack.len() - 1] == rest,
        s2.stack[s.stack.len() as int] == frame,
        forall|d: int| 0 <= d < s.stack.len() - 1 ==> #[trigger] s2.stack[d] == s.stack[d],
        forall|d: int|
            0 <= d < s.stack.len() ==> #[trigger] frame_part(s2, e, d) == frame_part(s, e, d),
        frame_part(s2, e, s.stack.len() as int) == q,
        forall|x: usize| #[trigger] on_path(s2.stack, x) == (on_path(s.stack, x) || x == q),
{
    let top = s.stack.len() - 1;
    assert(s.stack[top] == s.stack.last());
    assert forall|x: usize| #[trigger] on_path(s2.stack, x) == (on_path(s.stack, x) || x == q) by {
        if on_path(s2.stack, x) {
            let d = choose|d: int| 0 <= d < s2.stack.len() && (#[trigger] s2.stack[d]).part == Some(x);
            if d <= top {
                assert(s.stack[d].part == Some(x));
            }
        }
        if on_path(s.stack, x) {
            let d = choose|d: int| 0 <= d < s.stack.len() && (#[trigger] s.stack[d]).part == Some(x);
            assert(s2.stack[d].part == Some(x));
        }
        if x == q {
            assert(s2.stack[top + 1].part == Some(q));
        }
    }
}

/// The places that the frames have come to, after a part was loaded.
proof fn lemma_load_pos(
    s: StateView,
    s2: StateView,
    t: Seq<PartView>,
    e: usize,
    ks: Seq<int>,
    rest: FrameView,
    frame: FrameView,
    q: usize,
)
    requires
        pos_ok(s, t, e, ks),
        s.stack.len() > 0,
        s2.stack == with_top(s.stack, rest).push(frame),
        rest.part == s.stack.last().part,
        frame.part == Some(q),
        s.stack.last().ahead.len() > 0,
        rest.ahead == s.stack.last().ahead.drop_first(),
        frame.ahead == t[q as int].body,
    ensures
        pos_ok(s2, t, e, ks.update(s.stack.len() - 1, ks[s.stack.len() - 1] + 1).push(0)),
{
    reveal(pos_ok);
    lemma_push(s, s2, e, rest, frame, q);
    let top = s.stack.len() - 1;
    let ks2 = ks.update(top, ks[top] + 1).push(0);
    assert(s.stack.last() == s.stack[top]);
    assert forall|d: int| 0 <= d < s2.stack.len() implies 0 <= #[trigger] ks2[d] <= t[frame_part(
        s2,
        e,
        d,
    ) as int].body.len() && s2.stack[d].ahead == t[frame_part(s2, e, d) as int].body.skip(ks2[d]) by {
        if d <= top {
            assert(frame_part(s2, e, d) == frame_part(s, e, d));
            let body = t[frame_part(s, e, d) as int].body;
            assert(0 <= ks[d] <= body.len() && s.stack[d].ahead == body.skip(ks[d]));
            if d < top {
                assert(s2.stack[d] == s.stack[d]);
            } else {
                assert(rest.ahead =~= body.skip(ks[top] + 1));
            }
        } else {
            assert(frame.ahead =~= t[q as int].body.skip(0));
        }
    }
}

/// The frames and the frames inside them, after a part was loaded.
proof fn lemma_load_child(
    s: StateView,
    s2: StateView,
    t: Seq<PartView>,
    leads: Seq<int>,
    e: usize,
    ks: Seq<int>,
    rest: FrameView,
    frame: FrameView,
    q: usize,
)
    requires
        child_ok(s, t, leads, e, ks),
        ks.len() == s.stack.len(),
        s.stack.len() > 0,
        s2.stack == with_top(s.stack, rest).push(frame),
        rest.part == s.stack.last().part,
        frame.part == Some(q),
        0 <= ks[s.stack.len() - 1] < leads[frame_part(s, e, s.stack.len() - 1) as int],
        import_at(t, frame_part(s, e, s.stack.len() - 1), ks[s.stack.len() - 1]) == q,
    ensures
        child_ok(s2, t, leads, e, ks.update(s.stack.len() - 1, ks[s.stack.len() - 1] + 1).push(0)),
{
    reveal(child_ok);
    lemma_push(s, s2, e, rest, frame, q);
    let top = s.stack.len() - 1;
    let ks2 = ks.update(top, ks[top] + 1).push(0);
    assert forall|d: int|
        0 <= d < s2.stack.len() - 1 implies 1 <= #[trigger] ks2[d] <= leads[frame_part(
        s2,
        e,
        d,
    ) as int] && import_at(t, frame_part(s2, e, d), ks2[d] - 1) == frame_part(s2, e, d + 1) by {
        assert(frame_part(s2, e, d) == frame_part(s, e, d));
        if d < top {
            assert(ks2[d] == ks[d]);
            assert(frame_part(s2, e, d + 1) == frame_part(s, e, d + 1));
        }
    }
}

/// The imports that the frames have looked at, after a part was loaded.
proof fn lemma_load_seen(
    s: StateView,
    s2: StateView,
    t: Seq<PartView>,
    leads: Seq<int>,
    e: usize,
    ord: Seq<usize>,
    ks: Seq<int>,
    rest: FrameView,
    frame: FrameView,
    q: usize,
)
    requires
        seen_ok(s, t, leads, e, ord, ks),
        ks.len() == s.stack.len(),
        s.stack.len() > 0,
        s2.stack == with_top(s.stack, rest).push(frame),
        rest.part == s.stack.last().part,
        frame.part == Some(q),
    ensures
        seen_ok(s2, t, leads, e, ord, ks.update(s.stack.len() - 1, ks[s.stack.len() - 1] + 1).push(0)),
{
    reveal(seen_ok);
    lemma_push(s, s2, e, rest, frame, q);
    let top = s.stack.len() - 1;
    let ks2 = ks.update(top, ks[top] + 1).push(0);
    assert forall|d: int, j: int|
        0 <= d < s2.stack.len() && 0 <= j < ks2[d] && j < leads[frame_part(s2, e, d) as int] implies ord.contains(
        #[trigger] import_at(t, frame_part(s2, e, d), j),
    ) || (d < s2.stack.len() - 1 && j == ks2[d] - 1) by {
        if d <= top {
            assert(frame_part(s2, e, d) == frame_part(s, e, d));
            if d == top && j == ks[top] {
            } else {
                assert(j < ks[d]);
                assert(ord.contains(import_at(t, frame_part(s, e, d), j)) || (d < top && j == ks[d]
                    - 1));
            }
        }
    }
}

/// What was loaded, after a part was loaded.
proof fn lemma_load_memo(
    s: StateView,
    s2: StateView,
    e: usize,
    ord: Seq<usize>,
    rest: FrameView,
    frame: FrameView,
    q: usize,
)
    requires
        memo_ok(s, e, ord),
        s.stack.len() > 0,
        s2.stack == with_top(s.stack, rest).push(frame),
        rest.part == s.stack.last().part,
        frame.part == Some(q),
        s2.done == s.done.push(q),
        !s.done.contains(q),
        q != e,
    ensures
        memo_ok(s2, e, ord),
{
    reveal(memo_ok);
    lemma_push(s, s2, e, rest, frame, q);
    let top = s.stack.len() - 1;
    assert(!ord.contains(q));
    assert forall|x: usize| #[trigger] s2.done.contains(x) == (s.done.contains(x) || x == q) by {
        if s2.done.contains(x) {
            let i = s2.done.index_of(x);
            if i < s.done.len() {
                assert(s.done[i] == x);
                assert(s.done.contains(x));
            }
        }
        if s.done.contains(x) {
            let i = s.done.index_of(x);
            assert(s2.done[i] == x);
        }
        if x == q {
            assert(s2.done[s.done.len() as int] == q);
        }
    }
    assert forall|x: usize| #[trigger] s2.done.contains(x) <==> ord.contains(x) || on_path(
        s2.stack,
        x,
    ) by {
        assert(on_path(s2.stack, x) == (on_path(s.stack, x) || x == q));
        assert(s.done.contains(x) <==> ord.contains(x) || on_path(s.stack, x));
    }
    assert forall|d: int| 1 <= d < s2.stack.len() implies !ord.contains(
        #[trigger] frame_part(s2, e, d),
    ) by {
        if d <= top {
            assert(frame_part(s2, e, d) == frame_part(s, e, d));
        }
    }
}

/// What the frames have gathered, after a part was loaded.
proof fn lemma_load_out(
    s: StateView,
    s2: StateView,
    t: Seq<PartView>,
    leads: Seq<int>,
    e: usize,
    ord: Seq<usize>,
    ks: Seq<int>,
    rest: FrameView,
    frame: FrameView,
    q: usize,
)
    requires
        out_ok(s, t, leads, e, ord, ks),
        ks.len() == s.stack.len(),
        s.stack.len() > 0,
        s2.stack == with_top(s.stack, rest).push(frame),
        rest.part == s.stack.last().part,
        frame.part == Some(q),
        rest.extra == s.stack.last().extra,
        frame.extra.len() == 0,
        ks[s.stack.len() - 1] < leads[frame_part(s, e, s.stack.len() - 1) as int],
        0 <= leads[q as int],
    ensures
        out_ok(s2, t, leads, e, ord, ks.update(s.stack.len() - 1, ks[s.stack.len() - 1] + 1).push(0)),
{
    reveal(out_ok);
    lemma_push(s, s2, e, rest, frame, q);
    let top = s.stack.len() - 1;
    let p = frame_part(s, e, top);
    lemma_out_top(s.stack, rest);
    let mid = with_top(s.stack, rest);
    assert(out_of(mid) == out_of(s.stack));
    assert(s2.stack.drop_last() =~= mid);
    assert(out_of(s2.stack) =~= out_of(s.stack));
    assert(consumed(ks[top], leads[p as int]) == 0);
    assert(tail_of(t, leads, p).take(0) =~= Seq::<ModuleItemView>::empty());
    assert(tail_of(t, leads, q).take(0) =~= Seq::<ModuleItemView>::empty());
    assert(consumed(0, leads[q as int]) == 0);
}

/// A frame looks at the import of a part that was not loaded, and the part
/// is loaded.
proof fn lemma_case_load(
    s: StateView,
    t: Seq<PartView>,
    leads: Seq<int>,
    link: Step,
    e: usize,
    ord: Seq<usize>,
    ks: Seq<int>,
)
    requires
        running(s, t, link, e),
        table_ok(t, link),
        acyclic_links(link, t.len()),
        imports_first(t, leads),
        ordered(s, t, leads, link, e, ord, ks),
        s.stack.last().ahead.len() > 0,
        s.stack.last().ahead[0] is Import,
        !s.done.contains(s.stack.last().ahead[0]->Import_part),
    ensures
        once(s).1 == Some(Outcome::Load(s.stack.last().ahead[0]->Import_part)),
        ordered(
            supplied(once(s).0, lookup(t, s.stack.last().ahead[0]->Import_part)),
            t,
            leads,
            link,
            e,
            ord,
            ks.update(s.stack.len() - 1, ks[s.stack.len() - 1] + 1).push(0),
        ),
{
    reveal(ordered);
    let top = s.stack.len() - 1;
    let f = s.stack.last();
    let q = f.ahead[0]->Import_part;
    let rest = FrameView { ahead: f.ahead.drop_first(), ..f };
    lemma_once_inv(s, t, link, e);
    let s1 = once(s).0;
    assert(!on_path(s.stack, q));
    assert(s1.stack == with_top(s.stack, rest));
    lemma_supplied_inv(s1, t, link, e, q);
    let s2 = supplied(s1, lookup(t, q));
    let frame = FrameView {
        part: Some(q),
        ahead: t[q as int].body,
        kept: Seq::empty(),
        extra: Seq::empty(),
    };
    assert(s2.stack == with_top(s.stack, rest).push(frame));
    assert(s2.done == s.done.push(q));
    lemma_top_entry(s, t, leads, link, e, ks);
    let p = frame_part(s, e, top);
    assert(import_at(t, p, ks[top]) == q);
    lemma_frame_reached(s, t, link, e, top);
    assert(frame_part(s1, e, s1.stack.len() - 1) == p) by {
        lemma_swap(s, s1, e, rest);
    }
    assert(link(p, q));
    assert(q != e);
    lemma_load_pos(s, s2, t, e, ks, rest, frame, q);
    lemma_load_child(s, s2, t, leads, e, ks, rest, frame, q);
    lemma_load_seen(s, s2, t, leads, e, ord, ks, rest, frame, q);
    lemma_load_memo(s, s2, e, ord, rest, frame, q);
    lemma_load_out(s, s2, t, leads, e, ord, ks, rest, frame, q);
}

/// The frames after the innermost frame was taken away and the frame around
/// it replaced by a frame for the same part.
proof fn lemma_pop(s: StateView, s1: StateView, e: usize, grown: FrameView)
    requires
        s.stack.len() >= 2,
        s1.stack == with_top(s.stack.drop_last(), grown),
        grown.part == s.stack[s.stack.len() - 2].part,
    ensures
        s1.stack.len() == s.stack.len() - 1,
        s1.stack[s.stack.len() - 2] == grown,
        forall|d: int| 0 <= d < s.stack.len() - 2 ==> #[trigger] s1.stack[d] == s.stack[d],
        forall|d: int|
            0 <= d < s.stack.len() - 1 ==> #[trigger] frame_part(s1, e, d) == frame_part(s, e, d),
        forall|x: usize| #[trigger] on_path(s1.stack, x) ==> on_path(s.stack, x),
        forall|x: usize|
            on_path(s.stack, x) && s.stack.last().part != Some(x) ==> #[trigger] on_path(s1.stack, x),
{
    let top = s.stack.len() - 1;
    assert(s.stack[top] == s.stack.last());
    assert forall|x: usize| #[trigger] on_path(s1.stack, x) implies on_path(s.stack, x) by {
        let d = choose|d: int| 0 <= d < s1.stack.len() && (#[trigger] s1.stack[d]).part == Some(x);
        assert(s.stack[d].part == Some(x));
    }
    assert forall|x: usize|
        on_path(s.stack, x) && s.stack.last().part != Some(x) implies #[trigger] on_path(
        s1.stack,
        x,
    ) by {
        let d = choose|d: int| 0 <= d < s.stack.len() && (#[trigger] s.stack[d]).part == Some(x);
        assert(d < top);
        assert(s1.stack[d].part == Some(x));
    }
}

/// The places that the frames have come to, after the innermost frame was
/// closed.
proof fn lemma_close_pos(
    s: StateView,
    s1: StateView,
    t: Seq<PartView>,
    e: usize,
    ks: Seq<int>,
    grown: FrameView,
)
    requires
        pos_ok(s, t, e, ks),
        s.stack.len() >= 2,
        s1.stack == with_top(s.stack.drop_last(), grown),
        grown.part == s.stack[s.stack.len() - 2].part,
        grown.ahead == s.stack[s.stack.len() - 2].ahead,
    ensures
        pos_ok(s1, t, e, ks.drop_last()),
{
    reveal(pos_ok);
    lemma_pop(s, s1, e, grown);
    let ks1 = ks.drop_last();
    assert forall|d: int| 0 <= d < s1.stack.len() implies 0 <= #[trigger] ks1[d] <= t[frame_part(
        s1,
        e,
        d,
    ) as int].body.len() && s1.stack[d].ahead == t[frame_part(s1, e, d) as int].body.skip(ks1[d]) by {
        assert(frame_part(s1, e, d) == frame_part(s, e, d));
        assert(ks1[d] == ks[d]);
        let body = t[frame_part(s, e, d) as int].body;
        assert(0 <= ks[d] <= body.len() && s.stack[d].ahead == body.skip(ks[d]));
        if d < s.stack.len() - 2 {
            assert(s1.stack[d] == s.stack[d]);
        }
    }
}

/// The frames and the frames inside them, after the innermost frame was
/// closed; the frame around it had last looked at the import of its part.
proof fn lemma_close_child(
    s: StateView,
    s1: StateView,
    t: Seq<PartView>,
    leads: Seq<int>,
    e: usize,
    ks: Seq<int>,
    grown: FrameView,
)
    requires
        child_ok(s, t, leads, e, ks),
        ks.len() == s.stack.len(),
        s.stack.len() >= 2,
        s1.stack == with_top(s.stack.drop_last(), grown),
        grown.part == s.stack[s.stack.len() - 2].part,
    ensures
        child_ok(s1, t, leads, e, ks.drop_last()),
        1 <= ks[s.stack.len() - 2] <= leads[frame_part(s, e, s.stack.len() - 2) as int],
        import_at(t, frame_part(s, e, s.stack.len() - 2), ks[s.stack.len() - 2] - 1) == frame_part(
            s,
            e,
            s.stack.len() - 1,
        ),
{
    reveal(child_ok);
    lemma_pop(s, s1, e, grown);
    let ks1 = ks.drop_last();
    assert forall|d: int|
        0 <= d < s1.stack.len() - 1 implies 1 <= #[trigger] ks1[d] <= leads[frame_part(
        s1,
        e,
        d,
    ) as int] && import_at(t, frame_part(s1, e, d), ks1[d] - 1) == frame_part(s1, e, d + 1) by {
        assert(ks1[d] == ks[d]);
        assert(frame_part(s1, e, d) == frame_part(s, e, d));
        assert(frame_part(s1, e, d + 1) == frame_part(s, e, d + 1));
    }
    let d = s.stack.len() - 2;
    assert(1 <= ks[d] <= leads[frame_part(s, e, d) as int]);
}

/// What a sequence holds after a value was added at its end.
proof fn lemma_push_contains(ord: Seq<usize>, p: usize)
    ensures
        forall|x: usize| #[trigger] ord.push(p).contains(x) == (ord.contains(x) || x == p),
{
    let ord1 = ord.push(p);
    assert forall|x: usize| #[trigger] ord1.contains(x) == (ord.contains(x) || x == p) by {
        if ord1.contains(x) {
            let i = ord1.index_of(x);
            if i < ord.len() {
                assert(ord[i] == x);
                assert(ord.contains(x));
            }
        }
        if ord.contains(x) {
            let i = ord.index_of(x);
            assert(ord1[i] == x);
        }
        assert(ord1[ord.len() as int] == p);
    }
}

/// The imports that the frames have looked at, after the innermost frame
/// was closed and its part became complete.
proof fn lemma_close_seen(
    s: StateView,
    s1: StateView,
    t: Seq<PartView>,
    leads: Seq<int>,
    e: usize,
    ord: Seq<usize>,
    ks: Seq<int>,
    grown: FrameView,
)
    requires
        seen_ok(s, t, leads, e, ord, ks),
        ks.len() == s.stack.len(),
        s.stack.len() >= 2,
        s1.stack == with_top(s.stack.drop_last(), grown),
        grown.part == s.stack[s.stack.len() - 2].part,
        import_at(t, frame_part(s, e, s.stack.len() - 2), ks[s.stack.len() - 2] - 1) == frame_part(
            s,
            e,
            s.stack.len() - 1,
        ),
    ensures
        seen_ok(s1, t, leads, e, ord.push(frame_part(s, e, s.stack.len() - 1)), ks.drop_last()),
{
    reveal(seen_ok);
    lemma_pop(s, s1, e, grown);
    let top = s.stack.len() - 1;
    let p = frame_part(s, e, top);
    let ord1 = ord.push(p);
    let ks1 = ks.drop_last();
    lemma_push_contains(ord, p);
    assert forall|d: int, j: int|
        0 <= d < s1.stack.len() && 0 <= j < ks1[d] && j < leads[frame_part(s1, e, d) as int] implies ord1.contains(
        #[trigger] import_at(t, frame_part(s1, e, d), j),
    ) || (d < s1.stack.len() - 1 && j == ks1[d] - 1) by {
        assert(frame_part(s1, e, d) == frame_part(s, e, d));
        assert(ks1[d] == ks[d]);
        assert(ord.contains(import_at(t, frame_part(s, e, d), j)) || (d < top && j == ks[d] - 1));
    }
}

/// What was loaded, after the innermost frame was closed and its part
/// became complete.
proof fn lemma_close_memo(
    s: StateView,
    s1: StateView,
    t: Seq<PartView>,
    link: Step,
    e: usize,
    ord: Seq<usize>,
    grown: FrameView,
)
    requires
        memo_ok(s, e, ord),
        frames_ok(s, t, link, e),
        acyclic_links(link, t.len()),
        s.stack.len() >= 2,
        s1.stack == with_top(s.stack.drop_last(), grown),
        grown.part == s.stack[s.stack.len() - 2].part,
        s1.done == s.done,
    ensures
        memo_ok(s1, e, ord.push(frame_part(s, e, s.stack.len() - 1))),
        !ord.contains(frame_part(s, e, s.stack.len() - 1)),
{
    reveal(memo_ok);
    lemma_pop(s, s1, e, grown);
    let top = s.stack.len() - 1;
    let p = frame_part(s, e, top);
    let ord1 = ord.push(p);
    lemma_push_contains(ord, p);
    assert(s.stack[top].part is Some);
    assert(s.stack.last() == s.stack[top]);
    assert(on_path(s.stack, p));
    assert(!on_path(s1.stack, p)) by {
        if on_path(s1.stack, p) {
            let d = choose|d: int| 0 <= d < s1.stack.len() && (#[trigger] s1.stack[d]).part == Some(p);
            assert(s.stack[d].part == Some(p));
            assert(d >= 1);
            assert(frame_part(s, e, d) == p);
            lemma_frames_differ(s, t, link, e, d, top);
        }
    }
    assert forall|x: usize| #[trigger] s1.done.contains(x) <==> ord1.contains(x) || on_path(
        s1.stack,
        x,
    ) by {
        assert(s.done.contains(x) <==> ord.contains(x) || on_path(s.stack, x));
        if on_path(s.stack, x) && x != p {
            assert(on_path(s1.stack, x));
        }
        if on_path(s1.stack, x) {
            assert(on_path(s.stack, x));
        }
    }
    assert forall|d: int| 1 <= d < s1.stack.len() implies !ord1.contains(
        #[trigger] frame_part(s1, e, d),
    ) by {
        assert(frame_part(s1, e, d) == frame_part(s, e, d));
        lemma_frames_differ(s, t, link, e, d, top);
    }
}

/// The complete parts with one more part, whose imports are all complete.
proof fn lemma_list_push(
    t: Seq<PartView>,
    leads: Seq<int>,
    link: Step,
    e: usize,
    ord: Seq<usize>,
    p: usize,
)
    requires
        list_ok(t, leads, link, e, ord),
        p < t.len(),
        !ord.contains(p),
        reaches(link, e, p),
        forall|j: int| 0 <= j < leads[p as int] ==> ord.contains(#[trigger] import_at(t, p, j)),
    ensures
        list_ok(t, leads, link, e, ord.push(p)),
{
    reveal(list_ok);
    let ord1 = ord.push(p);
    assert forall|i: int| 0 <= i < ord1.len() implies (#[trigger] ord1[i]) < t.len() by {
        if i < ord.len() {
            assert(ord1[i] == ord[i]);
        }
    }
    assert forall|i: int, j: int|
        0 <= i < ord1.len() && 0 <= j < leads[ord1[i] as int] implies earlier(
        ord1,
        i,
        #[trigger] import_at(t, ord1[i], j),
    ) by {
        if i < ord.len() {
            assert(ord1[i] == ord[i]);
            assert(earlier(ord, i, import_at(t, ord[i], j)));
            let k = choose|k: int| 0 <= k < i && #[trigger] ord[k] == import_at(t, ord[i], j);
            assert(ord1[k] == ord[k]);
        } else {
            assert(ord1[i] == p);
            assert(ord.contains(import_at(t, p, j)));
            let k = ord.index_of(import_at(t, p, j));
            assert(ord1[k] == ord[k]);
        }
    }
    assert(ord1.no_duplicates()) by {
        assert forall|a: int, b: int|
            0 <= a < ord1.len() && 0 <= b < ord1.len() && a != b implies ord1[a]
            != ord1[b] by {
            if a < ord.len() && b < ord.len() {
                assert(ord[a] != ord[b]);
            } else if a < ord.len() {
                assert(ord.contains(ord[a]));
            } else {
                assert(ord.contains(ord[b]));
            }
        }
    }
    assert forall|i: int| 0 <= i < ord1.len() implies reaches(link, e, #[trigger] ord1[i]) by {
        if i < ord.len() {
            assert(ord1[i] == ord[i]);
        }
    }
}

/// The innermost frame has looked at all entries of its part, so that all
/// imports of the part are complete.
proof fn lemma_top_imports(
    s: StateView,
    t: Seq<PartView>,
    leads: Seq<int>,
    e: usize,
    ord: Seq<usize>,
    ks: Seq<int>,
)
    requires
        seen_ok(s, t, leads, e, ord, ks),
        ks.len() == s.stack.len(),
        s.stack.len() > 0,
        ks[s.stack.len() - 1] >= leads[frame_part(s, e, s.stack.len() - 1) as int],
    ensures
        forall|j: int|
            0 <= j < leads[frame_part(s, e, s.stack.len() - 1) as int] ==> ord.contains(
                #[trigger] import_at(t, frame_part(s, e, s.stack.len() - 1), j),
            ),
{
    reveal(seen_ok);
    let top = s.stack.len() - 1;
    assert forall|j: int| 0 <= j < leads[frame_part(s, e, top) as int] implies ord.contains(
        #[trigger] import_at(t, frame_part(s, e, top), j),
    ) by {
        assert(ord.contains(import_at(t, frame_part(s, e, top), j)) || (top < top && j == ks[top]
            - 1));
    }
}

/// What the frames have gathered, after the innermost frame was closed and
/// its part became complete.
proof fn lemma_close_out(
    s: StateView,
    s1: StateView,
    t: Seq<PartView>,
    leads: Seq<int>,
    e: usize,
    ord: Seq<usize>,
    ks: Seq<int>,
    grown: FrameView,
)
    requires
        out_ok(s, t, leads, e, ord, ks),
        ks.len() == s.stack.len(),
        s.stack.len() >= 2,
        s1.stack == with_top(s.stack.drop_last(), grown),
        grown.part == s.stack[s.stack.len() - 2].part,
        grown.extra == s.stack[s.stack.len() - 2].extra + (s.stack.last().kept
            + s.stack.last().extra),
        s.stack.last().kept.len() == 0,
        ks[s.stack.len() - 1] == t[frame_part(s, e, s.stack.len() - 1) as int].body.len(),
        0 <= leads[frame_part(s, e, s.stack.len() - 1) as int] <= ks[s.stack.len() - 1],
        ks[s.stack.len() - 2] <= leads[frame_part(s, e, s.stack.len() - 2) as int],
    ensures
        out_ok(s1, t, leads, e, ord.push(frame_part(s, e, s.stack.len() - 1)), ks.drop_last()),
{
    reveal(out_ok);
    lemma_pop(s, s1, e, grown);
    let top = s.stack.len() - 1;
    let f = s.stack.last();
    let below = s.stack.drop_last();
    let parent = s.stack[top - 1];
    let p = frame_part(s, e, top);
    let pp = frame_part(s, e, top - 1);
    assert(below.last() == parent);
    lemma_out_top(below, grown);
    lemma_out_top(s.stack, f);
    assert(f.kept + f.extra =~= f.extra);
    assert(out_of(below.drop_last()) + (parent.extra + f.extra) =~= (out_of(below.drop_last())
        + parent.extra) + f.extra);
    assert(out_of(s1.stack) == out_of(s.stack));
    let tail = tail_of(t, leads, p);
    assert(consumed(ks[top], leads[p as int]) == tail.len());
    assert(tail.take(tail.len() as int) =~= tail);
    lemma_blocks_push(t, leads, ord, p);
    assert(consumed(ks.drop_last()[top - 1], leads[pp as int]) == 0);
    assert(tail_of(t, leads, pp).take(0) =~= Seq::<ModuleItemView>::empty());
    assert(frame_part(s1, e, top - 1) == pp);
    assert(out_of(s1.stack) =~= blocks(t, leads, ord.push(p)) + tail_of(t, leads, pp).take(0));
}

/// A frame that has nothing left to look at is closed, and its part is
/// complete.
proof fn lemma_case_close(
    s: StateView,
    t: Seq<PartView>,
    leads: Seq<int>,
    link: Step,
    e: usize,
    ord: Seq<usize>,
    ks: Seq<int>,
)
    requires
        running(s, t, link, e),
        acyclic_links(link, t.len()),
        imports_first(t, leads),
        ordered(s, t, leads, link, e, ord, ks),
        s.stack.last().ahead.len() == 0,
        s.stack.len() >= 2,
    ensures
        once(s).1 is None,
        ordered(
            once(s).0,
            t,
            leads,
            link,
            e,
            ord.push(frame_part(s, e, s.stack.len() - 1)),
            ks.drop_last(),
        ),
{
    reveal(ordered);
    let top = s.stack.len() - 1;
    let f = s.stack.last();
    let p = frame_part(s, e, top);
    let below = s.stack.drop_last();
    let parent = below.last();
    assert(parent == s.stack[top - 1]);
    assert(f == s.stack[top]);
    let grown = FrameView { extra: parent.extra + (f.kept + f.extra), ..parent };
    let s1 = once(s).0;
    assert(s1.stack == with_top(below, grown));
    assert(s1.done == s.done);
    lemma_top_entry(s, t, leads, link, e, ks);
    lemma_frame_reached(s, t, link, e, top);
    lemma_close_pos(s, s1, t, e, ks, grown);
    lemma_close_child(s, s1, t, leads, e, ks, grown);
    lemma_close_seen(s, s1, t, leads, e, ord, ks, grown);
    lemma_close_memo(s, s1, t, link, e, ord, grown);
    lemma_top_imports(s, t, leads, e, ord, ks);
    lemma_list_push(t, leads, link, e, ord, p);
    assert(s.stack[top].kept.len() == 0);
    lemma_close_out(s, s1, t, leads, e, ord, ks, grown);
}

/// What holds of the order in which a merge has completed its parts when it
/// ends: the merged body is made of the completed parts and then the part
/// that the merge began with, and these are the parts that this part reaches.
pub open spec fn complete(
    t: Seq<PartView>,
    leads: Seq<int>,
    link: Step,
    e: usize,
    order: Seq<usize>,
    body: Seq<ModuleItemView>,
) -> bool {
    &&& body == blocks(t, leads, order)
    &&& order.len() > 0
    &&& order.last() == e
    &&& order.no_duplicates()
    &&& sorted_parts(t, leads, order)
    &&& forall|q: usize| #[trigger] order.contains(q) <==> reaches(link, e, q)
}

/// The parts of an order that is closed under `link` are the parts that its
/// last part reaches.
proof fn lemma_order_reaches(
    t: Seq<PartView>,
    leads: Seq<int>,
    link: Step,
    e: usize,
    order: Seq<usize>,
)
    requires
        imports_all(t, leads, link),
        list_ok(t, leads, link, e, order),
        order.contains(e),
    ensures
        forall|q: usize| #[trigger] order.contains(q) <==> reaches(link, e, q),
{
    reveal(list_ok);
    assert forall|q: usize| #[trigger] order.contains(q) <==> reaches(link, e, q) by {
        if order.contains(q) {
            let i = order.index_of(q);
            assert(reaches(link, e, order[i]));
        }
        if reaches(link, e, q) {
            let inside = |x: usize| order.contains(x);
            assert forall|a: usize, b: usize|
                inside(a) && #[trigger] link(a, b) implies inside(b) by {
                let i = order.index_of(a);
                assert(order[i] < t.len());
                let j = choose|j: int| 0 <= j < leads[a as int] && #[trigger] import_at(t, a, j) == b;
                assert(earlier(order, i, import_at(t, order[i], j)));
                let k = choose|k: int| 0 <= k < i && #[trigger] order[k] == b;
                assert(order[k] == b);
            }
            lemma_closed(link, inside, e, q);
        }
    }
}

/// The outermost frame has nothing left to look at, and the merge ends.
proof fn lemma_case_done(
    s: StateView,
    t: Seq<PartView>,
    leads: Seq<int>,
    link: Step,
    e: usize,
    ord: Seq<usize>,
    ks: Seq<int>,
)
    requires
        running(s, t, link, e),
        acyclic_links(link, t.len()),
        imports_first(t, leads),
        imports_all(t, leads, link),
        ordered(s, t, leads, link, e, ord, ks),
        s.stack.last().ahead.len() == 0,
        s.stack.len() == 1,
    ensures
        once(s).1 is Some,
        once(s).1->0 is Done,
        complete(t, leads, link, e, ord.push(e), once(s).1->0->Done_0),
{
    reveal(ordered);
    let f = s.stack.last();
    assert(f == s.stack[0]);
    let body = f.kept + f.extra;
    let order = ord.push(e);
    assert(frame_part(s, e, 0) == e);
    lemma_top_entry(s, t, leads, link, e, ks);
    lemma_top_imports(s, t, leads, e, ord, ks);
    lemma_reaches_self(link, e);
    assert(!ord.contains(e)) by {
        reveal(memo_ok);
    }
    lemma_list_push(t, leads, link, e, ord, e);
    lemma_push_contains(ord, e);
    lemma_order_reaches(t, leads, link, e, order);
    assert(body == blocks(t, leads, order)) by {
        reveal(out_ok);
        lemma_out_top(s.stack, f);
        assert(s.stack.drop_last() =~= Seq::<FrameView>::empty());
        assert(out_of(Seq::<FrameView>::empty()) =~= Seq::<ModuleItemView>::empty());
        assert(out_of(s.stack) =~= f.extra);
        assert(body =~= f.extra);
        let tail = tail_of(t, leads, e);
        assert(consumed(ks[0], leads[e as int]) == tail.len());
        assert(tail.take(tail.len() as int) =~= tail);
        lemma_blocks_push(t, leads, ord, e);
    }
    assert(order.last() == e);
    reveal(list_ok);
}

/// The moves of a machine at work, up to the next part that it loads or to
/// the end of the merge: the merge goes on in order, or ends complete.
#[verifier::rlimit(100)]
#[verifier::spinoff_prover]
proof fn lemma_settle_ordered(
    s: StateView,
    t: Seq<PartView>,
    leads: Seq<int>,
    link: Step,
    e: usize,
    ord: Seq<usize>,
    ks: Seq<int>,
) -> (r: (Seq<usize>, Seq<int>))
    requires
        running(s, t, link, e),
        table_ok(t, link),
        acyclic_links(link, t.len()),
        imports_first(t, leads),
        imports_all(t, leads, link),
        ordered(s, t, leads, link, e, ord, ks),
    ensures
        settle(s).0.done == s.done,
        match settle(s).1 {
            Outcome::Load(q) => waiting(settle(s).0, t, link, e, q) && running(
                supplied(settle(s).0, lookup(t, q)),
                t,
                link,
                e,
            ) && ordered(supplied(settle(s).0, lookup(t, q)), t, leads, link, e, r.0, r.1),
            Outcome::Done(body) => complete(t, leads, link, e, r.0, body),
            Outcome::Failed(_) => false,
        },
    decreases work(s.stack),
{
    lemma_once_inv(s, t, link, e);
    let f = s.stack.last();
    let top = s.stack.len() - 1;
    if f.ahead.len() == 0 {
        if s.stack.len() == 1 {
            lemma_case_done(s, t, leads, link, e, ord, ks);
            (ord.push(e), ks)
        } else {
            lemma_case_close(s, t, leads, link, e, ord, ks);
            lemma_once_decreases(s);
            lemma_settle_ordered(
                once(s).0,
                t,
                leads,
                link,
                e,
                ord.push(frame_part(s, e, top)),
                ks.drop_last(),
            )
        }
    } else {
        let item = f.ahead[0];
        let ks1 = ks.update(top, ks[top] + 1);
        if item is Import {
            let q = item->Import_part;
            if s.done.contains(q) {
                lemma_case_skip(s, t, leads, link, e, ord, ks);
                lemma_once_decreases(s);
                lemma_settle_ordered(once(s).0, t, leads, link, e, ord, ks1)
            } else {
                lemma_case_load(s, t, leads, link, e, ord, ks);
                lemma_supplied_inv(once(s).0, t, link, e, q);
                (ord, ks1.push(0))
            }
        } else {
            lemma_case_item(s, t, leads, link, e, ord, ks);
            lemma_once_decreases(s);
            lemma_settle_ordered(once(s).0, t, leads, link, e, ord, ks1)
        }
    }
}

/// The answers of the table to a machine at work, up to the end of the
/// merge, and the order in which the merge completes its parts.
#[verifier::rlimit(100)]
#[verifier::spinoff_prover]
proof fn lemma_run_ordered(
    s: StateView,
    t: Seq<PartView>,
    leads: Seq<int>,
    link: Step,
    e: usize,
    ord: Seq<usize>,
    ks: Seq<int>,
) -> (r: (Seq<Option<Seq<ModuleItemView>>>, Seq<usize>))
    requires
        running(s, t, link, e),
        table_ok(t, link),
        acyclic_links(link, t.len()),
        imports_first(t, leads),
        imports_all(t, leads, link),
        ordered(s, t, leads, link, e, ord, ks),
        t.len() <= usize::MAX,
    ensures
        answered_by(s, t, r.0),
        replay(s, r.0) is Done,
        complete(t, leads, link, e, r.1, replay(s, r.0)->Done_0),
    decreases undone(s.done, t.len()),
{
    let (ord1, ks1) = lemma_settle_ordered(s, t, leads, link, e, ord, ks);
    let (next, out) = settle(s);
    match out {
        Outcome::Load(q) => {
            let a = lookup(t, q);
            let s2 = supplied(next, a);
            lemma_supplied_inv(next, t, link, e, q);
            lemma_undone_push(s.done, q, t.len());
            let (rest, order) = lemma_run_ordered(s2, t, leads, link, e, ord1, ks1);
            let answers = seq![a] + rest;
            assert(answers[0] == a);
            assert(answers.drop_first() =~= rest);
            (answers, order)
        },
        _ => (Seq::empty(), ord1),
    }
}

/// The merge of a part of a table whose bodies begin with their imports,
/// whose imports are the parts to which `link` relates the importing part,
/// and in which no parts import each other in a cycle: the merged body is
/// made of the bodies, without imports, of the parts that the part reaches,
/// each once, every part behind the parts that it imports, the part itself
/// last.
pub proof fn lemma_merge_order(t: Seq<PartView>, leads: Seq<int>, link: Step, e: usize) -> (order:
    Seq<usize>)
    requires
        e < t.len() <= usize::MAX,
        table_ok(t, link),
        acyclic_links(link, t.len()),
        imports_first(t, leads),
        imports_all(t, leads, link),
    ensures
        merged(t[e as int], t) is Done,
        complete(t, leads, link, e, order, merged(t[e as int], t)->Done_0),
{
    let s = started(t[e as int]);
    assert(running(s, t, link, e)) by {
        assert forall|d: int, j: int|
            0 <= d < s.stack.len() && 0 <= j < s.stack[d].ahead.len()
                implies match #[trigger] s.stack[d].ahead[j] {
            ModuleItemView::Import { part, .. } => part < t.len() && link(frame_part(s, e, d), part),
            _ => true,
        } by {
            let it = t[e as int].body[j];
        }
    }
    let ord = Seq::<usize>::empty();
    let ks = seq![0int];
    assert(ordered(s, t, leads, link, e, ord, ks)) by {
        reveal(ordered);
        reveal(pos_ok);
        reveal(child_ok);
        reveal(seen_ok);
        reveal(memo_ok);
        reveal(list_ok);
        reveal(out_ok);
        assert(s.stack[0].ahead =~= t[e as int].body.skip(0));
        assert(s.stack.drop_last() =~= Seq::<FrameView>::empty());
        assert(out_of(Seq::<FrameView>::empty()) =~= Seq::<ModuleItemView>::empty());
        lemma_out_top(s.stack, s.stack.last());
        assert(s.stack.last().extra =~= Seq::<ModuleItemView>::empty());
        assert(out_of(s.stack) =~= Seq::<ModuleItemView>::empty());
        assert(tail_of(t, leads, e).take(0) =~= Seq::<ModuleItemView>::empty());
        assert(blocks(t, leads, ord) =~= Seq::<ModuleItemView>::empty());
        assert forall|q: usize| !on_path(s.stack, q) by {}
    }
    let (answers, order) = lemma_run_ordered(s, t, leads, link, e, ord, ks);
    let picked = choose|a: Seq<Option<Seq<ModuleItemView>>>| answered_by(s, t, a);
    lemma_answers_unique(s, t, answers, picked);
    order
}

} // verus!
