//! Merging parts back into one module: the imports of a part are replaced,
//! recursively, by the bodies of the parts that they name.
//!
//! The work is done by a machine that never loads anything itself. It runs
//! until it needs a part, says which, and goes on when it is given the part
//! or told that there is none. [`Merger`] drives the machine with a loader,
//! [`merge_parts`] with a table of parts.

use crate::split::{body_view, part_views, ModuleItem, ModuleItemView, Part, PartView};
use crate::var_set::Id;
use vstd::prelude::*;
use vstd::string::*;

verus! {

/// Why a merge was given up.
#[derive(Clone, Copy, Debug, PartialEq, Eq, Structural)]
pub enum MergeError {
    /// The part with this number imports itself, directly or through other
    /// parts.
    Cycle(usize),
}

/// The source of the parts of a module.
pub trait Load {
    /// The part `part_index` of the module at `uri`, or `None` if the
    /// source knows no such part.
    fn load(&mut self, uri: &str, part_index: usize) -> Option<Part>;
}

/// A sequence in reverse order.
pub open spec fn backwards<A>(s: Seq<A>) -> Seq<A> {
    Seq::new(s.len(), |i: int| s[s.len() - 1 - i])
}

/// A part that is being merged.
pub struct Frame {
    /// The number of the part; the part that the merge began with has none.
    pub part: Option<usize>,
    /// The entries that are still to be looked at, the next one last.
    pub ahead: Vec<ModuleItem>,
    /// The imports that stay.
    pub kept: Vec<ModuleItem>,
    /// The other entries, with the bodies that took the place of imports.
    pub extra: Vec<ModuleItem>,
}

/// The mathematical content of a [`Frame`].
pub struct FrameView {
    pub part: Option<usize>,
    /// The entries that are still to be looked at, the next one first.
    pub ahead: Seq<ModuleItemView>,
    pub kept: Seq<ModuleItemView>,
    pub extra: Seq<ModuleItemView>,
}

impl View for Frame {
    type V = FrameView;

    open spec fn view(&self) -> FrameView {
        FrameView {
            part: self.part,
            ahead: backwards(body_view(self.ahead@)),
            kept: body_view(self.kept@),
            extra: body_view(self.extra@),
        }
    }
}

/// The views of a stack of frames.
pub open spec fn stack_view(s: Seq<Frame>) -> Seq<FrameView> {
    Seq::new(s.len(), |d: int| s[d]@)
}

/// The state of a merge.
pub struct MergeState {
    /// The address of the module whose parts are merged.
    pub uri: String,
    /// The parts that are being merged, the innermost last.
    pub stack: Vec<Frame>,
    /// The parts that were loaded.
    pub done: Vec<usize>,
    /// The parts that were asked for and not found.
    pub missing: Vec<usize>,
    /// The part that the merge waits for.
    pub pending: Option<usize>,
    /// The names of the import that asked for the pending part.
    pub pending_names: Vec<Id>,
}

/// The mathematical content of a [`MergeState`].
pub struct StateView {
    pub uri: Seq<char>,
    pub stack: Seq<FrameView>,
    pub done: Seq<usize>,
    pub missing: Seq<usize>,
    pub pending: Option<usize>,
    pub pending_names: Seq<Id>,
}

impl View for MergeState {
    type V = StateView;

    open spec fn view(&self) -> StateView {
        StateView {
            uri: self.uri@,
            stack: stack_view(self.stack@),
            done: self.done@,
            missing: self.missing@,
            pending: self.pending,
            pending_names: self.pending_names@,
        }
    }
}

/// Where a run of the machine stops.
pub enum Outcome {
    /// The machine needs this part.
    Load(usize),
    /// The merge is complete; this is the body of the merged module.
    Done(Seq<ModuleItemView>),
    /// The merge was given up.
    Failed(MergeError),
}

/// Where a run of the machine stops, with the merged module in hand.
#[derive(Debug)]
pub enum Step {
    Load(usize),
    Done(Part),
    Failed(MergeError),
}

impl Step {
    /// The outcome that the step stands for.
    pub open spec fn outcome(self) -> Outcome {
        match self {
            Step::Load(i) => Outcome::Load(i),
            Step::Done(p) => Outcome::Done(p@.body),
            Step::Failed(e) => Outcome::Failed(e),
        }
    }
}

/// Part `i` is being merged.
pub open spec fn on_path(stack: Seq<FrameView>, i: usize) -> bool {
    exists|d: int| 0 <= d < stack.len() && (#[trigger] stack[d]).part == Some(i)
}

/// The state in which the merge of a part begins.
pub open spec fn started(entry: PartView) -> StateView {
    StateView {
        uri: entry.uri,
        stack: seq![
            FrameView { part: None, ahead: entry.body, kept: Seq::empty(), extra: Seq::empty() },
        ],
        done: Seq::empty(),
        missing: Seq::empty(),
        pending: None,
        pending_names: Seq::empty(),
    }
}

/// The stack with its innermost frame replaced.
pub open spec fn with_top(stack: Seq<FrameView>, top: FrameView) -> Seq<FrameView> {
    stack.drop_last().push(top)
}

/// One move of the machine: the state after it, and the outcome if the
/// machine stops there.
///
/// A machine that waits for a part stays as it is. A frame with nothing left
/// to look at is closed: its body, the imports that stay and then the rest,
/// ends the merge if the frame is the outermost, and else is added to the
/// frame around it. Otherwise the next entry is looked at. An import of a
/// part that is being merged ends the merge; an import of a part that was not
/// found stays; an import of a part that was loaded is dropped; any other
/// import makes the machine wait for its part. Every other entry is kept in
/// its place.
pub open spec fn once(s: StateView) -> (StateView, Option<Outcome>) {
    if s.pending is Some {
        (s, Some(Outcome::Load(s.pending->0)))
    } else if s.stack.len() == 0 {
        (s, Some(Outcome::Done(Seq::empty())))
    } else {
        let top = s.stack.last();
        let below = s.stack.drop_last();
        if top.ahead.len() == 0 {
            let body = top.kept + top.extra;
            if below.len() == 0 {
                (StateView { stack: below, ..s }, Some(Outcome::Done(body)))
            } else {
                let parent = below.last();
                (
                    StateView {
                        stack: with_top(
                            below,
                            FrameView { extra: parent.extra + body, ..parent },
                        ),
                        ..s
                    },
                    None,
                )
            }
        } else {
            let item = top.ahead[0];
            let rest = FrameView { ahead: top.ahead.drop_first(), ..top };
            match item {
                ModuleItemView::Import { part, names } => {
                    if on_path(s.stack, part) {
                        (
                            StateView { stack: with_top(s.stack, rest), ..s },
                            Some(Outcome::Failed(MergeError::Cycle(part))),
                        )
                    } else if s.missing.contains(part) {
                        (
                            StateView {
                                stack: with_top(
                                    s.stack,
                                    FrameView { kept: rest.kept.push(item), ..rest },
                                ),
                                ..s
                            },
                            None,
                        )
                    } else if s.done.contains(part) {
                        (StateView { stack: with_top(s.stack, rest), ..s }, None)
                    } else {
                        (
                            StateView {
                                stack: with_top(s.stack, rest),
                                pending: Some(part),
                                pending_names: names,
                                ..s
                            },
                            Some(Outcome::Load(part)),
                        )
                    }
                },
                _ => (
                    StateView {
                        stack: with_top(s.stack, FrameView { extra: rest.extra.push(item), ..rest }),
                        ..s
                    },
                    None,
                ),
            }
        }
    }
}

/// The entries that the machine has still to look at, and the frames that it
/// has still to close.
pub open spec fn work(stack: Seq<FrameView>) -> nat
    decreases stack.len(),
{
    if stack.len() == 0 {
        0
    } else {
        work(stack.drop_last()) + stack.last().ahead.len() + 1
    }
}

/// The work of a stack whose innermost frame was replaced.
pub proof fn lemma_work_top(stack: Seq<FrameView>, top: FrameView)
    requires
        stack.len() > 0,
    ensures
        work(with_top(stack, top)) == work(stack.drop_last()) + top.ahead.len() + 1,
        work(stack) == work(stack.drop_last()) + stack.last().ahead.len() + 1,
{
    assert(with_top(stack, top).drop_last() =~= stack.drop_last());
}

/// A move that does not stop the machine leaves less work.
pub proof fn lemma_once_decreases(s: StateView)
    ensures
        once(s).1 is None ==> work(once(s).0.stack) < work(s.stack),
{
    if once(s).1 is None {
        let top = s.stack.last();
        let below = s.stack.drop_last();
        if top.ahead.len() == 0 {
            let parent = below.last();
            let body = top.kept + top.extra;
            lemma_work_top(below, FrameView { extra: parent.extra + body, ..parent });
            lemma_work_top(s.stack, top);
        } else {
            let rest = FrameView { ahead: top.ahead.drop_first(), ..top };
            let item = top.ahead[0];
            lemma_work_top(s.stack, rest);
            lemma_work_top(s.stack, FrameView { kept: rest.kept.push(item), ..rest });
            lemma_work_top(s.stack, FrameView { extra: rest.extra.push(item), ..rest });
        }
    }
}

/// The moves of the machine up to the one at which it stops: the state
/// there, and the outcome.
pub open spec fn settle(s: StateView) -> (StateView, Outcome)
    decreases work(s.stack),
{
    let (next, out) = once(s);
    match out {
        Some(o) => (next, o),
        None => {
            proof {
                lemma_once_decreases(s);
            }
            settle(next)
        },
    }
}

/// The state of a waiting machine after it was given the body of the part
/// that it waits for, or was told that there is no such part. A part that was
/// found is merged next; the import of a part that was not found stays.
pub open spec fn supplied(s: StateView, answer: Option<Seq<ModuleItemView>>) -> StateView {
    if s.pending is None || s.stack.len() == 0 {
        s
    } else {
        let i = s.pending->0;
        match answer {
            Some(body) => StateView {
                stack: s.stack.push(
                    FrameView { part: Some(i), ahead: body, kept: Seq::empty(), extra: Seq::empty() },
                ),
                done: s.done.push(i),
                pending: None,
                pending_names: Seq::empty(),
                ..s
            },
            None => {
                let top = s.stack.last();
                StateView {
                    stack: with_top(
                        s.stack,
                        FrameView {
                            kept: top.kept.push(
                                ModuleItemView::Import { part: i, names: s.pending_names },
                            ),
                            ..top
                        },
                    ),
                    missing: s.missing.push(i),
                    pending: None,
                    pending_names: Seq::empty(),
                    ..s
                }
            },
        }
    }
}

/// Where the machine stops when each part that it asks for is answered by
/// the next of `answers`. A machine that asks for more parts than there are
/// answers stops waiting.
pub open spec fn replay(s: StateView, answers: Seq<Option<Seq<ModuleItemView>>>) -> Outcome
    decreases answers.len(),
{
    let (next, out) = settle(s);
    match out {
        Outcome::Load(_) => if answers.len() == 0 {
            out
        } else {
            replay(supplied(next, answers[0]), answers.drop_first())
        },
        _ => out,
    }
}

/// The body of part `i` of a table of parts, if the table has it.
pub open spec fn lookup(table: Seq<PartView>, i: usize) -> Option<Seq<ModuleItemView>> {
    if i < table.len() {
        Some(table[i as int].body)
    } else {
        None
    }
}

/// `answers` are the answers that a table of parts gives to a machine, one
/// for each part that the machine asks for until it stops for good.
pub open spec fn answered_by(
    s: StateView,
    table: Seq<PartView>,
    answers: Seq<Option<Seq<ModuleItemView>>>,
) -> bool
    decreases answers.len(),
{
    let (next, out) = settle(s);
    match out {
        Outcome::Load(i) => answers.len() > 0 && answers[0] == lookup(table, i) && answered_by(
            supplied(next, answers[0]),
            table,
            answers.drop_first(),
        ),
        _ => answers.len() == 0,
    }
}

/// Whether a result tells the outcome at which a merge stopped.
pub open spec fn tells(r: Result<Part, MergeError>, uri: Seq<char>, out: Outcome) -> bool {
    match r {
        Ok(p) => p@.uri == uri && out == Outcome::Done(p@.body),
        Err(e) => out == Outcome::Failed(e),
    }
}

/// Whether a list holds a number.
fn holds(v: &Vec<usize>, i: usize) -> (r: bool)
    ensures
        r == v@.contains(i),
{
    let mut k: usize = 0;
    while k < v.len()
        invariant
            k <= v.len(),
            forall|j: int| 0 <= j < k ==> v@[j] != i,
        decreases v.len() - k,
    {
        if v[k] == i {
            return true;
        }
        k += 1;
    }
    false
}

/// Whether a part is being merged.
fn path_holds(stack: &Vec<Frame>, i: usize) -> (r: bool)
    ensures
        r == on_path(stack_view(stack@), i),
{
    let mut d: usize = 0;
    while d < stack.len()
        invariant
            d <= stack.len(),
            forall|j: int| 0 <= j < d ==> (#[trigger] stack_view(stack@)[j]).part != Some(i),
        decreases stack.len() - d,
    {
        let hit = match stack[d].part {
            Some(p) => p == i,
            None => false,
        };
        if hit {
            assert(stack_view(stack@)[d as int].part == Some(i));
            return true;
        }
        d += 1;
    }
    false
}

/// The entries of a list in reverse order.
fn reversed(v: Vec<ModuleItem>) -> (r: Vec<ModuleItem>)
    ensures
        body_view(r@) == backwards(body_view(v@)),
{
    let mut v = v;
    let ghost start = body_view(v@);
    let mut r: Vec<ModuleItem> = Vec::new();
    while v.len() > 0
        invariant
            v.len() + r.len() == start.len(),
            forall|j: int| 0 <= j < v.len() ==> (#[trigger] v@[j])@ == start[j],
            forall|j: int| 0 <= j < r.len() ==> (#[trigger] r@[j])@ == start[start.len() - 1 - j],
        decreases v.len(),
    {
        let x = v.pop();
        match x {
            Some(item) => {
                r.push(item);
            },
            None => {},
        }
    }
    assert(body_view(r@) =~= backwards(start));
    r
}

impl MergeState {
    /// The state in which the merge of `entry` begins.
    pub fn start(entry: Part) -> (s: MergeState)
        ensures
            s@ == started(entry@),
    {
        let ghost body = entry@.body;
        let ahead = reversed(entry.body);
        let frame = Frame { part: None, ahead, kept: Vec::new(), extra: Vec::new() };
        proof {
            assert(frame@.ahead =~= body);
            assert(frame@.kept =~= Seq::<ModuleItemView>::empty());
            assert(frame@.extra =~= Seq::<ModuleItemView>::empty());
        }
        let mut stack: Vec<Frame> = Vec::new();
        stack.push(frame);
        let s = MergeState {
            uri: entry.uri,
            stack,
            done: Vec::new(),
            missing: Vec::new(),
            pending: None,
            pending_names: Vec::new(),
        };
        assert(s@.stack =~= started(entry@).stack);
        s
    }

    /// Makes one move.
    #[verifier::rlimit(100)]
    fn step_once(&mut self) -> (r: Option<Step>)
        ensures
            final(self)@ == once(old(self)@).0,
            match r {
                Some(step) => once(old(self)@).1 == Some(step.outcome()) && (step is Done ==> step->Done_0@.uri
                    == old(self)@.uri),
                None => once(old(self)@).1 is None,
            },
    {
        let ghost s = self@;
        match self.pending {
            Some(i) => {
                return Some(Step::Load(i));
            },
            None => {},
        }
        let popped = self.stack.pop();
        match popped {
            None => {
                let p = Part { uri: self.uri.clone(), body: Vec::new() };
                assert(self@.stack =~= s.stack);
                assert(p@.body =~= Seq::<ModuleItemView>::empty());
                Some(Step::Done(p))
            },
            Some(top) => {
                let mut top = top;
                let ghost topv = top@;
                let ghost below = stack_view(self.stack@);
                assert(topv == s.stack.last());
                assert(below =~= s.stack.drop_last());
                let next = top.ahead.pop();
                match next {
                    None => {
                        assert(topv.ahead.len() == 0);
                        let mut body = top.kept;
                        let mut extra = top.extra;
                        body.append(&mut extra);
                        assert(body_view(body@) =~= topv.kept + topv.extra);
                        let outer = self.stack.pop();
                        match outer {
                            None => {
                                assert(self@.stack =~= below);
                                Some(Step::Done(Part { uri: self.uri.clone(), body }))
                            },
                            Some(parent) => {
                                let mut parent = parent;
                                let ghost pv = parent@;
                                assert(pv == below.last());
                                parent.extra.append(&mut body);
                                assert(parent@.extra =~= pv.extra + (topv.kept + topv.extra));
                                self.stack.push(parent);
                                assert(self@.stack =~= with_top(
                                    below,
                                    FrameView { extra: pv.extra + (topv.kept + topv.extra), ..pv },
                                ));
                                None
                            },
                        }
                    },
                    Some(item) => {
                        let ghost itemv = item@;
                        let ghost restv = FrameView { ahead: topv.ahead.drop_first(), ..topv };
                        assert(topv.ahead.len() > 0);
                        assert(itemv == topv.ahead[0]);
                        assert(top@ =~= restv) by {
                            assert(top@.ahead =~= restv.ahead);
                        }
                        match item {
                            ModuleItem::Import { part, names } => {
                                let cyclic = if match top.part {
                                    Some(p) => p == part,
                                    None => false,
                                } {
                                    true
                                } else {
                                    path_holds(&self.stack, part)
                                };
                                proof {
                                    if on_path(s.stack, part) {
                                        let d = choose|d: int|
                                            0 <= d < s.stack.len() && (#[trigger] s.stack[d]).part
                                                == Some(part);
                                        if d < below.len() {
                                            assert(below[d].part == Some(part));
                                        }
                                    }
                                    if on_path(below, part) {
                                        let d = choose|d: int|
                                            0 <= d < below.len() && (#[trigger] below[d]).part
                                                == Some(part);
                                        assert(s.stack[d].part == Some(part));
                                    }
                                    if topv.part == Some(part) {
                                        assert(s.stack[s.stack.len() - 1].part == Some(part));
                                    }
                                }
                                if cyclic {
                                    self.stack.push(top);
                                    assert(self@.stack =~= with_top(s.stack, restv));
                                    Some(Step::Failed(MergeError::Cycle(part)))
                                } else if holds(&self.missing, part) {
                                    top.kept.push(ModuleItem::Import { part, names });
                                    assert(top@.kept =~= restv.kept.push(itemv));
                                    self.stack.push(top);
                                    assert(self@.stack =~= with_top(
                                        s.stack,
                                        FrameView { kept: restv.kept.push(itemv), ..restv },
                                    ));
                                    None
                                } else if holds(&self.done, part) {
                                    self.stack.push(top);
                                    assert(self@.stack =~= with_top(s.stack, restv));
                                    None
                                } else {
                                    self.stack.push(top);
                                    assert(self@.stack =~= with_top(s.stack, restv));
                                    self.pending = Some(part);
                                    self.pending_names = names;
                                    Some(Step::Load(part))
                                }
                            },
                            ModuleItem::Stmt { index } => {
                                top.extra.push(ModuleItem::Stmt { index });
                                assert(top@.extra =~= restv.extra.push(itemv));
                                self.stack.push(top);
                                assert(self@.stack =~= with_top(
                                    s.stack,
                                    FrameView { extra: restv.extra.push(itemv), ..restv },
                                ));
                                None
                            },
                            ModuleItem::Export { names } => {
                                top.extra.push(ModuleItem::Export { names });
                                assert(top@.extra =~= restv.extra.push(itemv));
                                self.stack.push(top);
                                assert(self@.stack =~= with_top(
                                    s.stack,
                                    FrameView { extra: restv.extra.push(itemv), ..restv },
                                ));
                                None
                            },
                        }
                    },
                }
            },
        }
    }

    /// Runs the machine until it stops: because it needs a part, because the
    /// merge is complete, or because the merge was given up.
    pub fn advance(&mut self) -> (step: Step)
        ensures
            (final(self)@, step.outcome()) == settle(old(self)@),
            step is Done ==> step->Done_0@.uri == old(self)@.uri,
    {
        loop
            invariant
                settle(self@) == settle(old(self)@),
                self@.uri == old(self)@.uri,
            decreases work(self@.stack),
        {
            proof {
                lemma_once_decreases(self@);
            }
            match self.step_once() {
                Some(step) => {
                    return step;
                },
                None => {},
            }
        }
    }

    /// Gives a waiting machine the part that it waits for, or tells it that
    /// there is none. A machine that does not wait stays as it is.
    #[verifier::rlimit(100)]
    pub fn supply(&mut self, answer: Option<Part>)
        ensures
            final(self)@ == supplied(
                old(self)@,
                match answer {
                    Some(p) => Some(p@.body),
                    None => None,
                },
            ),
    {
        let ghost s = self@;
        match self.pending {
            None => {},
            Some(i) => {
                if self.stack.len() == 0 {
                    return ;
                }
                match answer {
                    Some(p) => {
                        let ghost body = p@.body;
                        let ahead = reversed(p.body);
                        let frame = Frame { part: Some(i), ahead, kept: Vec::new(), extra: Vec::new() };
                        proof {
                            assert(frame@.ahead =~= body);
                            assert(frame@.kept =~= Seq::<ModuleItemView>::empty());
                            assert(frame@.extra =~= Seq::<ModuleItemView>::empty());
                        }
                        self.stack.push(frame);
                        self.done.push(i);
                        self.pending = None;
                        self.pending_names = Vec::new();
                        assert(self@.stack =~= s.stack.push(frame@));
                    },
                    None => {
                        let popped = self.stack.pop();
                        match popped {
                            Some(top) => {
                                let mut top = top;
                                let ghost topv = top@;
                                let mut names: Vec<Id> = Vec::new();
                                names.append(&mut self.pending_names);
                                top.kept.push(ModuleItem::Import { part: i, names });
                                assert(top@.kept =~= topv.kept.push(
                                    ModuleItemView::Import { part: i, names: s.pending_names },
                                ));
                                self.stack.push(top);
                                self.missing.push(i);
                                self.pending = None;
                                assert(self@.stack =~= with_top(
                                    s.stack,
                                    FrameView {
                                        kept: topv.kept.push(
                                            ModuleItemView::Import {
                                                part: i,
                                                names: s.pending_names,
                                            },
                                        ),
                                        ..topv
                                    },
                                ));
                                assert(self@.pending_names =~= Seq::<Id>::empty());
                            },
                            None => {},
                        }
                    },
                }
            },
        }
    }
}

/// Running the machine until it stops changes neither the address nor what
/// is known of the parts; a machine that did not wait and stops for a part
/// waits for that part, inside a frame, and the part was not asked for
/// before.
pub proof fn lemma_settle_keeps(s: StateView)
    ensures
        settle(s).0.uri == s.uri,
        settle(s).0.done == s.done,
        settle(s).0.missing == s.missing,
        s.pending is None ==> match settle(s).1 {
            Outcome::Load(i) => settle(s).0.pending == Some(i) && settle(s).0.stack.len() > 0
                && !s.done.contains(i) && !s.missing.contains(i),
            _ => settle(s).0.pending is None,
        },
    decreases work(s.stack),
{
    let (next, out) = once(s);
    if out is None {
        lemma_once_decreases(s);
        lemma_settle_keeps(next);
    }
}

/// The parts that the machine asks for, in order, when each is answered by
/// the next of `answers`.
pub open spec fn requests(s: StateView, answers: Seq<Option<Seq<ModuleItemView>>>) -> Seq<usize>
    decreases answers.len(),
{
    let (next, out) = settle(s);
    match out {
        Outcome::Load(i) => if answers.len() == 0 {
            seq![i]
        } else {
            seq![i] + requests(supplied(next, answers[0]), answers.drop_first())
        },
        _ => Seq::empty(),
    }
}

/// The machine asks for no part twice, and for no part that was loaded or
/// not found before, whatever the answers are.
#[verifier::rlimit(100)]
pub proof fn law_asks_once(s: StateView, answers: Seq<Option<Seq<ModuleItemView>>>)
    requires
        s.pending is None,
    ensures
        requests(s, answers).no_duplicates(),
        forall|i: usize|
            #[trigger] requests(s, answers).contains(i) ==> !s.done.contains(i)
                && !s.missing.contains(i),
    decreases answers.len(),
{
    lemma_settle_keeps(s);
    let (next, out) = settle(s);
    let all = requests(s, answers);
    match out {
        Outcome::Load(i) => {
            if answers.len() == 0 {
                assert forall|x: usize| #[trigger] all.contains(x) implies !s.done.contains(x)
                    && !s.missing.contains(x) by {
                    let k = all.index_of(x);
                }
            } else {
                let s2 = supplied(next, answers[0]);
                let later = requests(s2, answers.drop_first());
                law_asks_once(s2, answers.drop_first());
                assert(s2.done.contains(i) || s2.missing.contains(i)) by {
                    if answers[0] is Some {
                        assert(s2.done[next.done.len() as int] == i);
                    } else {
                        assert(s2.missing[next.missing.len() as int] == i);
                    }
                }
                assert forall|x: usize| s.done.contains(x) implies s2.done.contains(x) by {
                    let k = s.done.index_of(x);
                    assert(s2.done[k] == x);
                }
                assert forall|x: usize| s.missing.contains(x) implies s2.missing.contains(x) by {
                    let k = s.missing.index_of(x);
                    assert(s2.missing[k] == x);
                }
                assert(!later.contains(i));
                assert forall|a: int, b: int|
                    0 <= a < all.len() && 0 <= b < all.len() && a != b implies all[a] != all[b] by {
                    if a > 0 {
                        assert(all[a] == later[a - 1]);
                        assert(later.contains(later[a - 1]));
                    }
                    if b > 0 {
                        assert(all[b] == later[b - 1]);
                        assert(later.contains(later[b - 1]));
                    }
                }
                assert forall|x: usize| #[trigger] all.contains(x) implies !s.done.contains(x)
                    && !s.missing.contains(x) by {
                    let k = all.index_of(x);
                    if k > 0 {
                        assert(later[k - 1] == x);
                        assert(later.contains(x));
                    }
                }
            }
        },
        _ => {},
    }
}

/// A table of parts gives a machine one sequence of answers.
pub proof fn lemma_answers_unique(
    s: StateView,
    table: Seq<PartView>,
    a: Seq<Option<Seq<ModuleItemView>>>,
    b: Seq<Option<Seq<ModuleItemView>>>,
)
    requires
        answered_by(s, table, a),
        answered_by(s, table, b),
    ensures
        a == b,
    decreases a.len(),
{
    let (next, out) = settle(s);
    match out {
        Outcome::Load(i) => {
            lemma_answers_unique(supplied(next, a[0]), table, a.drop_first(), b.drop_first());
            assert(a =~= seq![a[0]] + a.drop_first());
            assert(b =~= seq![b[0]] + b.drop_first());
        },
        _ => {
            assert(a =~= b);
        },
    }
}

/// Where the merge of `entry` stops when the parts come from `table`: the
/// outcome of the machine when every part that it asks for is answered by the
/// table.
pub open spec fn merged(entry: PartView, table: Seq<PartView>) -> Outcome {
    replay(
        started(entry),
        choose|answers: Seq<Option<Seq<ModuleItemView>>>|
            answered_by(started(entry), table, answers),
    )
}

/// Merges `entry` with the parts of `parts` that it imports, directly or
/// through other parts. The imports name the parts by their positions in
/// `parts`; an import of a part that `parts` does not have stays.
#[verifier::rlimit(100)]
pub fn merge_parts(entry: Part, parts: &Vec<Part>) -> (r: Result<Part, MergeError>)
    ensures
        tells(r, entry@.uri, merged(entry@, part_views(parts@))),
{
    let ghost s0 = started(entry@);
    let ghost uri = entry@.uri;
    let ghost table = part_views(parts@);
    let mut st = MergeState::start(entry);
    let ghost mut asked: Seq<Option<Seq<ModuleItemView>>> = Seq::empty();
    proof {
        assert forall|rest: Seq<Option<Seq<ModuleItemView>>>|
            #[trigger] replay(st@, rest) == replay(s0, asked + rest) && answered_by(st@, table, rest)
                == answered_by(s0, table, asked + rest) by {
            assert(asked + rest =~= rest);
        }
    }
    loop
        invariant
            st@.uri == uri,
            uri == entry@.uri,
            s0 == started(entry@),
            table == part_views(parts@),
            st@.pending is None,
            forall|rest: Seq<Option<Seq<ModuleItemView>>>|
                #[trigger] replay(st@, rest) == replay(s0, asked + rest) && answered_by(
                    st@,
                    table,
                    rest,
                ) == answered_by(s0, table, asked + rest),
        decreases 2 * usize::MAX - st.done@.len() - st.missing@.len(),
    {
        let ghost before = st@;
        proof {
            lemma_settle_keeps(before);
        }
        let step = st.advance();
        let ghost mid = st@;
        match step {
            Step::Done(p) => {
                proof {
                    let none = Seq::<Option<Seq<ModuleItemView>>>::empty();
                    assert(replay(before, none) == replay(s0, asked + none));
                    assert(answered_by(before, table, none) == answered_by(s0, table, asked + none));
                    assert(asked + none =~= asked);
                    assert(answered_by(s0, table, asked));
                    let picked = choose|answers: Seq<Option<Seq<ModuleItemView>>>|
                        answered_by(s0, table, answers);
                    lemma_answers_unique(s0, table, asked, picked);
                }
                return Ok(p);
            },
            Step::Failed(e) => {
                proof {
                    let none = Seq::<Option<Seq<ModuleItemView>>>::empty();
                    assert(replay(before, none) == replay(s0, asked + none));
                    assert(answered_by(before, table, none) == answered_by(s0, table, asked + none));
                    assert(asked + none =~= asked);
                    assert(answered_by(s0, table, asked));
                    let picked = choose|answers: Seq<Option<Seq<ModuleItemView>>>|
                        answered_by(s0, table, answers);
                    lemma_answers_unique(s0, table, asked, picked);
                }
                return Err(e);
            },
            Step::Load(i) => {
                let answer = if i < parts.len() {
                    Some(parts[i].clone())
                } else {
                    None
                };
                let ghost av = lookup(table, i);
                st.supply(answer);
                proof {
                    let grown = asked.push(av);
                    assert forall|rest: Seq<Option<Seq<ModuleItemView>>>|
                        #[trigger] replay(st@, rest) == replay(s0, grown + rest) && answered_by(
                            st@,
                            table,
                            rest,
                        ) == answered_by(s0, table, grown + rest) by {
                        let longer = seq![av] + rest;
                        assert(grown + rest =~= asked + longer);
                        assert(longer.drop_first() =~= rest);
                        assert(replay(before, longer) == replay(s0, asked + longer));
                        assert(answered_by(before, table, longer) == answered_by(
                            s0,
                            table,
                            asked + longer,
                        ));
                    }
                    asked = grown;
                }
                let _ = st.done.len();
                let _ = st.missing.len();
            },
        }
    }
}

/// The body of the part that a loader gave, if it gave one.
pub open spec fn answer_view(answer: Option<Part>) -> Option<Seq<ModuleItemView>> {
    match answer {
        Some(p) => Some(p@.body),
        None => None,
    }
}

/// A merge of parts that come from a loader.
pub struct Merger<L: Load> {
    pub loader: L,
    /// The parts that the last merge asked of the loader, in order.
    pub asked: Vec<usize>,
}

impl<L: Load> Merger<L> {
    /// A merger that takes its parts from `loader`.
    pub fn new(loader: L) -> (m: Self)
        ensures
            m.loader == loader,
            m.asked@.len() == 0,
    {
        Merger { loader, asked: Vec::new() }
    }

    /// Merges `entry` with the parts that it imports, directly or through
    /// other parts. The parts are asked of the loader under the address of
    /// `entry`, each of them once at most; an import of a part that the loader
    /// does not have stays. The result is where the machine stops for the
    /// answers that the loader gave: the merged module, or the reason why the
    /// merge was given up. `asked` then holds the parts that the loader was
    /// asked for.
    #[verifier::rlimit(100)]
    pub fn merge_recursively(&mut self, entry: Part) -> (r: Result<Part, MergeError>)
        ensures
            exists|answers: Seq<Option<Seq<ModuleItemView>>>|
                tells(r, entry@.uri, #[trigger] replay(started(entry@), answers))
                    && final(self).asked@ == requests(started(entry@), answers),
            final(self).asked@.no_duplicates(),
    {
        let ghost s0 = started(entry@);
        let ghost uri = entry@.uri;
        let mut st = MergeState::start(entry);
        let ghost mut given: Seq<Option<Seq<ModuleItemView>>> = Seq::empty();
        self.asked = Vec::new();
        proof {
            assert forall|rest: Seq<Option<Seq<ModuleItemView>>>| #[trigger]
                replay(st@, rest) == replay(s0, given + rest) && self.asked@ + requests(st@, rest)
                    == requests(s0, given + rest) by {
                assert(given + rest =~= rest);
                assert(self.asked@ + requests(st@, rest) =~= requests(st@, rest));
            }
        }
        loop
            invariant
                st@.uri == uri,
                uri == entry@.uri,
                s0 == started(entry@),
                st@.pending is None,
                forall|rest: Seq<Option<Seq<ModuleItemView>>>| #[trigger]
                    replay(st@, rest) == replay(s0, given + rest) && self.asked@ + requests(
                        st@,
                        rest,
                    ) == requests(s0, given + rest),
            decreases 2 * usize::MAX - st.done@.len() - st.missing@.len(),
        {
            let ghost before = st@;
            let ghost log = self.asked@;
            proof {
                lemma_settle_keeps(before);
            }
            let step = st.advance();
            match step {
                Step::Done(p) => {
                    proof {
                        let none = Seq::<Option<Seq<ModuleItemView>>>::empty();
                        assert(replay(before, none) == replay(s0, given + none));
                        assert(log + requests(before, none) == requests(s0, given + none));
                        assert(given + none =~= given);
                        assert(log + requests(before, none) =~= log);
                        assert(tells(Ok(p), uri, replay(s0, given)));
                        law_asks_once(s0, given);
                    }
                    return Ok(p);
                },
                Step::Failed(e) => {
                    proof {
                        let none = Seq::<Option<Seq<ModuleItemView>>>::empty();
                        assert(replay(before, none) == replay(s0, given + none));
                        assert(log + requests(before, none) == requests(s0, given + none));
                        assert(given + none =~= given);
                        assert(log + requests(before, none) =~= log);
                        assert(tells(Err(e), uri, replay(s0, given)));
                        law_asks_once(s0, given);
                    }
                    return Err(e);
                },
                Step::Load(i) => {
                    self.asked.push(i);
                    let answer = self.loader.load(st.uri.as_str(), i);
                    let ghost av = answer_view(answer);
                    st.supply(answer);
                    proof {
                        let grown = given.push(av);
                        assert forall|rest: Seq<Option<Seq<ModuleItemView>>>| #[trigger]
                            replay(st@, rest) == replay(s0, grown + rest) && self.asked@
                                + requests(st@, rest) == requests(s0, grown + rest) by {
                            let longer = seq![av] + rest;
                            assert(grown + rest =~= given + longer);
                            assert(longer.drop_first() =~= rest);
                            assert(replay(before, longer) == replay(s0, given + longer));
                            assert(log + requests(before, longer) == requests(s0, given + longer));
                            assert(requests(before, longer) == seq![i] + requests(st@, rest));
                            assert(log.push(i) + requests(st@, rest) =~= log + (seq![i] + requests(
                                st@,
                                rest,
                            )));
                        }
                        given = grown;
                    }
                    let _ = st.done.len();
                    let _ = st.missing.len();
                },
            }
        }
    }
}

/// A loader that has the parts of one module at hand.
pub struct SingleModuleLoader {
    /// The address of the module.
    pub entry_module_uri: String,
    /// The parts of the module, by their numbers.
    pub modules: Vec<Part>,
}

impl Load for SingleModuleLoader {
    /// A copy of part `part_index`, if `uri` is the address of the module
    /// and the module has such a part.
    fn load(&mut self, uri: &str, part_index: usize) -> (r: Option<Part>)
        ensures
            *final(self) == *old(self),
            match r {
                Some(p) => uri@ == old(self).entry_module_uri@ && part_index < old(
                    self,
                ).modules.len() && p@ == old(self).modules@[part_index as int]@,
                None => !(uri@ == old(self).entry_module_uri@ && part_index < old(
                    self,
                ).modules.len()),
            },
    {
        if uri.to_owned() == self.entry_module_uri {
            if part_index < self.modules.len() {
                return Some(self.modules[part_index].clone());
            }
        }
        None
    }
}

} // verus!
