//! Moving instances through the tree and destroying them, with the signals that this fires.

use vstd::prelude::*;

use crate::error::{Error, failure};
use crate::instance::{self, InstanceView};
use crate::runtime::{self, Firing, FiringView, Runtime, RuntimeView, list_contains};
use crate::signal::{ArgView, SignalArg};
use crate::text::{self, Text};
use crate::tree;

verus! {

// ---------------------------------------------------------------------------------------------
// Moving in steps
// ---------------------------------------------------------------------------------------------

/// How far a move has come.
#[derive(Debug)]
pub enum MoveStage {
    /// The instance leaves its parent.
    Leave,
    /// Next `from` is told about the instance and everything below it.
    StartClimb { adding: bool, from: usize },
    /// `at` has been told; what lies above it is next.
    Climb { adding: bool, at: usize, below: Vec<usize> },
    /// The instance gets its new parent.
    Arrive,
    /// Next is the change of the property `Parent`.
    Changed,
    /// Next is the signal for changes of the property `Parent`.
    OwnSignal,
    /// Next is the instance with the given position in the list of those that moved.
    Ancestry { next: usize },
    Done,
}

/// The content of a [`MoveStage`].
#[verifier::ext_equal]
pub enum StageView {
    Leave,
    StartClimb { adding: bool, from: usize },
    Climb { adding: bool, at: usize, below: Seq<usize> },
    Arrive,
    Changed,
    OwnSignal,
    Ancestry { next: nat },
    Done,
}

impl View for MoveStage {
    type V = StageView;

    open spec fn view(&self) -> StageView {
        match self {
            MoveStage::Leave => StageView::Leave,
            MoveStage::StartClimb { adding, from } => StageView::StartClimb {
                adding: *adding,
                from: *from,
            },
            MoveStage::Climb { adding, at, below } => StageView::Climb {
                adding: *adding,
                at: *at,
                below: below@,
            },
            MoveStage::Arrive => StageView::Arrive,
            MoveStage::Changed => StageView::Changed,
            MoveStage::OwnSignal => StageView::OwnSignal,
            MoveStage::Ancestry { next } => StageView::Ancestry { next: *next as nat },
            MoveStage::Done => StageView::Done,
        }
    }
}

/// A move of an instance to another parent, or to none.
#[derive(Debug)]
pub struct ParentChange {
    pub child: usize,
    pub old_parent: Option<usize>,
    pub new_parent: Option<usize>,
    /// The instance and what lay below it when the move began.
    pub moved: Vec<usize>,
    pub stage: MoveStage,
}

/// The content of a [`ParentChange`].
#[verifier::ext_equal]
pub struct MoveView {
    pub child: usize,
    pub old_parent: Option<usize>,
    pub new_parent: Option<usize>,
    pub moved: Seq<usize>,
    pub stage: StageView,
}

impl View for ParentChange {
    type V = MoveView;

    open spec fn view(&self) -> MoveView {
        MoveView {
            child: self.child,
            old_parent: self.old_parent,
            new_parent: self.new_parent,
            moved: self.moved@,
            stage: self.stage@,
        }
    }
}

/// Whether all positions in a list are below `n`.
pub open spec fn all_below(list: Seq<usize>, n: nat) -> bool {
    forall|k: int| 0 <= k < list.len() ==> #[trigger] list[k] < n
}

impl MoveView {
    /// Whether the move speaks of the first `n` instances only.
    pub open spec fn within(&self, n: nat) -> bool {
        &&& self.child < n
        &&& self.old_parent matches Some(p) ==> p < n
        &&& self.new_parent matches Some(p) ==> p < n
        &&& all_below(self.moved, n)
        &&& match self.stage {
            StageView::StartClimb { from, .. } => from < n,
            StageView::Climb { at, below, .. } => at < n && all_below(below, n),
            _ => true,
        }
    }
}

/// Whether an instance can get a parent: `false` says that it has this parent already.
pub open spec fn move_check(rt: RuntimeView, child: usize, parent: Option<usize>) -> Result<
    bool,
    Text,
> {
    match instance::alive_check(rt.instances[child as int]) {
        Err(message) => Err(message),
        Ok(()) => match parent {
            None => Ok(true),
            Some(p) => match instance::alive_check(rt.instances[p as int]) {
                Err(message) => Err(message),
                Ok(()) => if p == child {
                    Err("Cannot parent an instance to itself"@)
                } else if tree::descendants(instance::kids_of(rt.instances), child).contains(p) {
                    Err("Cannot parent an instance to one of its descendants"@)
                } else {
                    Ok(rt.instances[child as int].parent != Some(p))
                },
            },
        },
    }
}

/// A move that begins.
pub open spec fn new_move(rt: RuntimeView, child: usize, parent: Option<usize>) -> MoveView {
    MoveView {
        child,
        old_parent: rt.instances[child as int].parent,
        new_parent: parent,
        moved: tree::subtree(instance::kids_of(rt.instances), child),
        stage: StageView::Leave,
    }
}

/// The event that instances above are told by.
pub open spec fn climb_event(adding: bool) -> Text {
    if adding {
        "DescendantAdded"@
    } else {
        "DescendantRemoving"@
    }
}

/// What tells an instance about the given ones.
pub open spec fn tell(rt: RuntimeView, at: usize, name: Text, below: Seq<usize>) -> Seq<
    FiringView,
>
    decreases below.len(),
{
    if below.len() == 0 {
        Seq::empty()
    } else {
        tell(rt, at, name, below.drop_last()) + runtime::event_firing(
            rt,
            at,
            name,
            seq![ArgView::Instance(below.last())],
        )
    }
}

/// What tells an instance that what lies above it has changed.
pub open spec fn ancestry_firing(rt: RuntimeView, at: usize) -> Seq<FiringView> {
    runtime::event_firing(
        rt,
        at,
        "AncestryChanged"@,
        seq![
            ArgView::Instance(at),
            match rt.instances[at as int].parent {
                Some(p) => ArgView::Instance(p),
                None => ArgView::Nil,
            },
        ],
    )
}

/// The runtime after a move was refused on arrival: an instance that its parent lists no longer has
/// no parent any more.
pub open spec fn after_refusal(rt: RuntimeView, child: usize) -> RuntimeView {
    match rt.instances[child as int].parent {
        Some(p) if !rt.instances[p as int].children.contains(child) => runtime::placed(
            rt,
            child,
            None,
        ),
        _ => rt,
    }
}

/// What one step of a move does.
pub struct StepView {
    pub rt: RuntimeView,
    pub stage: StageView,
    pub fires: Result<Seq<FiringView>, Text>,
}

/// One step of a move.
pub open spec fn move_step(rt: RuntimeView, change: MoveView) -> StepView {
    let child = change.child;
    match change.stage {
        StageView::Leave => match change.old_parent {
            Some(p) => {
                let left = runtime::detached(rt, p, child);
                StepView {
                    rt: left,
                    stage: StageView::StartClimb { adding: false, from: p },
                    fires: Ok(
                        runtime::event_firing(left, p, "ChildRemoved"@, seq![ArgView::Instance(child)]),
                    ),
                }
            },
            None => StepView { rt, stage: StageView::Arrive, fires: Ok(Seq::empty()) },
        },
        StageView::StartClimb { adding, from } => {
            let below = tree::subtree(instance::kids_of(rt.instances), child);
            StepView {
                rt,
                stage: StageView::Climb { adding, at: from, below },
                fires: Ok(tell(rt, from, climb_event(adding), below)),
            }
        },
        StageView::Climb { adding, at, below } => match rt.instances[at as int].parent {
            Some(up) => StepView {
                rt,
                stage: StageView::Climb { adding, at: up, below },
                fires: Ok(tell(rt, up, climb_event(adding), below)),
            },
            None => StepView {
                rt,
                stage: if adding {
                    StageView::Changed
                } else {
                    StageView::Arrive
                },
                fires: Ok(Seq::empty()),
            },
        },
        StageView::Arrive => match change.new_parent {
            Some(p) => if runtime::clashes(rt, child, p) {
                StepView {
                    rt: after_refusal(rt, child),
                    stage: StageView::Done,
                    fires: Err("Cannot parent an instance to one of its descendants"@),
                }
            } else {
                let there = runtime::placed(rt, child, Some(p));
                StepView {
                    rt: there,
                    stage: StageView::StartClimb { adding: true, from: p },
                    fires: Ok(
                        runtime::event_firing(there, p, "ChildAdded"@, seq![ArgView::Instance(child)]),
                    ),
                }
            },
            None => StepView {
                rt: runtime::placed(rt, child, None),
                stage: StageView::Changed,
                fires: Ok(Seq::empty()),
            },
        },
        StageView::Changed => StepView {
            rt,
            stage: StageView::OwnSignal,
            fires: Ok(runtime::event_firing(rt, child, "Changed"@, seq![ArgView::String("Parent"@)])),
        },
        StageView::OwnSignal => StepView {
            rt,
            stage: StageView::Ancestry { next: 0 },
            fires: Ok(runtime::own_firing(rt, child, "Parent"@)),
        },
        StageView::Ancestry { next } => if next < change.moved.len() {
            StepView {
                rt,
                stage: StageView::Ancestry { next: next + 1 },
                fires: Ok(ancestry_firing(rt, change.moved[next as int])),
            }
        } else {
            StepView { rt, stage: StageView::Done, fires: Ok(Seq::empty()) }
        },
        StageView::Done => StepView { rt, stage: StageView::Done, fires: Ok(Seq::empty()) },
    }
}

/// Firings or an error, by their views.
pub open spec fn firings_view(r: Result<Vec<Firing>, Error>) -> Result<Seq<FiringView>, Text> {
    match r {
        Ok(firings) => Ok(text::views(firings@)),
        Err(error) => Err(error@),
    }
}

/// A move that may begin or an error, by their views.
pub open spec fn move_view(r: Result<Option<ParentChange>, Error>) -> Result<
    Option<MoveView>,
    Text,
> {
    match r {
        Ok(change) => Ok(text::opt_view(change)),
        Err(error) => Err(error@),
    }
}

impl Runtime {
    /// Begins to give an instance a parent. There is nothing to do where it has this parent already.
    pub fn begin_set_parent(&self, child: usize, new_parent: Option<usize>) -> (r: Result<
        Option<ParentChange>,
        Error,
    >)
        requires
            self@.wf(),
            child < self@.instances.len(),
            new_parent matches Some(p) ==> p < self@.instances.len(),
        ensures
            move_view(r) == (match move_check(self@, child, new_parent) {
                Ok(true) => Ok::<Option<MoveView>, Text>(
                    Some(new_move(self@, child, new_parent)),
                ),
                Ok(false) => Ok(None),
                Err(message) => Err(message),
            }),
            new_move(self@, child, new_parent).within(self@.instances.len()),
    {
        let ghost kids = instance::kids_of(self@.instances);
        proof {
            tree::lemma_subtree_range(kids, child);
            tree::lemma_lineage(instance::ups_of(self@.instances), child);
        }
        if let Err(error) = self.instance(child).assert_alive() {
            return Err(error);
        }
        let old_parent = self.instance(child).get_parent();
        if let Some(parent) = new_parent {
            if let Err(error) = self.instance(parent).assert_alive() {
                return Err(error);
            }
            if parent == child {
                return Err(failure("Cannot parent an instance to itself"));
            }
            if list_contains(&self.all_descendants(child), parent) {
                return Err(failure("Cannot parent an instance to one of its descendants"));
            }
            if let Some(old) = old_parent {
                if old == parent {
                    return Ok(None);
                }
            }
        }
        let moved = self.subtree(child);
        Ok(
            Some(
                ParentChange { child, old_parent, new_parent, moved, stage: MoveStage::Leave },
            ),
        )
    }

    /// What tells an instance about another one.
    fn tell_one(&self, at: usize, name: &str, child: usize) -> (r: Vec<Firing>)
        requires
            at < self@.instances.len(),
        ensures
            text::views(r@) == runtime::event_firing(self@, at, name@, seq![ArgView::Instance(child)]),
    {
        let mut args: Vec<SignalArg> = Vec::new();
        args.push(SignalArg::Instance(child));
        assert(text::views(args@) =~= seq![ArgView::Instance(child)]);
        self.event_firing(at, name, args)
    }

    /// What tells an instance about the given ones.
    fn tell_all(&self, at: usize, name: &str, below: &Vec<usize>) -> (r: Vec<Firing>)
        requires
            at < self@.instances.len(),
        ensures
            text::views(r@) == tell(self@, at, name@, below@),
    {
        let mut out: Vec<Firing> = Vec::new();
        let mut i: usize = 0;
        assert(below@.take(0) =~= Seq::empty());
        assert(text::views(out@) =~= Seq::empty());
        while i < below.len()
            invariant
                i <= below@.len(),
                at < self@.instances.len(),
                text::views(out@) == tell(self@, at, name@, below@.take(i as int)),
            decreases below@.len() - i,
        {
            let mut one = self.tell_one(at, name, below[i]);
            let ghost a = out@;
            let ghost b = one@;
            out.append(&mut one);
            proof {
                assert(text::views(out@) =~= text::views(a) + text::views(b));
                assert(below@.take(i + 1).drop_last() =~= below@.take(i as int));
                assert(below@.take(i + 1).last() == below@[i as int]);
            }
            i += 1;
        }
        assert(below@.take(i as int) =~= below@);
        out
    }

    /// What tells an instance that what lies above it has changed.
    fn tell_ancestry(&self, at: usize) -> (r: Vec<Firing>)
        requires
            at < self@.instances.len(),
        ensures
            text::views(r@) == ancestry_firing(self@, at),
    {
        let mut args: Vec<SignalArg> = Vec::new();
        args.push(SignalArg::Instance(at));
        match self.instance(at).get_parent() {
            Some(parent) => {
                args.push(SignalArg::Instance(parent));
            },
            None => {
                args.push(SignalArg::Nil);
            },
        }
        assert(text::views(args@) =~= seq![
            ArgView::Instance(at),
            match self@.instances[at as int].parent {
                Some(p) => ArgView::Instance(p),
                None => ArgView::Nil,
            },
        ]);
        self.event_firing(at, "AncestryChanged", args)
    }

    /// Takes the parent from an instance that its parent lists no longer.
    fn refuse(&mut self, child: usize)
        requires
            old(self)@.wf(),
            child < old(self)@.instances.len(),
        ensures
            final(self)@.wf(),
            final(self)@ == after_refusal(old(self)@, child),
    {
        let ghost rt = self@;
        proof {
            tree::lemma_lineage(instance::ups_of(rt.instances), child);
        }
        if let Some(parent) = self.instance(child).get_parent() {
            let listed = self.children(parent);
            if !list_contains(&listed, child) {
                self.place_child(child, None);
            }
        }
    }

    /// Takes one step of a move. What the result lists fires before the next step is taken.
    pub fn step_set_parent(&mut self, change: &mut ParentChange) -> (r: Result<Vec<Firing>, Error>)
        requires
            old(self)@.wf(),
            old(change)@.within(old(self)@.instances.len()),
        ensures
            final(self)@.wf(),
            final(self)@.instances.len() == old(self)@.instances.len(),
            final(change)@.within(final(self)@.instances.len()),
            ({
                let step = move_step(old(self)@, old(change)@);
                &&& final(self)@ == step.rt
                &&& final(change)@ == (MoveView { stage: step.stage, ..old(change)@ })
                &&& firings_view(r) == step.fires
            }),
    {
        let ghost before = self@;
        let ghost began = change@;
        let child = change.child;
        let mut stage = MoveStage::Done;
        std::mem::swap(&mut stage, &mut change.stage);
        let mut out: Vec<Firing> = Vec::new();
        assert(text::views(out@) =~= Seq::empty());
        match stage {
            MoveStage::Leave => {
                match change.old_parent {
                    Some(parent) => {
                        self.detach_child(parent, child);
                        out = self.tell_one(parent, "ChildRemoved", child);
                        change.stage = MoveStage::StartClimb { adding: false, from: parent };
                    },
                    None => {
                        change.stage = MoveStage::Arrive;
                    },
                }
            },
            MoveStage::StartClimb { adding, from } => {
                let below = self.subtree(child);
                proof {
                    tree::lemma_subtree_range(instance::kids_of(before.instances), child);
                }
                if adding {
                    out = self.tell_all(from, "DescendantAdded", &below);
                } else {
                    out = self.tell_all(from, "DescendantRemoving", &below);
                }
                change.stage = MoveStage::Climb { adding, at: from, below };
            },
            MoveStage::Climb { adding, at, below } => {
                proof {
                    tree::lemma_lineage(instance::ups_of(before.instances), at);
                }
                match self.instance(at).get_parent() {
                    Some(up) => {
                        if adding {
                            out = self.tell_all(up, "DescendantAdded", &below);
                        } else {
                            out = self.tell_all(up, "DescendantRemoving", &below);
                        }
                        change.stage = MoveStage::Climb { adding, at: up, below };
                    },
                    None => {
                        change.stage =
                        if adding {
                            MoveStage::Changed
                        } else {
                            MoveStage::Arrive
                        };
                    },
                }
            },
            MoveStage::Arrive => {
                match change.new_parent {
                    Some(parent) => {
                        if self.would_clash(child, parent) {
                            self.refuse(child);
                            return Err(
                                failure("Cannot parent an instance to one of its descendants"),
                            );
                        }
                        self.place_child(child, Some(parent));
                        out = self.tell_one(parent, "ChildAdded", child);
                        change.stage = MoveStage::StartClimb { adding: true, from: parent };
                    },
                    None => {
                        self.place_child(child, None);
                        change.stage = MoveStage::Changed;
                    },
                }
            },
            MoveStage::Changed => {
                out = self.changed_firing(child, "Parent");
                change.stage = MoveStage::OwnSignal;
            },
            MoveStage::OwnSignal => {
                out = self.own_firing(child, "Parent");
                change.stage = MoveStage::Ancestry { next: 0 };
            },
            MoveStage::Ancestry { next } => {
                if next < change.moved.len() {
                    let at = change.moved[next];
                    assert(began.moved[next as int] < before.instances.len());
                    out = self.tell_ancestry(at);
                    change.stage = MoveStage::Ancestry { next: next + 1 };
                }
            },
            MoveStage::Done => {},
        }
        Ok(out)
    }
}

// ---------------------------------------------------------------------------------------------
// Moving at once
// ---------------------------------------------------------------------------------------------

/// What tells each of the given instances about others.
pub open spec fn tell_line(rt: RuntimeView, line: Seq<usize>, name: Text, below: Seq<usize>) -> Seq<
    FiringView,
>
    decreases line.len(),
{
    if line.len() == 0 {
        Seq::empty()
    } else {
        tell(rt, line[0], name, below) + tell_line(rt, line.drop_first(), name, below)
    }
}

/// What tells the given instances, from the one at `next` on, that what lies above them has changed.
pub open spec fn ancestry_firings(rt: RuntimeView, moved: Seq<usize>, next: nat) -> Seq<FiringView>
    decreases moved.len() - next,
{
    if next >= moved.len() {
        Seq::empty()
    } else {
        ancestry_firing(rt, moved[next as int]) + ancestry_firings(rt, moved, next + 1)
    }
}

/// What fires last: the change of the property `Parent`, and the change of what lies above.
pub open spec fn end_firings(rt: RuntimeView, change: MoveView) -> Seq<FiringView> {
    runtime::event_firing(rt, change.child, "Changed"@, seq![ArgView::String("Parent"@)]) + (runtime::own_firing(
        rt,
        change.child,
        "Parent"@,
    ) + ancestry_firings(rt, change.moved, 0))
}

/// What fires when instances above an instance are told about it and everything below it.
pub open spec fn climb_firings(rt: RuntimeView, adding: bool, from: usize, child: usize) -> Seq<
    FiringView,
> {
    tell_line(
        rt,
        tree::lineage(instance::ups_of(rt.instances), from),
        climb_event(adding),
        tree::subtree(instance::kids_of(rt.instances), child),
    )
}

/// What fires from the arrival on.
pub open spec fn arrive_firings(rt: RuntimeView, change: MoveView) -> Seq<FiringView> {
    let there = runtime::placed(rt, change.child, change.new_parent);
    match change.new_parent {
        Some(p) => runtime::event_firing(there, p, "ChildAdded"@, seq![ArgView::Instance(change.child)]) + (
        climb_firings(there, true, p, change.child) + end_firings(there, change)),
        None => end_firings(there, change),
    }
}

/// The runtime when an instance has left its parent.
pub open spec fn after_leaving(rt: RuntimeView, change: MoveView) -> RuntimeView {
    match change.old_parent {
        Some(p) => runtime::detached(rt, p, change.child),
        None => rt,
    }
}

/// Everything that a move fires.
pub open spec fn move_firings(rt: RuntimeView, change: MoveView) -> Seq<FiringView> {
    let left = after_leaving(rt, change);
    match change.old_parent {
        Some(p) => runtime::event_firing(left, p, "ChildRemoved"@, seq![ArgView::Instance(change.child)]) + (
        climb_firings(left, false, p, change.child) + arrive_firings(left, change)),
        None => arrive_firings(left, change),
    }
}

/// What is left to fire at a stage of a move.
#[verifier::opaque]
spec fn firings_left(rt: RuntimeView, change: MoveView) -> Seq<FiringView> {
    match change.stage {
        StageView::Leave => move_firings(rt, change),
        StageView::StartClimb { adding, from } => climb_firings(rt, adding, from, change.child) + (
        if adding {
            end_firings(rt, change)
        } else {
            arrive_firings(rt, change)
        }),
        StageView::Climb { adding, at, below } => tell_line(
            rt,
            tree::lineage(instance::ups_of(rt.instances), at).drop_first(),
            climb_event(adding),
            below,
        ) + (if adding {
            end_firings(rt, change)
        } else {
            arrive_firings(rt, change)
        }),
        StageView::Arrive => arrive_firings(rt, change),
        StageView::Changed => end_firings(rt, change),
        StageView::OwnSignal => runtime::own_firing(rt, change.child, "Parent"@) + ancestry_firings(
            rt,
            change.moved,
            0,
        ),
        StageView::Ancestry { next } => ancestry_firings(rt, change.moved, next),
        StageView::Done => Seq::empty(),
    }
}

/// The runtime in which the instance arrives, where it has not arrived yet.
spec fn arrival_rt(rt: RuntimeView, change: MoveView) -> Option<RuntimeView> {
    match change.stage {
        StageView::Leave => Some(after_leaving(rt, change)),
        StageView::StartClimb { adding, .. } => if adding {
            None
        } else {
            Some(rt)
        },
        StageView::Climb { adding, .. } => if adding {
            None
        } else {
            Some(rt)
        },
        StageView::Arrive => Some(rt),
        _ => None,
    }
}

/// The runtime when the move is over.
#[verifier::opaque]
spec fn final_rt(rt: RuntimeView, change: MoveView) -> RuntimeView {
    match arrival_rt(rt, change) {
        Some(left) => runtime::placed(left, change.child, change.new_parent),
        None => rt,
    }
}

/// Whether the move cannot be finished.
#[verifier::opaque]
spec fn clash_ahead(rt: RuntimeView, change: MoveView) -> bool {
    match (arrival_rt(rt, change), change.new_parent) {
        (Some(left), Some(p)) => runtime::clashes(left, change.child, p),
        _ => false,
    }
}

#[verifier::opaque]
spec fn stage_rank(stage: StageView) -> nat {
    match stage {
        StageView::Leave => 8,
        StageView::StartClimb { adding, .. } => if adding {
            5
        } else {
            7
        },
        StageView::Climb { adding, .. } => if adding {
            4
        } else {
            6
        },
        StageView::Arrive => 5,
        StageView::Changed => 3,
        StageView::OwnSignal => 2,
        StageView::Ancestry { .. } => 1,
        StageView::Done => 0,
    }
}

#[verifier::opaque]
spec fn stage_size(rt: RuntimeView, change: MoveView) -> nat {
    match change.stage {
        StageView::Arrive => 1,
        StageView::Climb { at, .. } => tree::lineage(instance::ups_of(rt.instances), at).len(),
        StageView::Ancestry { next } => if next < change.moved.len() {
            (change.moved.len() - next) as nat
        } else {
            0
        },
        _ => 0,
    }
}

proof fn lemma_step(rt: RuntimeView, change: MoveView)
    requires
        rt.wf(),
        change.within(rt.instances.len()),
    ensures
        ({
            let step = move_step(rt, change);
            let later = MoveView { stage: step.stage, ..change };
            match step.fires {
                Ok(fires) => {
                    &&& firings_left(rt, change) == fires + firings_left(step.rt, later)
                    &&& final_rt(rt, change) == final_rt(step.rt, later)
                    &&& clash_ahead(rt, change) == clash_ahead(step.rt, later)
                    &&& change.stage != StageView::Done ==> stage_rank(step.stage) < stage_rank(
                        change.stage,
                    ) || stage_rank(step.stage) == stage_rank(change.stage) && stage_size(
                        step.rt,
                        later,
                    ) < stage_size(rt, change)
                },
                Err(message) => {
                    &&& clash_ahead(rt, change)
                    &&& arrival_rt(rt, change) == Some(rt)
                    &&& step.rt == after_refusal(rt, change.child)
                    &&& change.stage != StageView::Leave
                    &&& message == "Cannot parent an instance to one of its descendants"@
                },
            }
        }),
        ({
            let step = move_step(rt, change);
            let later = MoveView { stage: step.stage, ..change };
            &&& step.stage != StageView::Leave
            &&& arrival_rt(step.rt, later) is Some ==> step.rt == (if change.stage
                == StageView::Leave {
                after_leaving(rt, change)
            } else {
                rt
            }) && arrival_rt(rt, change) is Some
        }),
{
    reveal(firings_left);
    reveal(final_rt);
    reveal(clash_ahead);
    reveal(stage_rank);
    reveal(stage_size);
    let step = move_step(rt, change);
    let later = MoveView { stage: step.stage, ..change };
    match step.fires {
        Ok(fires) => {
            let rest = firings_left(step.rt, later);
            match change.stage {
                StageView::Leave => {
                    if change.old_parent is None {
                        assert(fires + rest =~= rest);
                    }
                },
                StageView::StartClimb { adding, from } => {
                    let line = tree::lineage(instance::ups_of(rt.instances), from);
                    tree::lemma_lineage(instance::ups_of(rt.instances), from);
                    assert(line[0] == from);
                    let below = tree::subtree(instance::kids_of(rt.instances), change.child);
                    let told = tell_line(rt, line.drop_first(), climb_event(adding), below);
                    let end = if adding {
                        end_firings(rt, change)
                    } else {
                        arrive_firings(rt, change)
                    };
                    assert(end == (if adding {
                        end_firings(rt, later)
                    } else {
                        arrive_firings(rt, later)
                    }));
                    assert(fires + told + end =~= fires + (told + end));
                },
                StageView::Climb { adding, at, below } => {
                    tree::lemma_lineage(instance::ups_of(rt.instances), at);
                    let line = tree::lineage(instance::ups_of(rt.instances), at);
                    match rt.instances[at as int].parent {
                        Some(up) => {
                            assert(instance::ups_of(rt.instances)[at as int] == Some(up));
                            tree::lemma_lineage(instance::ups_of(rt.instances), up);
                            let above = tree::lineage(instance::ups_of(rt.instances), up);
                            assert(line.drop_first() =~= above);
                            assert(above[0] == up);
                            let told = tell_line(
                                rt,
                                above.drop_first(),
                                climb_event(adding),
                                below,
                            );
                            let end = if adding {
                                end_firings(rt, change)
                            } else {
                                arrive_firings(rt, change)
                            };
                            assert(end == (if adding {
                                end_firings(rt, later)
                            } else {
                                arrive_firings(rt, later)
                            }));
                            assert(fires + told + end =~= fires + (told + end));
                        },
                        None => {
                            assert(instance::ups_of(rt.instances)[at as int] is None);
                            assert(line.drop_first() =~= Seq::empty());
                            assert(firings_left(rt, change) =~= fires + rest);
                        },
                    }
                },
                StageView::Arrive => {
                    if change.new_parent is None {
                        assert(fires + rest =~= rest);
                    }
                },
                StageView::Ancestry { next } => {
                    assert(firings_left(rt, change) =~= fires + rest);
                },
                StageView::Done => {
                    assert(firings_left(rt, change) =~= fires + rest);
                },
                _ => {},
            }
        },
        Err(_) => {},
    }
}

proof fn lemma_ends(rt: RuntimeView, change: MoveView)
    ensures
        change.stage == StageView::Done ==> firings_left(rt, change) == Seq::<FiringView>::empty()
            && final_rt(rt, change) == rt,
        change.stage == StageView::Leave ==> firings_left(rt, change) == move_firings(rt, change)
            && final_rt(rt, change) == runtime::placed(
            after_leaving(rt, change),
            change.child,
            change.new_parent,
        ) && clash_ahead(rt, change) == (change.new_parent matches Some(p) && runtime::clashes(
            after_leaving(rt, change),
            change.child,
            p,
        )),
        change.stage == StageView::Done ==> !clash_ahead(rt, change),
{
    reveal(firings_left);
    reveal(final_rt);
    reveal(clash_ahead);
}

/// What comes of giving an instance a parent where nothing intervenes: the runtime, and what fires
/// or why it cannot be done.
pub open spec fn set_parent_outcome(rt: RuntimeView, child: usize, parent: Option<usize>) -> (
    RuntimeView,
    Result<Seq<FiringView>, Text>,
) {
    match move_check(rt, child, parent) {
        Err(message) => (rt, Err(message)),
        Ok(false) => (rt, Ok(Seq::empty())),
        Ok(true) => {
            let change = new_move(rt, child, parent);
            let left = after_leaving(rt, change);
            match parent {
                Some(p) if runtime::clashes(left, child, p) => (
                    after_refusal(left, child),
                    Err("Cannot parent an instance to one of its descendants"@),
                ),
                _ => (runtime::placed(left, child, parent), Ok(move_firings(rt, change))),
            }
        },
    }
}

impl Runtime {
    /// Gives an instance a parent, where nothing intervenes. The result lists what fires.
    pub fn set_parent(&mut self, child: usize, new_parent: Option<usize>) -> (r: Result<
        Vec<Firing>,
        Error,
    >)
        requires
            old(self)@.wf(),
            child < old(self)@.instances.len(),
            new_parent matches Some(p) ==> p < old(self)@.instances.len(),
        ensures
            final(self)@.wf(),
            final(self)@.instances.len() == old(self)@.instances.len(),
            (final(self)@, firings_view(r)) == set_parent_outcome(old(self)@, child, new_parent),
    {
        let ghost start = self@;
        let mut out: Vec<Firing> = Vec::new();
        assert(text::views(out@) =~= Seq::empty());
        let begun = match self.begin_set_parent(child, new_parent) {
            Ok(begun) => begun,
            Err(error) => {
                return Err(error);
            },
        };
        let mut change = match begun {
            Some(change) => change,
            None => {
                return Ok(out);
            },
        };
        let ghost first = change@;
        let mut done = false;
        proof {
            lemma_ends(start, first);
        }
        assert(text::views(out@) + firings_left(self@, change@) =~= move_firings(start, first));
        while !done
            invariant
                start == old(self)@,
                self@.wf(),
                self@.instances.len() == start.instances.len(),
                change@.within(self@.instances.len()),
                move_check(start, child, new_parent) == Ok::<bool, Text>(true),
                first == new_move(start, child, new_parent),
                change@ == (MoveView { stage: change@.stage, ..first }),
                text::views(out@) + firings_left(self@, change@) == move_firings(start, first),
                final_rt(self@, change@) == final_rt(start, first),
                clash_ahead(self@, change@) == clash_ahead(start, first),
                clash_ahead(start, first) == (new_parent matches Some(p) && runtime::clashes(
                    after_leaving(start, first),
                    child,
                    p,
                )),
                arrival_rt(self@, change@) is Some ==> (change@.stage == StageView::Leave
                    && self@ == start) || (self@ == after_leaving(start, first) && change@.stage
                    != StageView::Leave),
                done == (change@.stage == StageView::Done),
            decreases stage_rank(change@.stage), stage_size(self@, change@),
        {
            let ghost before = self@;
            let ghost began = change@;
            proof {
                lemma_step(before, began);
            }
            match self.step_set_parent(&mut change) {
                Ok(mut fires) => {
                    let ghost a = out@;
                    let ghost b = fires@;
                    out.append(&mut fires);
                    proof {
                        assert(text::views(out@) =~= text::views(a) + text::views(b));
                        let rest = firings_left(self@, change@);
                        assert(text::views(a) + (text::views(b) + rest) =~= text::views(out@) + rest);
                    }
                },
                Err(error) => {
                    return Err(error);
                },
            }
            done = matches!(change.stage, MoveStage::Done);
        }
        proof {
            lemma_ends(self@, change@);
        }
        assert(text::views(out@) + firings_left(self@, change@) =~= text::views(out@));
        Ok(out)
    }
}

// ---------------------------------------------------------------------------------------------
// Destroying
// ---------------------------------------------------------------------------------------------

/// What tells the given instances that they are about to be destroyed.
pub open spec fn destroying_firings(rt: RuntimeView, list: Seq<usize>) -> Seq<FiringView>
    decreases list.len(),
{
    if list.len() == 0 {
        Seq::empty()
    } else {
        destroying_firings(rt, list.drop_last()) + runtime::event_firing(
            rt,
            list.last(),
            "Destroying"@,
            Seq::empty(),
        )
    }
}

/// How far a destruction has come.
#[derive(Debug)]
pub enum DestroyStage {
    /// Next the instance is told.
    Tell,
    /// Next everything below it is told.
    TellBelow,
    /// The instance is about to leave its parent.
    Leave,
    /// The instance is leaving its parent.
    Moving(ParentChange),
    /// The instance and everything below it lose their children and their parents.
    Finish,
    Done,
}

/// The content of a [`DestroyStage`].
#[verifier::ext_equal]
pub enum DestroyStageView {
    Tell,
    TellBelow,
    Leave,
    Moving(MoveView),
    Finish,
    Done,
}

impl View for DestroyStage {
    type V = DestroyStageView;

    open spec fn view(&self) -> DestroyStageView {
        match self {
            DestroyStage::Tell => DestroyStageView::Tell,
            DestroyStage::TellBelow => DestroyStageView::TellBelow,
            DestroyStage::Leave => DestroyStageView::Leave,
            DestroyStage::Moving(change) => DestroyStageView::Moving(change@),
            DestroyStage::Finish => DestroyStageView::Finish,
            DestroyStage::Done => DestroyStageView::Done,
        }
    }
}

/// The destruction of an instance.
#[derive(Debug)]
pub struct Destruction {
    pub instance: usize,
    pub stage: DestroyStage,
}

/// The content of a [`Destruction`].
#[verifier::ext_equal]
pub struct DestructionView {
    pub instance: usize,
    pub stage: DestroyStageView,
}

impl View for Destruction {
    type V = DestructionView;

    open spec fn view(&self) -> DestructionView {
        DestructionView { instance: self.instance, stage: self.stage@ }
    }
}

impl DestructionView {
    /// Whether the destruction speaks of the first `n` instances only.
    pub open spec fn within(&self, n: nat) -> bool {
        &&& self.instance < n
        &&& self.stage matches DestroyStageView::Moving(change) ==> change.within(n)
    }
}

/// What one step of a destruction does.
pub struct DestroyStepView {
    pub rt: RuntimeView,
    pub stage: DestroyStageView,
    pub fires: Result<Seq<FiringView>, Text>,
}

/// One step of a destruction: the instance is told, then everything below it, then the instance moves
/// to no parent, and last it is destroyed with everything below it. It cannot move where it has been
/// destroyed in the meantime.
pub open spec fn destroy_step(rt: RuntimeView, destruction: DestructionView) -> DestroyStepView {
    let i = destruction.instance;
    match destruction.stage {
        DestroyStageView::Tell => DestroyStepView {
            rt,
            stage: DestroyStageView::TellBelow,
            fires: Ok(runtime::event_firing(rt, i, "Destroying"@, Seq::empty())),
        },
        DestroyStageView::TellBelow => DestroyStepView {
            rt,
            stage: DestroyStageView::Leave,
            fires: Ok(
                destroying_firings(rt, tree::descendants(instance::kids_of(rt.instances), i)),
            ),
        },
        DestroyStageView::Leave => match move_check(rt, i, None) {
            Err(message) => DestroyStepView {
                rt,
                stage: DestroyStageView::Done,
                fires: Err(message),
            },
            Ok(_) => DestroyStepView {
                rt,
                stage: DestroyStageView::Moving(new_move(rt, i, None)),
                fires: Ok(Seq::empty()),
            },
        },
        DestroyStageView::Moving(change) => {
            let step = move_step(rt, change);
            DestroyStepView {
                rt: step.rt,
                stage: if step.fires is Err {
                    DestroyStageView::Done
                } else if step.stage == StageView::Done {
                    DestroyStageView::Finish
                } else {
                    DestroyStageView::Moving(MoveView { stage: step.stage, ..change })
                },
                fires: step.fires,
            }
        },
        DestroyStageView::Finish => DestroyStepView {
            rt: runtime::buried(rt, tree::subtree(instance::kids_of(rt.instances), i)),
            stage: DestroyStageView::Done,
            fires: Ok(Seq::empty()),
        },
        DestroyStageView::Done => DestroyStepView {
            rt,
            stage: DestroyStageView::Done,
            fires: Ok(Seq::empty()),
        },
    }
}

/// What comes of destroying an instance where nothing intervenes: the runtime, and what fires.
pub open spec fn destroy_outcome(rt: RuntimeView, i: usize) -> (RuntimeView, Seq<FiringView>) {
    if rt.instances[i as int].destroyed {
        (rt, Seq::empty())
    } else {
        let change = new_move(rt, i, None);
        let alone = runtime::placed(after_leaving(rt, change), i, None);
        (
            runtime::buried(alone, tree::subtree(instance::kids_of(alone.instances), i)),
            runtime::event_firing(rt, i, "Destroying"@, Seq::empty()) + destroying_firings(
                rt,
                tree::descendants(instance::kids_of(rt.instances), i),
            ) + move_firings(rt, change),
        )
    }
}

/// What is left to fire at a stage of a destruction.
spec fn destroy_left(rt: RuntimeView, destruction: DestructionView) -> Seq<FiringView> {
    let i = destruction.instance;
    let below = destroying_firings(rt, tree::descendants(instance::kids_of(rt.instances), i));
    let leaving = move_firings(rt, new_move(rt, i, None));
    match destruction.stage {
        DestroyStageView::Tell => runtime::event_firing(rt, i, "Destroying"@, Seq::empty()) + below
            + leaving,
        DestroyStageView::TellBelow => below + leaving,
        DestroyStageView::Leave => leaving,
        DestroyStageView::Moving(change) => firings_left(rt, change),
        _ => Seq::empty(),
    }
}

/// The runtime when the destruction is over.
spec fn destroyed_at_last(rt: RuntimeView, destruction: DestructionView) -> RuntimeView {
    let i = destruction.instance;
    let alone = match destruction.stage {
        DestroyStageView::Moving(change) => final_rt(rt, change),
        DestroyStageView::Finish => rt,
        _ => runtime::placed(after_leaving(rt, new_move(rt, i, None)), i, None),
    };
    if destruction.stage == DestroyStageView::Done {
        rt
    } else {
        runtime::buried(alone, tree::subtree(instance::kids_of(alone.instances), i))
    }
}

/// Whether nothing stands in the way of the rest of a destruction.
spec fn destroyable(rt: RuntimeView, destruction: DestructionView) -> bool {
    match destruction.stage {
        DestroyStageView::Moving(change) => change.new_parent is None && change.stage
            != StageView::Done,
        DestroyStageView::Finish | DestroyStageView::Done => true,
        _ => !rt.instances[destruction.instance as int].destroyed,
    }
}

spec fn destroy_rank(stage: DestroyStageView) -> nat {
    match stage {
        DestroyStageView::Tell => 5,
        DestroyStageView::TellBelow => 4,
        DestroyStageView::Leave => 3,
        DestroyStageView::Moving(_) => 2,
        DestroyStageView::Finish => 1,
        DestroyStageView::Done => 0,
    }
}

spec fn move_rank(stage: DestroyStageView) -> nat {
    match stage {
        DestroyStageView::Moving(change) => stage_rank(change.stage),
        _ => 0,
    }
}

spec fn move_size(rt: RuntimeView, stage: DestroyStageView) -> nat {
    match stage {
        DestroyStageView::Moving(change) => stage_size(rt, change),
        _ => 0,
    }
}

proof fn lemma_destroy_step(rt: RuntimeView, destruction: DestructionView)
    requires
        rt.wf(),
        destruction.within(rt.instances.len()),
        destroyable(rt, destruction),
        destruction.stage != DestroyStageView::Done,
    ensures
        ({
            let step = destroy_step(rt, destruction);
            let later = DestructionView { stage: step.stage, ..destruction };
            &&& step.fires matches Ok(fires) && destroy_left(rt, destruction) == fires
                + destroy_left(step.rt, later)
            &&& destroyed_at_last(rt, destruction) == destroyed_at_last(step.rt, later)
            &&& destroyable(step.rt, later)
            &&& destroy_rank(step.stage) < destroy_rank(destruction.stage) || destroy_rank(
                step.stage,
            ) == destroy_rank(destruction.stage) && (move_rank(step.stage) < move_rank(
                destruction.stage,
            ) || move_rank(step.stage) == move_rank(destruction.stage) && move_size(
                step.rt,
                step.stage,
            ) < move_size(rt, destruction.stage))
        }),
{
    let i = destruction.instance;
    let step = destroy_step(rt, destruction);
    let later = DestructionView { stage: step.stage, ..destruction };
    match destruction.stage {
        DestroyStageView::Tell => {
            let first = runtime::event_firing(rt, i, "Destroying"@, Seq::empty());
            let below = destroying_firings(
                rt,
                tree::descendants(instance::kids_of(rt.instances), i),
            );
            let leaving = move_firings(rt, new_move(rt, i, None));
            assert(first + below + leaving =~= first + (below + leaving));
        },
        DestroyStageView::Leave => {
            let change = new_move(rt, i, None);
            lemma_ends(rt, change);
            let rest = destroy_left(step.rt, later);
            assert(Seq::<FiringView>::empty() + rest =~= rest);
        },
        DestroyStageView::Moving(change) => {
            lemma_step(rt, change);
            let moved = move_step(rt, change);
            let next = MoveView { stage: moved.stage, ..change };
            lemma_ends(moved.rt, next);
            reveal(clash_ahead);
        },
        DestroyStageView::Finish => {
            assert(destroy_left(rt, destruction) =~= Seq::<FiringView>::empty()
                + destroy_left(step.rt, later));
        },
        _ => {},
    }
}

/// What comes of destroying the given instances one after the other.
pub open spec fn destroy_all_outcome(rt: RuntimeView, list: Seq<usize>) -> (
    RuntimeView,
    Seq<FiringView>,
)
    decreases list.len(),
{
    if list.len() == 0 {
        (rt, Seq::empty())
    } else {
        let before = destroy_all_outcome(rt, list.drop_last());
        let last = destroy_outcome(before.0, list.last());
        (last.0, before.1 + last.1)
    }
}

impl Runtime {
    /// What tells an instance that it is about to be destroyed.
    fn tell_destroying(&self, at: usize) -> (r: Vec<Firing>)
        requires
            at < self@.instances.len(),
        ensures
            text::views(r@) == runtime::event_firing(self@, at, "Destroying"@, Seq::empty()),
    {
        let args: Vec<SignalArg> = Vec::new();
        assert(text::views(args@) =~= Seq::empty());
        self.event_firing(at, "Destroying", args)
    }

    /// Begins to destroy an instance. There is nothing to do where it is destroyed already.
    pub fn begin_destroy(&self, instance: usize) -> (r: Option<Destruction>)
        requires
            instance < self@.instances.len(),
        ensures
            text::opt_view(r) == (if self@.instances[instance as int].destroyed {
                None
            } else {
                Some(DestructionView { instance, stage: DestroyStageView::Tell })
            }),
    {
        if self.instance(instance).destroyed {
            None
        } else {
            Some(Destruction { instance, stage: DestroyStage::Tell })
        }
    }

    /// Takes one step of a destruction. What the result lists fires before the next step is taken.
    pub fn step_destroy(&mut self, destruction: &mut Destruction) -> (r: Result<Vec<Firing>, Error>)
        requires
            old(self)@.wf(),
            old(destruction)@.within(old(self)@.instances.len()),
        ensures
            final(self)@.wf(),
            final(self)@.instances.len() == old(self)@.instances.len(),
            final(destruction)@.within(final(self)@.instances.len()),
            ({
                let step = destroy_step(old(self)@, old(destruction)@);
                &&& final(self)@ == step.rt
                &&& final(destruction)@ == (DestructionView {
                    stage: step.stage,
                    ..old(destruction)@
                })
                &&& firings_view(r) == step.fires
            }),
    {
        let instance = destruction.instance;
        let mut stage = DestroyStage::Done;
        std::mem::swap(&mut stage, &mut destruction.stage);
        let mut out: Vec<Firing> = Vec::new();
        assert(text::views(out@) =~= Seq::empty());
        match stage {
            DestroyStage::Tell => {
                out = self.tell_destroying(instance);
                destruction.stage = DestroyStage::TellBelow;
            },
            DestroyStage::TellBelow => {
                out = self.destroy_below(instance);
                destruction.stage = DestroyStage::Leave;
            },
            DestroyStage::Leave => {
                match self.begin_set_parent(instance, None) {
                    Ok(Some(change)) => {
                        destruction.stage = DestroyStage::Moving(change);
                    },
                    Ok(None) => {},
                    Err(error) => {
                        return Err(error);
                    },
                }
            },
            DestroyStage::Moving(change) => {
                let mut change = change;
                match self.step_set_parent(&mut change) {
                    Ok(fires) => {
                        out = fires;
                    },
                    Err(error) => {
                        return Err(error);
                    },
                }
                if matches!(change.stage, MoveStage::Done) {
                    destruction.stage = DestroyStage::Finish;
                } else {
                    destruction.stage = DestroyStage::Moving(change);
                }
            },
            DestroyStage::Finish => {
                self.finish_destroy(instance);
            },
            DestroyStage::Done => {},
        }
        Ok(out)
    }

    /// What tells everything below an instance that it is about to be destroyed.
    fn destroy_below(&self, instance: usize) -> (r: Vec<Firing>)
        requires
            self@.wf(),
            instance < self@.instances.len(),
        ensures
            text::views(r@) == destroying_firings(
                self@,
                tree::descendants(instance::kids_of(self@.instances), instance),
            ),
    {
        let below = self.all_descendants(instance);
        proof {
            tree::lemma_subtree_range(instance::kids_of(self@.instances), instance);
        }
        let mut out: Vec<Firing> = Vec::new();
        let mut i: usize = 0;
        assert(below@.take(0) =~= Seq::empty());
        assert(text::views(out@) =~= Seq::empty());
        while i < below.len()
            invariant
                i <= below@.len(),
                all_below(below@, self@.instances.len()),
                text::views(out@) == destroying_firings(self@, below@.take(i as int)),
            decreases below@.len() - i,
        {
            assert(below@[i as int] < self@.instances.len());
            let mut one = self.tell_destroying(below[i]);
            let ghost a = out@;
            let ghost b = one@;
            out.append(&mut one);
            proof {
                assert(text::views(out@) =~= text::views(a) + text::views(b));
                assert(below@.take(i + 1).drop_last() =~= below@.take(i as int));
                assert(below@.take(i + 1).last() == below@[i as int]);
            }
            i += 1;
        }
        assert(below@.take(i as int) =~= below@);
        out
    }

    /// Ends the destruction of an instance that has left the tree: it and everything below it lose
    /// their children and their parents.
    fn finish_destroy(&mut self, instance: usize)
        requires
            old(self)@.wf(),
            instance < old(self)@.instances.len(),
        ensures
            final(self)@.wf(),
            final(self)@ == runtime::buried(
                old(self)@,
                tree::subtree(instance::kids_of(old(self)@.instances), instance),
            ),
    {
        let all = self.subtree(instance);
        proof {
            tree::lemma_subtree_range(instance::kids_of(self@.instances), instance);
        }
        self.bury(&all);
    }

    /// Destroys an instance and everything below it, where nothing intervenes. The result lists what
    /// fires.
    pub fn destroy_instance(&mut self, instance: usize) -> (r: Vec<Firing>)
        requires
            old(self)@.wf(),
            instance < old(self)@.instances.len(),
        ensures
            final(self)@.wf(),
            final(self)@.instances.len() == old(self)@.instances.len(),
            (final(self)@, text::views(r@)) == destroy_outcome(old(self)@, instance),
    {
        let ghost start = self@;
        let mut out: Vec<Firing> = Vec::new();
        assert(text::views(out@) =~= Seq::empty());
        let mut destruction = match self.begin_destroy(instance) {
            Some(destruction) => destruction,
            None => {
                return out;
            },
        };
        let ghost all = destroy_outcome(start, instance);
        let mut done = false;
        assert(text::views(out@) + destroy_left(self@, destruction@) =~= all.1);
        while !done
            invariant
                self@.wf(),
                self@.instances.len() == start.instances.len(),
                destruction@.within(self@.instances.len()),
                destruction@.instance == instance,
                destroyable(self@, destruction@),
                text::views(out@) + destroy_left(self@, destruction@) == all.1,
                destroyed_at_last(self@, destruction@) == all.0,
                done == (destruction@.stage == DestroyStageView::Done),
            decreases
                destroy_rank(destruction@.stage),
                move_rank(destruction@.stage),
                move_size(self@, destruction@.stage),
        {
            let ghost before = self@;
            let ghost began = destruction@;
            proof {
                lemma_destroy_step(before, began);
            }
            match self.step_destroy(&mut destruction) {
                Ok(mut fires) => {
                    let ghost a = out@;
                    let ghost b = fires@;
                    out.append(&mut fires);
                    proof {
                        assert(text::views(out@) =~= text::views(a) + text::views(b));
                        let rest = destroy_left(self@, destruction@);
                        assert(text::views(a) + (text::views(b) + rest) =~= text::views(out@) + rest);
                    }
                },
                Err(_) => {},
            }
            done = matches!(destruction.stage, DestroyStage::Done);
        }
        assert(text::views(out@) + destroy_left(self@, destruction@) =~= text::views(out@));
        out
    }

    /// Destroys the children of an instance, where nothing intervenes. The result lists what fires.
    pub fn clear_all_children(&mut self, instance: usize) -> (r: Vec<Firing>)
        requires
            old(self)@.wf(),
            instance < old(self)@.instances.len(),
        ensures
            final(self)@.wf(),
            (final(self)@, text::views(r@)) == destroy_all_outcome(
                old(self)@,
                old(self)@.instances[instance as int].children,
            ),
    {
        let ghost start = self@;
        let list = self.children(instance);
        proof {
            let kids = instance::kids_of(start.instances);
            assert forall|k: int| 0 <= k < list@.len() implies #[trigger] list@[k]
                < start.instances.len() by {
                assert(kids[instance as int][k] == list@[k]);
            }
        }
        let mut out: Vec<Firing> = Vec::new();
        let mut i: usize = 0;
        assert(list@.take(0) =~= Seq::empty());
        assert(text::views(out@) =~= Seq::empty());
        while i < list.len()
            invariant
                i <= list@.len(),
                self@.wf(),
                self@.instances.len() == start.instances.len(),
                all_below(list@, start.instances.len()),
                (self@, text::views(out@)) == destroy_all_outcome(start, list@.take(i as int)),
            decreases list@.len() - i,
        {
            assert(list@[i as int] < start.instances.len());
            let mut fires = self.destroy_instance(list[i]);
            let ghost a = out@;
            let ghost b = fires@;
            out.append(&mut fires);
            proof {
                assert(text::views(out@) =~= text::views(a) + text::views(b));
                assert(list@.take(i + 1).drop_last() =~= list@.take(i as int));
                assert(list@.take(i + 1).last() == list@[i as int]);
            }
            i += 1;
        }
        assert(list@.take(i as int) =~= list@);
        out
    }

    /// The children of an instance.
    pub fn children(&self, instance: usize) -> (r: Vec<usize>)
        requires
            instance < self@.instances.len(),
        ensures
            r@ == self@.instances[instance as int].children,
    {
        let from = self.instance(instance);
        let mut out: Vec<usize> = Vec::new();
        let mut i: usize = 0;
        while i < from.children.len()
            invariant
                i <= from.children@.len(),
                out@ == from.children@.take(i as int),
            decreases from.children@.len() - i,
        {
            out.push(from.children[i]);
            assert(out@ =~= from.children@.take(i + 1));
            i += 1;
        }
        assert(out@ =~= from.children@);
        out
    }
}

// ---------------------------------------------------------------------------------------------
// Laws
// ---------------------------------------------------------------------------------------------

/// Whether children and parents tell the same story: each instance is listed once by its parent and
/// by no other instance.
pub open spec fn consistent(nodes: Seq<InstanceView>) -> bool {
    &&& forall|p: int, k: int|
        0 <= p < nodes.len() && 0 <= k < nodes[p].children.len() ==> nodes[#[trigger]
        nodes[p].children[k] as int].parent == Some(p as usize)
    &&& forall|c: int|
        0 <= c < nodes.len() ==> ((#[trigger] nodes[c]).parent matches Some(p)
            ==> nodes[p as int].children.contains(c as usize))
    &&& forall|p: int| 0 <= p < nodes.len() ==> (#[trigger] nodes[p]).children.no_duplicates()
}

/// Where children and parents tell the same story, only an instance's own descendants refuse to be
/// its parent.
pub proof fn lemma_no_clash(rt: RuntimeView, child: usize, parent: usize)
    requires
        rt.wf(),
        consistent(rt.instances),
        child < rt.instances.len(),
        parent < rt.instances.len(),
        !tree::subtree(instance::kids_of(rt.instances), child).contains(parent),
    ensures
        !runtime::clashes(after_leaving(rt, new_move(rt, child, Some(parent))), child, parent),
{
    let nodes = rt.instances;
    let kids = instance::kids_of(nodes);
    let ups = instance::ups_of(nodes);
    let left = after_leaving(rt, new_move(rt, child, Some(parent)));
    let rank = choose|rank: spec_fn(int) -> nat| tree::ranked(kids, rank);
    tree::lemma_lineage(ups, child);
    match nodes[child as int].parent {
        Some(p) => {
            runtime::lemma_detached_wf(rt, p, child);
        },
        None => {
            assert forall|i: int, k: int| 0 <= i < kids.len() && 0 <= k < kids[i].len() implies kids[i].contains(
                #[trigger] kids[i][k],
            ) by {}
        },
    }
    assert(tree::fewer(instance::kids_of(left.instances), kids));
    assert(instance::ups_of(left.instances) == ups);
    if tree::subtree(instance::kids_of(left.instances), child).contains(parent) {
        tree::lemma_fewer_reach(instance::kids_of(left.instances), kids, rank, child, parent);
    }
    if tree::lineage(ups, parent).contains(child) {
        let up_rank = choose|rank: spec_fn(int) -> nat| tree::ranked(tree::up_lists(ups), rank);
        assert forall|c: int| 0 <= c < ups.len() implies (#[trigger] ups[c] matches Some(p)
            ==> kids[p as int].contains(c as usize)) by {
            assert(ups[c] == nodes[c].parent);
            if let Some(p) = nodes[c].parent {
                assert(tree::up_lists(ups)[c][0] == p);
                assert(p < nodes.len());
                assert(kids[p as int] == nodes[p as int].children);
            }
        }
        tree::lemma_above_reaches(kids, ups, up_rank, parent, child);
    }
}

proof fn lemma_filter_children(list: Seq<usize>, child: usize)
    requires
        list.no_duplicates(),
    ensures
        list.filter(runtime::all_but(child)).no_duplicates(),
        !list.filter(runtime::all_but(child)).contains(child),
        forall|c: usize|
            c != child ==> (#[trigger] list.filter(runtime::all_but(child)).contains(c) == list.contains(c)),
    decreases list.len(),
{
    reveal(Seq::filter);
    if list.len() > 0 {
        let init = list.drop_last();
        assert(init.no_duplicates());
        lemma_filter_children(init, child);
        let part = init.filter(runtime::all_but(child));
        let whole = list.filter(runtime::all_but(child));
        let last = list.last();
        assert(init.push(last) =~= list);
        assert(!init.contains(last)) by {
            if init.contains(last) {
                let k = choose|k: int| 0 <= k < init.len() && init[k] == last;
                assert(list[k] == list[list.len() - 1]);
            }
        }
        assert forall|c: usize| c != child implies (#[trigger] whole.contains(c)
            == list.contains(c)) by {
            tree::lemma_contains_append(init, seq![last], c);
            assert(init + seq![last] =~= list);
            tree::lemma_contains_append(part, seq![last], c);
            assert(part + seq![last] =~= part.push(last));
            assert(part.contains(c) == init.contains(c));
            assert(seq![last].contains(c) == (c == last)) by {
                assert(seq![last][0] == last);
            }
        }
        assert(!whole.contains(child)) by {
            tree::lemma_contains_append(part, seq![last], child);
            assert(part + seq![last] =~= part.push(last));
            assert(last != child ==> !seq![last].contains(child));
        }
        assert(whole.no_duplicates()) by {
            if last != child {
                assert(!part.contains(last));
                assert forall|i: int, j: int| 0 <= i < whole.len() && 0 <= j < whole.len() && i
                    != j implies whole[i] != whole[j] by {
                    if i < part.len() && j < part.len() {
                        assert(part[i] != part[j]);
                    } else if i < part.len() {
                        assert(part.contains(part[i]));
                    } else {
                        assert(part.contains(part[j]));
                    }
                }
            }
        }
    }
}

proof fn lemma_moved_consistent(rt: RuntimeView, child: usize, parent: Option<usize>)
    requires
        rt.wf(),
        consistent(rt.instances),
        child < rt.instances.len(),
        parent matches Some(p) ==> p < rt.instances.len() && p != child && rt.instances[child as int].parent
            != Some(p),
    ensures
        consistent(runtime::placed(after_leaving(rt, new_move(rt, child, parent)), child, parent).instances),
{
    let nodes = rt.instances;
    let left = after_leaving(rt, new_move(rt, child, parent));
    let after = runtime::placed(left, child, parent).instances;
    let from = nodes[child as int].parent;
    tree::lemma_lineage(instance::ups_of(nodes), child);
    if let Some(p) = from {
        lemma_filter_children(nodes[p as int].children, child);
    }
    assert forall|p: int| 0 <= p < nodes.len() && from != Some(p as usize) implies !(
    #[trigger] nodes[p]).children.contains(child) by {
        if nodes[p].children.contains(child) {
            let k = choose|k: int|
                0 <= k < nodes[p].children.len() && nodes[p].children[k] == child;
            assert(nodes[nodes[p].children[k] as int].parent == Some(p as usize));
        }
    }
    assert forall|p: int| 0 <= p < nodes.len() implies (#[trigger] after[p]).children == (
    if parent == Some(p as usize) {
        nodes[p].children.push(child)
    } else if from == Some(p as usize) {
        nodes[p].children.filter(runtime::all_but(child))
    } else {
        nodes[p].children
    }) && after[p].parent == (if p == child {
        parent
    } else {
        nodes[p].parent
    }) by {}
    assert forall|p: int, k: int|
        0 <= p < after.len() && 0 <= k < after[p].children.len() implies after[#[trigger]
    after[p].children[k] as int].parent == Some(p as usize) by {
        let c = after[p].children[k];
        if parent == Some(p as usize) && k == nodes[p].children.len() {
            assert(c == child);
        } else if from == Some(p as usize) && parent != Some(p as usize) {
            let kept = nodes[p].children.filter(runtime::all_but(child));
            assert(kept[k] == c);
            assert(kept.contains(c));
            assert(c != child);
            assert(nodes[p].children.contains(c));
            let j = choose|j: int| 0 <= j < nodes[p].children.len() && nodes[p].children[j] == c;
            assert(nodes[nodes[p].children[j] as int].parent == Some(p as usize));
            assert(instance::kids_of(nodes)[p][j] < nodes.len());
        } else {
            assert(c == nodes[p].children[k]);
            assert(nodes[p].children.contains(c));
            assert(c != child);
            assert(nodes[nodes[p].children[k] as int].parent == Some(p as usize));
            assert(instance::kids_of(nodes)[p][k] < nodes.len());
        }
    }
    assert forall|c: int| 0 <= c < after.len() implies ((#[trigger] after[c]).parent matches Some(
        p,
    ) ==> after[p as int].children.contains(c as usize)) by {
        if let Some(p) = after[c].parent {
            if c == child {
                let list = nodes[p as int].children;
                assert(after[p as int].children == list.push(child));
                assert(list.push(child)[list.len() as int] == child);
            } else {
                assert(nodes[c].parent == Some(p));
                tree::lemma_lineage(instance::ups_of(nodes), c as usize);
                assert(instance::ups_of(nodes)[c] == Some(p));
                let list = nodes[p as int].children;
                assert(list.contains(c as usize));
                if parent == Some(p) {
                    let j = choose|j: int| 0 <= j < list.len() && list[j] == c as usize;
                    assert(list.push(child)[j] == c as usize);
                }
            }
        }
    }
    assert forall|p: int| 0 <= p < after.len() implies (
    #[trigger] after[p]).children.no_duplicates() by {
        assert(nodes[p].children.no_duplicates());
        if parent == Some(p as usize) {
            let list = nodes[p].children;
            let more = list.push(child);
            assert forall|i: int, j: int| 0 <= i < more.len() && 0 <= j < more.len() && i
                != j implies more[i] != more[j] by {
                if i < list.len() && j < list.len() {
                    assert(list[i] != list[j]);
                } else if i < list.len() {
                    assert(list.contains(list[i]));
                } else {
                    assert(list.contains(list[j]));
                }
            }
        }
    }
}

/// Giving an instance a parent keeps the tree a tree: children and parents go on telling the same
/// story. It is refused only where something is destroyed or the parent would be the instance itself
/// or one of its descendants; otherwise the instance has the parent afterwards.
pub proof fn law_set_parent_keeps_the_tree(rt: RuntimeView, child: usize, parent: Option<usize>)
    requires
        rt.wf(),
        consistent(rt.instances),
        child < rt.instances.len(),
        parent matches Some(p) ==> p < rt.instances.len(),
    ensures
        consistent(set_parent_outcome(rt, child, parent).0.instances),
        set_parent_outcome(rt, child, parent).1 is Err <==> move_check(rt, child, parent) is Err,
        move_check(rt, child, parent) is Err ==> set_parent_outcome(rt, child, parent).0 == rt,
        move_check(rt, child, parent) is Ok ==> set_parent_outcome(
            rt,
            child,
            parent,
        ).0.instances[child as int].parent == parent,
{
    if move_check(rt, child, parent) == Ok::<bool, Text>(true) {
        if let Some(p) = parent {
            tree::lemma_contains_append(seq![child], tree::descendants(instance::kids_of(rt.instances), child), p);
            assert(!seq![child].contains(p)) by {
                if seq![child].contains(p) {
                    let j = choose|j: int| 0 <= j < 1 && seq![child][j] == p;
                    assert(seq![child][j] == child);
                }
            }
            lemma_no_clash(rt, child, p);
        }
        lemma_moved_consistent(rt, child, parent);
        let left = after_leaving(rt, new_move(rt, child, parent));
        tree::lemma_lineage(instance::ups_of(rt.instances), child);
        assert(left.instances.len() == rt.instances.len());
        assert(runtime::placed(left, child, parent).instances[child as int].parent == parent);
    }
}

/// Destroying an instance takes it and everything below it out of the tree for good, and keeps the
/// tree a tree.
pub proof fn law_destroy_takes_out(rt: RuntimeView, i: usize)
    requires
        rt.wf(),
        consistent(rt.instances),
        i < rt.instances.len(),
        !rt.instances[i as int].destroyed,
    ensures
        consistent(destroy_outcome(rt, i).0.instances),
        ({
            let after = destroy_outcome(rt, i).0.instances;
            forall|c: int|
                0 <= c < after.len() && tree::subtree(instance::kids_of(rt.instances), i).contains(c as usize)
                    ==> (#[trigger] after[c]).destroyed && after[c].parent is None
                    && after[c].children.len() == 0
        }),
        ({
            let after = destroy_outcome(rt, i).0.instances;
            forall|c: int|
                0 <= c < after.len() && !tree::subtree(instance::kids_of(rt.instances), i).contains(c as usize)
                    ==> (#[trigger] after[c]).destroyed == rt.instances[c].destroyed
                    && after[c].parent == rt.instances[c].parent
        }),
{
    let nodes = rt.instances;
    let kids = instance::kids_of(nodes);
    let change = new_move(rt, i, None);
    let left = after_leaving(rt, change);
    let alone = runtime::placed(left, i, None);
    let gone = tree::subtree(instance::kids_of(alone.instances), i);
    let after = destroy_outcome(rt, i).0.instances;
    lemma_moved_consistent(rt, i, None);
    tree::lemma_lineage(instance::ups_of(nodes), i);
    if let Some(p) = nodes[i as int].parent {
        runtime::lemma_detached_wf(rt, p, i);
    }
    runtime::lemma_placed_wf(left, i, None);
    lemma_same_subtree(rt, i);
    lemma_buried_consistent(alone, i);
    assert(gone == tree::subtree(kids, i));
}

/// Leaving its parent changes nothing about what lies below an instance.
pub proof fn lemma_same_subtree(rt: RuntimeView, i: usize)
    requires
        rt.wf(),
        consistent(rt.instances),
        i < rt.instances.len(),
    ensures
        tree::subtree(
            instance::kids_of(runtime::placed(after_leaving(rt, new_move(rt, i, None)), i, None).instances),
            i,
        ) == tree::subtree(instance::kids_of(rt.instances), i),
{
    let nodes = rt.instances;
    let kids = instance::kids_of(nodes);
    let alone = runtime::placed(after_leaving(rt, new_move(rt, i, None)), i, None);
    let less = instance::kids_of(alone.instances);
    tree::lemma_lineage(instance::ups_of(nodes), i);
    match nodes[i as int].parent {
        None => {
            assert(less =~= kids);
        },
        Some(p) => {
            assert(less =~= kids.update(p as int, kids[p as int].filter(runtime::all_but(i))));
            let rank = choose|rank: spec_fn(int) -> nat| tree::ranked(kids, rank);
            assert(kids[p as int].contains(i)) by {
                assert(nodes[i as int].parent == Some(p));
            }
            let k = choose|k: int| 0 <= k < kids[p as int].len() && kids[p as int][k] == i;
            assert(rank(kids[p as int][k] as int) < rank(p as int));
            assert forall|j: int| 0 <= j < kids.len() && rank(j) <= rank(
                i as int,
            ) implies #[trigger] less[j] == kids[j] by {}
            lemma_list_same(kids, less, rank, kids[i as int], rank(i as int), kids.len());
        },
    }
}

/// Lists of children that agree up to a rank lead to the same instances from below that rank.
pub proof fn lemma_list_same(
    kids: Seq<Seq<usize>>,
    less: Seq<Seq<usize>>,
    rank: spec_fn(int) -> nat,
    list: Seq<usize>,
    bound: nat,
    depth: nat,
)
    requires
        tree::in_range(kids),
        tree::ranked(kids, rank),
        less.len() == kids.len(),
        forall|j: int| 0 <= j < kids.len() && rank(j) <= bound ==> #[trigger] less[j] == kids[j],
        forall|k: int| 0 <= k < list.len() ==> #[trigger] list[k] < kids.len() && rank(
            list[k] as int,
        ) < bound,
    ensures
        tree::list_below(less, list, depth) == tree::list_below(kids, list, depth),
    decreases depth, list.len(),
{
    if list.len() > 0 {
        let init = list.drop_last();
        assert forall|k: int| 0 <= k < init.len() implies #[trigger] init[k] < kids.len() && rank(
            init[k] as int,
        ) < bound by {
            assert(init[k] == list[k]);
        }
        lemma_list_same(kids, less, rank, init, bound, depth);
        let last = list[list.len() - 1];
        assert(last < kids.len());
        if depth > 0 {
            let under = kids[last as int];
            assert(less[last as int] == under);
            assert forall|k: int| 0 <= k < under.len() implies #[trigger] under[k] < kids.len()
                && rank(under[k] as int) < bound by {
                assert(rank(kids[last as int][k] as int) < rank(last as int));
                assert(kids[last as int][k] < kids.len());
            }
            lemma_list_same(kids, less, rank, under, bound, (depth - 1) as nat);
        }
        assert(tree::node_below(less, last, depth) == tree::node_below(kids, last, depth));
    }
}

/// Destroying what lies below a root keeps children and parents telling the same story.
proof fn lemma_buried_consistent(rt: RuntimeView, i: usize)
    requires
        rt.wf(),
        consistent(rt.instances),
        i < rt.instances.len(),
        rt.instances[i as int].parent is None,
    ensures
        consistent(runtime::buried(rt, tree::subtree(instance::kids_of(rt.instances), i)).instances),
{
    let nodes = rt.instances;
    let kids = instance::kids_of(nodes);
    let gone = tree::subtree(kids, i);
    let after = runtime::buried(rt, gone).instances;
    let rank = choose|rank: spec_fn(int) -> nat| tree::ranked(kids, rank);
    assert forall|p: int, k: int|
        0 <= p < after.len() && 0 <= k < after[p].children.len() implies after[#[trigger]
    after[p].children[k] as int].parent == Some(p as usize) by {
        assert(!gone.contains(p as usize));
        let c = nodes[p].children[k];
        assert(nodes[nodes[p].children[k] as int].parent == Some(p as usize));
        assert(kids[p][k] < kids.len());
        if gone.contains(c) {
            tree::lemma_reach(kids, i, i);
            lemma_gone_upwards(rt, rank, i, i, c);
        }
    }
    assert forall|c: int| 0 <= c < after.len() implies ((#[trigger] after[c]).parent matches Some(
        p,
    ) ==> after[p as int].children.contains(c as usize)) by {
        if let Some(p) = after[c].parent {
            assert(nodes[c].parent == Some(p));
            tree::lemma_lineage(instance::ups_of(nodes), c as usize);
            assert(instance::ups_of(nodes)[c] == Some(p));
            assert(nodes[p as int].children.contains(c as usize));
            if gone.contains(p) {
                tree::lemma_reach_further(kids, rank, i, p, c as usize);
            }
        }
    }
    assert forall|p: int| 0 <= p < after.len() implies (
    #[trigger] after[p]).children.no_duplicates() by {
        assert(nodes[p].children.no_duplicates());
    }
}

/// What lies below a root lies there with its parent.
proof fn lemma_gone_upwards(
    rt: RuntimeView,
    rank: spec_fn(int) -> nat,
    root: usize,
    at: usize,
    c: usize,
)
    requires
        rt.wf(),
        consistent(rt.instances),
        tree::ranked(instance::kids_of(rt.instances), rank),
        root < rt.instances.len(),
        at < rt.instances.len(),
        c < rt.instances.len(),
        tree::subtree(instance::kids_of(rt.instances), root).contains(at),
        tree::subtree(instance::kids_of(rt.instances), at).contains(c),
        c != at,
    ensures
        rt.instances[c as int].parent matches Some(p) && tree::subtree(
            instance::kids_of(rt.instances),
            root,
        ).contains(p),
    decreases rank(at as int),
{
    let kids = instance::kids_of(rt.instances);
    tree::lemma_reach(kids, at, c);
    let k = choose|k: int|
        0 <= k < kids[at as int].len() && tree::subtree(kids, #[trigger] kids[at as int][k]).contains(c);
    let down = kids[at as int][k];
    assert(rank(kids[at as int][k] as int) < rank(at as int));
    assert(kids[at as int][k] < kids.len());
    if down == c {
        assert(rt.instances[rt.instances[at as int].children[k] as int].parent == Some(at));
    } else {
        tree::lemma_reach_further(kids, rank, root, at, down);
        lemma_gone_upwards(rt, rank, root, down, c);
    }
}

/// An instance lies below another one, or is that one, where the way up from it leads there.
pub proof fn law_below_is_where_the_way_up_leads(rt: RuntimeView, i: usize, j: usize)
    requires
        rt.wf(),
        consistent(rt.instances),
        i < rt.instances.len(),
        j < rt.instances.len(),
    ensures
        tree::subtree(instance::kids_of(rt.instances), i).contains(j) <==> tree::lineage(
            instance::ups_of(rt.instances),
            j,
        ).contains(i),
{
    let nodes = rt.instances;
    let kids = instance::kids_of(nodes);
    let ups = instance::ups_of(nodes);
    if tree::lineage(ups, j).contains(i) {
        let up_rank = choose|rank: spec_fn(int) -> nat| tree::ranked(tree::up_lists(ups), rank);
        assert forall|c: int| 0 <= c < ups.len() implies (#[trigger] ups[c] matches Some(p)
            ==> kids[p as int].contains(c as usize)) by {
            assert(ups[c] == nodes[c].parent);
            if let Some(p) = nodes[c].parent {
                assert(tree::up_lists(ups)[c][0] == p);
                assert(p < nodes.len());
                assert(kids[p as int] == nodes[p as int].children);
            }
        }
        tree::lemma_above_reaches(kids, ups, up_rank, j, i);
    }
    if tree::subtree(kids, i).contains(j) {
        let rank = choose|rank: spec_fn(int) -> nat| tree::ranked(kids, rank);
        lemma_way_up(rt, rank, i, j);
    }
}

proof fn lemma_way_up(rt: RuntimeView, rank: spec_fn(int) -> nat, i: usize, j: usize)
    requires
        rt.wf(),
        consistent(rt.instances),
        tree::ranked(instance::kids_of(rt.instances), rank),
        i < rt.instances.len(),
        j < rt.instances.len(),
        tree::subtree(instance::kids_of(rt.instances), i).contains(j),
    ensures
        tree::lineage(instance::ups_of(rt.instances), j).contains(i),
        rank(j as int) <= rank(i as int),
    decreases rank(i as int) - rank(j as int),
{
    let kids = instance::kids_of(rt.instances);
    let ups = instance::ups_of(rt.instances);
    lemma_lower_rank(kids, rank, i, j);
    tree::lemma_lineage(ups, j);
    let line = tree::lineage(ups, j);
    if i == j {
        assert(line[0] == i);
    } else {
        tree::lemma_reach(kids, i, i);
        lemma_gone_upwards(rt, rank, i, i, j);
        let p = rt.instances[j as int].parent->Some_0;
        assert(ups[j as int] == Some(p));
        assert(rt.instances[p as int].children.contains(j));
        let k = choose|k: int| 0 <= k < kids[p as int].len() && kids[p as int][k] == j;
        assert(rank(kids[p as int][k] as int) < rank(p as int));
        lemma_lower_rank(kids, rank, i, p);
        lemma_way_up(rt, rank, i, p);
        tree::lemma_contains_append(seq![j], tree::lineage(ups, p), i);
    }
}

proof fn lemma_lower_rank(kids: Seq<Seq<usize>>, rank: spec_fn(int) -> nat, i: usize, j: usize)
    requires
        tree::in_range(kids),
        tree::ranked(kids, rank),
        i < kids.len(),
        tree::subtree(kids, i).contains(j),
    ensures
        rank(j as int) <= rank(i as int),
    decreases rank(i as int),
{
    tree::lemma_reach(kids, i, j);
    if i != j {
        let k = choose|k: int|
            0 <= k < kids[i as int].len() && tree::subtree(kids, #[trigger] kids[i as int][k]).contains(j);
        assert(rank(kids[i as int][k] as int) < rank(i as int));
        assert(kids[i as int][k] < kids.len());
        lemma_lower_rank(kids, rank, kids[i as int][k], j);
    }
}

/// An instance cannot get a parent where it or the parent has been destroyed, or where the way up from
/// the parent leads to it. It can get every other one, and where it has that parent already, nothing
/// changes and nothing fires. Whatever comes of it, nothing but the place in the tree changes, and only
/// the instance itself gets another parent.
pub proof fn law_moves_refused(rt: RuntimeView, child: usize, parent: Option<usize>)
    requires
        rt.wf(),
        consistent(rt.instances),
        child < rt.instances.len(),
        parent matches Some(p) ==> p < rt.instances.len(),
    ensures
        ({
            let (after, fires) = set_parent_outcome(rt, child, parent);
            &&& fires is Err <==> rt.instances[child as int].destroyed || (parent matches Some(p) && (
            rt.instances[p as int].destroyed || tree::lineage(
                instance::ups_of(rt.instances),
                p,
            ).contains(child)))
            &&& fires is Err ==> after == rt
            &&& fires is Ok && parent is Some && rt.instances[child as int].parent == parent ==> after
                == rt && fires->Ok_0.len() == 0
            &&& after.instances.len() == rt.instances.len()
            &&& forall|i: int|
                0 <= i < rt.instances.len() ==> (#[trigger] after.instances[i]) == (InstanceView {
                    parent: after.instances[i].parent,
                    children: after.instances[i].children,
                    ..rt.instances[i]
                }) && (i != child ==> after.instances[i].parent == rt.instances[i].parent)
            &&& after.mode == rt.mode
            &&& after.services == rt.services
            &&& after.data_model == rt.data_model
            &&& after.local_player == rt.local_player
            &&& after.next_id == rt.next_id
        }),
{
    law_set_parent_keeps_the_tree(rt, child, parent);
    let kids = instance::kids_of(rt.instances);
    tree::lemma_lineage(instance::ups_of(rt.instances), child);
    if let Some(p) = parent {
        law_below_is_where_the_way_up_leads(rt, child, p);
        tree::lemma_contains_append(seq![child], tree::descendants(kids, child), p);
        assert(seq![child].contains(p) <==> p == child) by {
            assert(seq![child][0] == child);
        }
    }
}

/// An instance that is moved leaves the children of its old parent, which stay in their order, and
/// becomes the last child of its new one. No other instance gains or loses a child.
pub proof fn law_moves_arrive_last(rt: RuntimeView, child: usize, parent: Option<usize>, i: int)
    requires
        rt.wf(),
        consistent(rt.instances),
        child < rt.instances.len(),
        parent matches Some(p) ==> p < rt.instances.len(),
        set_parent_outcome(rt, child, parent).1 is Ok,
        parent is None || rt.instances[child as int].parent != parent,
        0 <= i < rt.instances.len(),
    ensures
        ({
            let before = rt.instances[i].children;
            let after = set_parent_outcome(rt, child, parent).0.instances[i].children;
            if parent == Some(i as usize) {
                after == before.push(child)
            } else if rt.instances[child as int].parent == Some(i as usize) {
                &&& before.contains(child)
                &&& after == before.take(before.index_of(child)) + before.skip(
                    before.index_of(child) + 1,
                )
            } else {
                after == before
            }
        }),
{
    let before = rt.instances[i].children;
    tree::lemma_lineage(instance::ups_of(rt.instances), child);
    if rt.instances[child as int].parent == Some(i as usize) {
        assert(before.contains(child));
        lemma_filter_one(before, child, before.index_of(child));
    }
}

proof fn lemma_filter_one(list: Seq<usize>, child: usize, at: int)
    requires
        list.no_duplicates(),
        0 <= at < list.len(),
        list[at] == child,
    ensures
        list.filter(runtime::all_but(child)) == list.take(at) + list.skip(at + 1),
    decreases list.len(),
{
    reveal(Seq::filter);
    let keep = runtime::all_but(child);
    let init = list.drop_last();
    assert(init.no_duplicates());
    if at == list.len() - 1 {
        assert(!init.contains(child)) by {
            if init.contains(child) {
                let k = choose|k: int| 0 <= k < init.len() && init[k] == child;
                assert(list[k] == list[at]);
            }
        }
        lemma_filter_none(init, child);
        assert(list.take(at) + list.skip(at + 1) =~= init);
    } else {
        assert(init[at] == child);
        lemma_filter_one(init, child, at);
        assert(list.last() != child) by {
            assert(list[list.len() - 1] != list[at]);
        }
        assert(list.take(at) + list.skip(at + 1) =~= (init.take(at) + init.skip(at + 1)).push(
            list.last(),
        ));
    }
}

proof fn lemma_filter_none(list: Seq<usize>, child: usize)
    requires
        !list.contains(child),
    ensures
        list.filter(runtime::all_but(child)) == list,
    decreases list.len(),
{
    reveal(Seq::filter);
    if list.len() > 0 {
        let init = list.drop_last();
        assert(!init.contains(child)) by {
            if init.contains(child) {
                let k = choose|k: int| 0 <= k < init.len() && init[k] == child;
                assert(list[k] == child);
            }
        }
        lemma_filter_none(init, child);
        assert(list[list.len() - 1] == list.last());
        assert(init.push(list.last()) =~= list);
    }
}

/// Destroying an instance changes nothing but where it and everything below it stand, that these count
/// as destroyed, and that its parent has one child less. What was destroyed before stays as it is.
pub proof fn law_destruction_leaves_the_rest(rt: RuntimeView, i: usize, c: int)
    requires
        rt.wf(),
        consistent(rt.instances),
        i < rt.instances.len(),
        0 <= c < rt.instances.len(),
    ensures
        ({
            let (after, fires) = destroy_outcome(rt, i);
            let below = tree::subtree(instance::kids_of(rt.instances), i).contains(c as usize);
            let before = rt.instances[c];
            let now = after.instances[c];
            &&& after.wf()
            &&& rt.instances[i as int].destroyed ==> after == rt && fires.len() == 0
            &&& now == (InstanceView {
                parent: now.parent,
                children: now.children,
                destroyed: now.destroyed,
                ..before
            })
            &&& !rt.instances[i as int].destroyed && !below ==> now.children == (if before.children.contains(
                i,
            ) {
                before.children.take(before.children.index_of(i)) + before.children.skip(
                    before.children.index_of(i) + 1,
                )
            } else {
                before.children
            })
            &&& after == (RuntimeView { instances: after.instances, ..rt })
            &&& after.instances.len() == rt.instances.len()
        }),
{
    if !rt.instances[i as int].destroyed {
        let nodes = rt.instances;
        let before = nodes[c];
        let change = new_move(rt, i, None);
        let left = after_leaving(rt, change);
        let alone = runtime::placed(left, i, None);
        tree::lemma_lineage(instance::ups_of(nodes), i);
        if let Some(p) = nodes[i as int].parent {
            runtime::lemma_detached_wf(rt, p, i);
        }
        runtime::lemma_placed_wf(left, i, None);
        lemma_same_subtree(rt, i);
        runtime::lemma_buried_wf(alone, tree::subtree(instance::kids_of(alone.instances), i));
        if before.children.contains(i) {
            let k = before.children.index_of(i);
            assert(nodes[before.children[k] as int].parent == Some(c as usize));
            lemma_filter_one(before.children, i, k);
        } else {
            assert(nodes[i as int].parent != Some(c as usize));
        }
        let whole = tree::subtree(instance::kids_of(nodes), i);
        assert(whole.contains(i)) by {
            assert(whole[0] == i);
        }
    }
}

/// When the given instances have been destroyed one after the other, each of them is destroyed and
/// stands nowhere, unless it was destroyed before, and none that was destroyed before comes back.
pub proof fn law_all_are_destroyed(rt: RuntimeView, list: Seq<usize>)
    requires
        rt.wf(),
        consistent(rt.instances),
        forall|k: int| 0 <= k < list.len() ==> #[trigger] list[k] < rt.instances.len(),
    ensures
        ({
            let after = destroy_all_outcome(rt, list).0;
            &&& after.wf()
            &&& consistent(after.instances)
            &&& after.instances.len() == rt.instances.len()
            &&& forall|k: int|
                0 <= k < list.len() && !rt.instances[list[k] as int].destroyed ==> {
                    let gone = after.instances[#[trigger] list[k] as int];
                    gone.destroyed && gone.parent is None && gone.children.len() == 0
                }
            &&& forall|c: int|
                0 <= c < rt.instances.len() && !(#[trigger] after.instances[c]).destroyed
                    ==> !rt.instances[c].destroyed && after.instances[c].parent == rt.instances[c].parent
            &&& forall|c: int|
                0 <= c < rt.instances.len() && rt.instances[c].destroyed && rt.instances[c].parent is None
                    && rt.instances[c].children.len() == 0 ==> (#[trigger] after.instances[c])
                    == rt.instances[c]
        }),
    decreases list.len(), 1nat,
{
    if list.len() > 0 {
        let init = list.drop_last();
        let last = list.last();
        assert forall|k: int| 0 <= k < init.len() implies #[trigger] init[k] < rt.instances.len() by {
            assert(init[k] == list[k]);
        }
        law_all_are_destroyed(rt, init);
        assert(list[list.len() - 1] == last);
        let mid = destroy_all_outcome(rt, init).0;
        let after = destroy_all_outcome(rt, list).0;
        law_destruction_leaves_the_rest(mid, last, last as int);
        let whole = tree::subtree(instance::kids_of(mid.instances), last);
        assert(whole.contains(last)) by {
            assert(whole[0] == last);
        }
        if !mid.instances[last as int].destroyed {
            law_destroy_takes_out(mid, last);
        }
        assert forall|c: int|
            0 <= c < rt.instances.len() && mid.instances[c].destroyed && mid.instances[c].parent is None
                && mid.instances[c].children.len() == 0 implies (#[trigger] after.instances[c])
            == mid.instances[c] by {
            law_destruction_leaves_the_rest(mid, last, c);
        }
        assert forall|k: int| 0 <= k < list.len() && !rt.instances[list[k] as int].destroyed implies {
            let gone = after.instances[#[trigger] list[k] as int];
            gone.destroyed && gone.parent is None && gone.children.len() == 0
        } by {
            if k < init.len() {
                assert(init[k] == list[k]);
                assert(after.instances[list[k] as int] == mid.instances[list[k] as int]);
            } else if mid.instances[last as int].destroyed {
                lemma_destroyed_by_list(rt, init, last as int);
            }
        }
        assert forall|c: int|
            0 <= c < rt.instances.len() && rt.instances[c].destroyed && rt.instances[c].parent is None
                && rt.instances[c].children.len() == 0 implies (#[trigger] after.instances[c])
            == rt.instances[c] by {
            assert(mid.instances[c] == rt.instances[c]);
        }
    }
}

/// What a destruction in a list took out stands nowhere.
proof fn lemma_destroyed_by_list(rt: RuntimeView, list: Seq<usize>, c: int)
    requires
        rt.wf(),
        consistent(rt.instances),
        forall|k: int| 0 <= k < list.len() ==> #[trigger] list[k] < rt.instances.len(),
        0 <= c < rt.instances.len(),
        !rt.instances[c].destroyed,
        destroy_all_outcome(rt, list).0.instances[c].destroyed,
    ensures
        destroy_all_outcome(rt, list).0.instances[c].parent is None,
        destroy_all_outcome(rt, list).0.instances[c].children.len() == 0,
    decreases list.len(), 0nat,
{
    if list.len() > 0 {
        let init = list.drop_last();
        let last = list.last();
        assert forall|k: int| 0 <= k < init.len() implies #[trigger] init[k] < rt.instances.len() by {
            assert(init[k] == list[k]);
        }
        law_all_are_destroyed(rt, init);
        assert(list[list.len() - 1] == last);
        let mid = destroy_all_outcome(rt, init).0;
        law_destruction_leaves_the_rest(mid, last, c);
        if mid.instances[c].destroyed {
            lemma_destroyed_by_list(rt, init, c);
        }
        if !mid.instances[last as int].destroyed {
            law_destroy_takes_out(mid, last);
        }
    }
}

} // verus!
