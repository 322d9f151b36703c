//! Building the instances that a project's layout describes.
//!
//! The layout becomes a plan: a list of instances to be made, each before the ones below it. A
//! [`Loader`] carries the plan out in steps, so that listeners can run between them.

use vstd::prelude::*;
use vstd::string::*;

use crate::error::{Error, failure};
use crate::instance::{InstanceView, PropertyValue, ValueView};
use crate::lua_api::{self, should_auto_run_class};
use crate::moves;
use crate::path::{self, normalize_rel_path};
use crate::project::{
    self, MountView, NodeView, ProjectLayout, ProjectMount, ProjectNode, copy_opt_text,
};
use crate::rbxlx;
use crate::runtime::{self, Firing, FiringView, Runtime, RuntimeView};
use crate::signal::ArgView;
use crate::text::{self, Text, copy_bytes};

verus! {

// ---------------------------------------------------------------------------------------------
// The plan
// ---------------------------------------------------------------------------------------------

/// Where an instance goes.
#[derive(Clone, Copy, Debug, PartialEq, Eq, Structural)]
pub enum PlanParent {
    /// Below an instance that is there already.
    Existing(usize),
    /// Below the instance that an earlier step of the plan makes.
    Made(usize),
}

/// An instance to be made.
#[derive(Debug)]
pub struct PlanNode {
    pub parent: PlanParent,
    pub class_name: String,
    pub name: String,
    pub source: Option<String>,
    pub value: Option<Vec<u8>>,
    pub script_path: Option<String>,
    /// Whether nothing in the script keeps it from running by itself.
    pub auto_run: bool,
}

/// The content of a [`PlanNode`].
#[verifier::ext_equal]
pub struct PlanNodeView {
    pub parent: PlanParent,
    pub class_name: Text,
    pub name: Text,
    pub source: Option<Text>,
    pub value: Option<Seq<u8>>,
    pub script_path: Option<Text>,
    pub auto_run: bool,
}

impl View for PlanNode {
    type V = PlanNodeView;

    open spec fn view(&self) -> PlanNodeView {
        PlanNodeView {
            parent: self.parent,
            class_name: self.class_name@,
            name: self.name@,
            source: text::opt_view(self.source),
            value: text::opt_view(self.value),
            script_path: text::opt_view(self.script_path),
            auto_run: self.auto_run,
        }
    }
}

/// A plan: instances to be made, and what stops it after them where something does.
#[derive(Debug)]
pub struct Plan {
    pub nodes: Vec<PlanNode>,
    pub stop: Option<String>,
}

/// The content of a [`Plan`].
#[verifier::ext_equal]
pub struct PlanView {
    pub nodes: Seq<PlanNodeView>,
    pub stop: Option<Text>,
}

impl View for Plan {
    type V = PlanView;

    open spec fn view(&self) -> PlanView {
        PlanView { nodes: text::views(self.nodes@), stop: text::opt_view(self.stop) }
    }
}

/// The instance that a node becomes.
pub open spec fn planned(node: NodeView, parent: PlanParent) -> PlanNodeView {
    PlanNodeView {
        parent,
        class_name: node.class_name,
        name: node.name,
        source: node.source,
        value: node.value,
        script_path: match node.script_path {
            Some(path) => Some(path::normalized(path)),
            None => None,
        },
        auto_run: node.auto_run,
    }
}

/// The instances that a node and everything below it become, where `base` instances are made before
/// them.
pub open spec fn plan_node(node: NodeView, parent: PlanParent, base: nat) -> Seq<PlanNodeView>
    decreases node, 1nat,
{
    seq![planned(node, parent)] + plan_list(
        node.children,
        PlanParent::Made(base as usize),
        base + 1,
    )
}

/// The instances that nodes and everything below them become.
pub open spec fn plan_list(nodes: Seq<NodeView>, parent: PlanParent, base: nat) -> Seq<PlanNodeView>
    decreases nodes, 0nat,
{
    if nodes.len() == 0 {
        Seq::empty()
    } else {
        let before = plan_list(nodes.drop_last(), parent, base);
        before + plan_node(nodes.last(), parent, base + before.len())
    }
}

/// The plan for the given mounts. What goes into services that cannot be seen is left out; a service
/// that there is not stops the plan.
pub open spec fn plan_of(rt: RuntimeView, mounts: Seq<MountView>) -> PlanView
    decreases mounts.len(),
{
    if mounts.len() == 0 {
        PlanView { nodes: Seq::empty(), stop: None }
    } else {
        let before = plan_of(rt, mounts.drop_last());
        if before.stop is Some {
            before
        } else {
            match mounts.last() {
                MountView::DataModelChild(node) => PlanView {
                    nodes: before.nodes + plan_node(
                        node,
                        PlanParent::Existing(rt.data_model),
                        before.nodes.len(),
                    ),
                    stop: None,
                },
                MountView::ServiceContents { service_name, children } => if !runtime::visible(
                    rt.mode,
                    service_name,
                ) {
                    before
                } else {
                    match runtime::service_named(rt, service_name) {
                        Ok(service) => PlanView {
                            nodes: before.nodes + plan_list(
                                children,
                                PlanParent::Existing(service),
                                before.nodes.len(),
                            ),
                            stop: None,
                        },
                        Err(message) => PlanView { nodes: before.nodes, stop: Some(message) },
                    }
                },
            }
        }
    }
}

/// Whether an instance can go where it is to go: below one of the first `n` instances or below one
/// that one of the first `k` steps makes.
pub open spec fn parent_ok(parent: PlanParent, n: nat, k: int) -> bool {
    match parent {
        PlanParent::Existing(i) => i < n,
        PlanParent::Made(j) => j < k,
    }
}

/// Whether all instances of a plan can go where they are to go.
pub open spec fn plan_ok(nodes: Seq<PlanNodeView>, n: nat) -> bool {
    forall|k: int| 0 <= k < nodes.len() ==> parent_ok((#[trigger] nodes[k]).parent, n, k)
}

/// Adds the instances that a node and everything below it become.
fn add_node(out: &mut Vec<PlanNode>, node: &ProjectNode, parent: PlanParent, Ghost(n): Ghost<nat>)
    requires
        old(out)@.len() + rbxlx::node_count(node@) <= usize::MAX,
        plan_ok(text::views(old(out)@), n),
        parent_ok(parent, n, old(out)@.len() as int),
    ensures
        plan_ok(text::views(final(out)@), n),
        text::views(final(out)@) == text::views(old(out)@) + plan_node(node@, parent, old(out)@.len()),
        final(out)@.len() == old(out)@.len() + rbxlx::node_count(node@),
    decreases node,
{
    let ghost start = out@;
    let base: usize = out.len();
    proof {
        project::lemma_node_children(*node);
    }
    let ghost kids = text::views(node.children@);
    let value = match &node.value {
        Some(bytes) => Some(copy_bytes(bytes.as_slice())),
        None => None,
    };
    let script_path = match &node.script_path {
        Some(path) => Some(normalize_rel_path(path.as_str())),
        None => None,
    };
    let made = PlanNode {
        parent,
        class_name: node.class_name.as_str().to_owned(),
        name: node.name.as_str().to_owned(),
        source: copy_opt_text(&node.source),
        value,
        script_path,
        auto_run: node.auto_run,
    };
    assert(made@ =~= planned(node@, parent));
    out.push(made);
    assert forall|k: int| 0 <= k < out@.len() implies parent_ok(
        (#[trigger] text::views(out@)[k]).parent,
        n,
        k,
    ) by {
        if k < start.len() {
            assert(text::views(out@)[k] == text::views(start)[k]);
        }
    }
    let below = PlanParent::Made(base);
    let ghost first = text::views(start) + seq![planned(node@, parent)];
    let mut i: usize = 0;
    proof {
        text::lemma_views_push(start, made);
        assert(text::views(out@) =~= first);
        assert(kids.take(0) =~= Seq::empty());
        assert(first + plan_list(kids.take(0), below, (base + 1) as nat) =~= first);
    }
    while i < node.children.len()
        invariant
            i <= node.children@.len(),
            kids == text::views(node.children@),
            base + 1 + rbxlx::nodes_count(kids) <= usize::MAX,
            plan_ok(text::views(out@), n),
            below == PlanParent::Made(base),
            out@.len() == base + 1 + rbxlx::nodes_count(kids.take(i as int)),
            plan_list(kids.take(i as int), below, (base + 1) as nat).len() == rbxlx::nodes_count(
                kids.take(i as int),
            ),
            text::views(out@) == first + plan_list(kids.take(i as int), below, (base + 1) as nat),
        decreases node.children@.len() - i,
    {
        let ghost done = plan_list(kids.take(i as int), below, (base + 1) as nat);
        let ghost at = out@.len();
        proof {
            assert(kids.take(i + 1).drop_last() =~= kids.take(i as int));
            assert(kids.take(i + 1).last() == node.children@[i as int]@);
            lemma_count_take(kids, i + 1);
            assert(decreases_to!(node => node.children@[i as int]));
        }
        add_node(out, &node.children[i], below, Ghost(n));
        proof {
            let one = plan_node(node.children@[i as int]@, below, at);
            assert(text::views(out@) =~= first + (done + one));
            assert(plan_list(kids.take(i + 1), below, (base + 1) as nat) == done + one);
            lemma_plan_count(node.children@[i as int]@, below, at);
        }
        i += 1;
    }
    proof {
        assert(kids.take(i as int) =~= kids);
        let rest = plan_list(kids, below, (base + 1) as nat);
        assert(text::views(out@) =~= text::views(start) + (seq![planned(node@, parent)] + rest));
    }
}

proof fn lemma_count_take(nodes: Seq<NodeView>, k: int)
    requires
        0 <= k <= nodes.len(),
    ensures
        rbxlx::nodes_count(nodes.take(k)) <= rbxlx::nodes_count(nodes),
    decreases nodes.len() - k,
{
    if k == nodes.len() {
        assert(nodes.take(k) =~= nodes);
    } else {
        lemma_count_take(nodes, k + 1);
        assert(nodes.take(k + 1).drop_last() =~= nodes.take(k));
    }
}

/// A node and everything below it become as many instances as there are nodes.
pub proof fn lemma_plan_count(node: NodeView, parent: PlanParent, base: nat)
    ensures
        plan_node(node, parent, base).len() == rbxlx::node_count(node),
    decreases node, 1nat,
{
    lemma_plan_list_count(node.children, PlanParent::Made(base as usize), base + 1);
}

/// Nodes and everything below them become as many instances as there are nodes.
pub proof fn lemma_plan_list_count(nodes: Seq<NodeView>, parent: PlanParent, base: nat)
    ensures
        plan_list(nodes, parent, base).len() == rbxlx::nodes_count(nodes),
    decreases nodes, 0nat,
{
    if nodes.len() > 0 {
        lemma_plan_list_count(nodes.drop_last(), parent, base);
        lemma_plan_count(
            nodes.last(),
            parent,
            base + plan_list(nodes.drop_last(), parent, base).len(),
        );
    }
}

/// Adds the instances that nodes and everything below them become.
fn add_list(
    out: &mut Vec<PlanNode>,
    nodes: &Vec<ProjectNode>,
    parent: PlanParent,
    Ghost(n): Ghost<nat>,
)
    requires
        old(out)@.len() + rbxlx::nodes_count(text::views(nodes@)) <= usize::MAX,
        plan_ok(text::views(old(out)@), n),
        parent_ok(parent, n, old(out)@.len() as int),
    ensures
        plan_ok(text::views(final(out)@), n),
        text::views(final(out)@) == text::views(old(out)@) + plan_list(
            text::views(nodes@),
            parent,
            old(out)@.len(),
        ),
        final(out)@.len() == old(out)@.len() + rbxlx::nodes_count(text::views(nodes@)),
{
    let ghost first = text::views(out@);
    let ghost base = out@.len();
    let ghost all = text::views(nodes@);
    let mut i: usize = 0;
    proof {
        assert(all.take(0) =~= Seq::empty());
        assert(first + plan_list(all.take(0), parent, base) =~= first);
    }
    while i < nodes.len()
        invariant
            i <= nodes@.len(),
            all == text::views(nodes@),
            base + rbxlx::nodes_count(all) <= usize::MAX,
            plan_ok(text::views(out@), n),
            parent_ok(parent, n, base as int),
            out@.len() == base + rbxlx::nodes_count(all.take(i as int)),
            text::views(out@) == first + plan_list(all.take(i as int), parent, base),
        decreases nodes@.len() - i,
    {
        let ghost done = plan_list(all.take(i as int), parent, base);
        let ghost at = out@.len();
        proof {
            assert(all.take(i + 1).drop_last() =~= all.take(i as int));
            assert(all.take(i + 1).last() == nodes@[i as int]@);
            lemma_count_take(all, i + 1);
            lemma_plan_list_count(all.take(i as int), parent, base);
        }
        add_node(out, &nodes[i], parent, Ghost(n));
        proof {
            let one = plan_node(nodes@[i as int]@, parent, at);
            assert(text::views(out@) =~= first + (done + one));
        }
        i += 1;
    }
    assert(all.take(i as int) =~= all);
}

/// How many instances the given mounts describe.
pub open spec fn mount_nodes(mounts: Seq<MountView>) -> nat
    decreases mounts.len(),
{
    if mounts.len() == 0 {
        0
    } else {
        mount_nodes(mounts.drop_last()) + rbxlx::nodes_count(rbxlx::model_part(mounts.last()))
    }
}

proof fn lemma_mount_nodes_take(mounts: Seq<MountView>, k: int)
    requires
        0 <= k <= mounts.len(),
    ensures
        mount_nodes(mounts.take(k)) <= mount_nodes(mounts),
    decreases mounts.len() - k,
{
    if k == mounts.len() {
        assert(mounts.take(k) =~= mounts);
    } else {
        lemma_mount_nodes_take(mounts, k + 1);
        assert(mounts.take(k + 1).drop_last() =~= mounts.take(k));
    }
}

proof fn lemma_stopped(rt: RuntimeView, mounts: Seq<MountView>, k: int)
    requires
        0 <= k <= mounts.len(),
        plan_of(rt, mounts.take(k)).stop is Some,
    ensures
        plan_of(rt, mounts) == plan_of(rt, mounts.take(k)),
    decreases mounts.len() - k,
{
    if k == mounts.len() {
        assert(mounts.take(k) =~= mounts);
    } else {
        assert(mounts.take(k + 1).drop_last() =~= mounts.take(k));
        lemma_stopped(rt, mounts, k + 1);
    }
}

/// The plan for a layout.
pub fn plan_layout(runtime: &Runtime, layout: &ProjectLayout) -> (r: Plan)
    requires
        runtime@.wf(),
        mount_nodes(layout@) <= usize::MAX,
    ensures
        plan_ok(r@.nodes, runtime@.instances.len()),
        r@ == plan_of(runtime@, layout@),
        r@.nodes.len() <= mount_nodes(layout@),
{
    let ghost all = layout@;
    let ghost rt = runtime@;
    let mut nodes: Vec<PlanNode> = Vec::new();
    let mut i: usize = 0;
    proof {
        assert(all.take(0) =~= Seq::empty());
        assert(text::views(nodes@) =~= Seq::empty());
    }
    while i < layout.top_level.len()
        invariant
            i <= layout.top_level@.len(),
            all == layout@,
            rt == runtime@,
            mount_nodes(all) <= usize::MAX,
            nodes@.len() <= mount_nodes(all.take(i as int)),
            rt.wf(),
            plan_ok(text::views(nodes@), rt.instances.len()),
            plan_of(rt, all.take(i as int)) == (PlanView { nodes: text::views(nodes@), stop: None }),
        decreases layout.top_level@.len() - i,
    {
        let ghost mount = all[i as int];
        proof {
            assert(all.take(i + 1).drop_last() =~= all.take(i as int));
            assert(all.take(i + 1).last() == mount);
            lemma_mount_nodes_take(all, i + 1);
        }
        match &layout.top_level[i] {
            ProjectMount::DataModelChild(node) => {
                proof {
                    lemma_one_count(node@);
                }
                add_node(
                    &mut nodes,
                    node,
                    PlanParent::Existing(runtime.data_model()),
                    Ghost(rt.instances.len()),
                );
            },
            ProjectMount::ServiceContents { service_name, children } => {
                if runtime.is_service_visible(service_name.as_str()) {
                    match runtime.get_service(service_name.as_str()) {
                        Ok(service) => {
                            add_list(
                                &mut nodes,
                                children,
                                PlanParent::Existing(service),
                                Ghost(rt.instances.len()),
                            );
                        },
                        Err(error) => {
                            proof {
                                lemma_stopped(rt, all, i + 1);
                                lemma_mount_nodes_take(all, i as int);
                            }
                            return Plan { nodes, stop: Some(error.message()) };
                        },
                    }
                }
            },
        }
        i += 1;
    }
    assert(all.take(i as int) =~= all);
    Plan { nodes, stop: None }
}

proof fn lemma_one_count(node: NodeView)
    ensures
        rbxlx::nodes_count(seq![node]) == rbxlx::node_count(node),
{
    assert(seq![node].drop_last() =~= Seq::empty());
    reveal_with_fuel(rbxlx::nodes_count, 2);
}

// ---------------------------------------------------------------------------------------------
// Carrying out the plan
// ---------------------------------------------------------------------------------------------

/// How far the making of an instance has come.
#[derive(Clone, Copy, Debug, PartialEq, Eq, Structural)]
pub enum LoadStage {
    /// The instance is made and named.
    Create,
    /// Next is the signal for changes of its name.
    NameOwn,
    /// It gets its source code.
    Source,
    /// Next is the signal for changes of its source code.
    SourceOwn,
    /// It gets its value.
    Value,
    /// Next is the signal for changes of its value.
    ValueOwn,
    /// It is put into the tree.
    Move,
    /// It is marked as known to the server.
    Finish,
}

/// A plan that is carried out.
#[derive(Debug)]
pub struct Loader {
    plan: Plan,
    at: usize,
    made: Vec<usize>,
    auto_run: Vec<usize>,
    stage: LoadStage,
}

/// The content of a [`Loader`].
#[verifier::ext_equal]
pub struct LoaderView {
    pub plan: PlanView,
    /// The step of the plan that is next or under way.
    pub at: nat,
    /// The instances that have been made.
    pub made: Seq<usize>,
    /// Those among them that are scripts to be run.
    pub auto_run: Seq<usize>,
    pub stage: LoadStage,
}

impl View for Loader {
    type V = LoaderView;

    closed spec fn view(&self) -> LoaderView {
        LoaderView {
            plan: self.plan@,
            at: self.at as nat,
            made: self.made@,
            auto_run: self.auto_run@,
            stage: self.stage,
        }
    }
}

/// What a step asks for.
#[derive(Debug)]
pub enum LoadAction {
    /// Warnings are shown and signals fire.
    Report { warnings: Vec<String>, firings: Vec<Firing> },
    /// An instance gets a parent.
    Move { child: usize, parent: usize },
    /// The plan is carried out.
    Done,
    /// It cannot be carried out further. Warnings are shown first.
    Fail { warnings: Vec<String>, error: Error },
}

/// The content of a [`LoadAction`].
#[verifier::ext_equal]
pub enum ActionView {
    Report { warnings: Seq<Text>, firings: Seq<FiringView> },
    Move { child: usize, parent: usize },
    Done,
    Fail { warnings: Seq<Text>, error: Text },
}

impl View for LoadAction {
    type V = ActionView;

    open spec fn view(&self) -> ActionView {
        match self {
            LoadAction::Report { warnings, firings } => ActionView::Report {
                warnings: text::views(warnings@),
                firings: text::views(firings@),
            },
            LoadAction::Move { child, parent } => ActionView::Move {
                child: *child,
                parent: *parent,
            },
            LoadAction::Done => ActionView::Done,
            LoadAction::Fail { warnings, error } => ActionView::Fail {
                warnings: text::views(warnings@),
                error: error@,
            },
        }
    }
}

impl LoaderView {
    /// Whether the loader speaks of the first `n` instances only.
    pub open spec fn within(&self, n: nat) -> bool {
        &&& plan_ok(self.plan.nodes, n)
        &&& moves::all_below(self.made, n)
        &&& if self.stage == LoadStage::Create {
            self.made.len() == self.at && self.at <= self.plan.nodes.len()
        } else {
            self.made.len() == self.at + 1 && self.at < self.plan.nodes.len()
        }
    }

    /// The instance that goes above the one that is being made.
    pub open spec fn parent(&self) -> usize {
        match self.plan.nodes[self.at as int].parent {
            PlanParent::Existing(i) => i,
            PlanParent::Made(k) => self.made[k as int],
        }
    }
}

/// What a step does.
pub struct LoadStepView {
    pub rt: RuntimeView,
    pub loader: LoaderView,
    pub action: ActionView,
}

/// A step that sets a property of the instance that is being made.
pub open spec fn load_property(
    rt: RuntimeView,
    loader: LoaderView,
    name: Text,
    value: ValueView,
    own: LoadStage,
    next: LoadStage,
) -> LoadStepView {
    let i = loader.made.last();
    let outcome = runtime::set_property_outcome(rt, i, name, value);
    match outcome.2 {
        Err(error) => LoadStepView {
            rt: outcome.0,
            loader,
            action: ActionView::Fail { warnings: outcome.1, error },
        },
        Ok(true) => LoadStepView {
            rt: outcome.0,
            loader: LoaderView { stage: own, ..loader },
            action: ActionView::Report {
                warnings: outcome.1,
                firings: runtime::event_firing(outcome.0, i, "Changed"@, seq![ArgView::String(name)]),
            },
        },
        Ok(false) => LoadStepView {
            rt: outcome.0,
            loader: LoaderView { stage: next, ..loader },
            action: ActionView::Report { warnings: outcome.1, firings: Seq::empty() },
        },
    }
}

/// A step that fires the signal for changes of a property.
pub open spec fn load_own(
    rt: RuntimeView,
    loader: LoaderView,
    name: Text,
    next: LoadStage,
) -> LoadStepView {
    LoadStepView {
        rt,
        loader: LoaderView { stage: next, ..loader },
        action: ActionView::Report {
            warnings: Seq::empty(),
            firings: runtime::own_firing(rt, loader.made.last(), name),
        },
    }
}

/// A step that has nothing to do.
pub open spec fn load_skip(rt: RuntimeView, loader: LoaderView, next: LoadStage) -> LoadStepView {
    LoadStepView {
        rt,
        loader: LoaderView { stage: next, ..loader },
        action: ActionView::Report { warnings: Seq::empty(), firings: Seq::empty() },
    }
}

/// One step of carrying out a plan.
#[verifier::opaque]
pub open spec fn load_step(rt: RuntimeView, loader: LoaderView) -> LoadStepView {
    let node = loader.plan.nodes[loader.at as int];
    match loader.stage {
        LoadStage::Create => if loader.at >= loader.plan.nodes.len() {
            LoadStepView {
                rt,
                loader,
                action: match loader.plan.stop {
                    Some(error) => ActionView::Fail { warnings: Seq::empty(), error },
                    None => ActionView::Done,
                },
            }
        } else {
            load_property(
                runtime::with_new(rt, runtime::made_instance(rt, node.class_name)),
                LoaderView { made: loader.made.push(rt.instances.len() as usize), ..loader },
                "Name"@,
                ValueView::String(node.name),
                LoadStage::NameOwn,
                LoadStage::Source,
            )
        },
        LoadStage::NameOwn => load_own(rt, loader, "Name"@, LoadStage::Source),
        LoadStage::Source => match node.source {
            Some(source) => load_property(
                rt,
                loader,
                "Source"@,
                ValueView::String(source),
                LoadStage::SourceOwn,
                LoadStage::Value,
            ),
            None => load_skip(rt, loader, LoadStage::Value),
        },
        LoadStage::SourceOwn => load_own(rt, loader, "Source"@, LoadStage::Value),
        LoadStage::Value => match node.value {
            Some(bytes) => load_property(
                rt,
                loader,
                "Value"@,
                ValueView::BinaryString(bytes),
                LoadStage::ValueOwn,
                LoadStage::Move,
            ),
            None => load_skip(rt, loader, LoadStage::Move),
        },
        LoadStage::ValueOwn => load_own(rt, loader, "Value"@, LoadStage::Move),
        LoadStage::Move => {
            let i = loader.made.last();
            LoadStepView {
                rt: runtime::with_instance(
                    rt,
                    i,
                    InstanceView { script_path: node.script_path, ..rt.instances[i as int] },
                ),
                loader: LoaderView { stage: LoadStage::Finish, ..loader },
                action: ActionView::Move { child: i, parent: loader.parent() },
            }
        },
        LoadStage::Finish => {
            let i = loader.made.last();
            LoadStepView {
                rt: runtime::with_authority(rt, i, false),
                loader: LoaderView {
                    at: loader.at + 1,
                    auto_run: if node.auto_run && lua_api::auto_runs(rt.mode, node.class_name) {
                        loader.auto_run.push(i)
                    } else {
                        loader.auto_run
                    },
                    stage: LoadStage::Create,
                    ..loader
                },
                action: ActionView::Report { warnings: Seq::empty(), firings: Seq::empty() },
            }
        },
    }
}

/// A plan of which nothing has been carried out.
pub open spec fn new_loader(plan: PlanView) -> LoaderView {
    LoaderView {
        plan,
        at: 0,
        made: Seq::empty(),
        auto_run: Seq::empty(),
        stage: LoadStage::Create,
    }
}

fn nothing_to_report() -> (r: LoadAction)
    ensures
        r@ == (ActionView::Report { warnings: Seq::empty(), firings: Seq::empty() }),
{
    let warnings: Vec<String> = Vec::new();
    let firings: Vec<Firing> = Vec::new();
    assert(text::views(warnings@) =~= Seq::empty());
    assert(text::views(firings@) =~= Seq::empty());
    LoadAction::Report { warnings, firings }
}

impl Loader {
    /// A plan of which nothing has been carried out.
    pub fn new(plan: Plan) -> (r: Loader)
        ensures
            r@ == new_loader(plan@),
    {
        Loader {
            plan,
            at: 0,
            made: Vec::new(),
            auto_run: Vec::new(),
            stage: LoadStage::Create,
        }
    }

    /// The scripts to be run, in the order in which they were made.
    pub fn auto_run(&self) -> (r: &Vec<usize>)
        ensures
            r@ == self@.auto_run,
    {
        &self.auto_run
    }

    /// How many instances are yet to be made.
    pub fn left(&self) -> (r: usize)
        requires
            self@.at <= self@.plan.nodes.len(),
        ensures
            r == self@.plan.nodes.len() - self@.at,
    {
        self.plan.nodes.len() - self.at
    }

    /// Sets a property of the instance that is being made.
    fn property_step(
        &mut self,
        runtime: &mut Runtime,
        name: &str,
        value: PropertyValue,
        own: LoadStage,
        next: LoadStage,
    ) -> (r: LoadAction)
        requires
            old(runtime)@.wf(),
            old(self)@.made.len() > 0,
            old(self)@.made.last() < old(runtime)@.instances.len(),
        ensures
            final(runtime)@.wf(),
            final(runtime)@.instances.len() == old(runtime)@.instances.len(),
            ({
                let step = load_property(
                    old(runtime)@,
                    old(self)@,
                    name@,
                    value@,
                    own,
                    next,
                );
                &&& final(runtime)@ == step.rt
                &&& final(self)@ == step.loader
                &&& r@ == step.action
            }),
    {
        let i: usize = self.made[self.made.len() - 1];
        let outcome = runtime.store_property(i, name, value);
        match outcome.result {
            Ok(changed) => {
                let firings = if changed {
                    self.stage = own;
                    runtime.changed_firing(i, name)
                } else {
                    self.stage = next;
                    let firings: Vec<Firing> = Vec::new();
                    assert(text::views(firings@) =~= Seq::empty());
                    firings
                };
                LoadAction::Report { warnings: outcome.warnings, firings }
            },
            Err(error) => LoadAction::Fail { warnings: outcome.warnings, error },
        }
    }

    /// Fires the signal for changes of a property.
    fn own_step(&mut self, runtime: &Runtime, name: &str, next: LoadStage) -> (r: LoadAction)
        requires
            old(self)@.made.len() > 0,
            old(self)@.made.last() < runtime@.instances.len(),
        ensures
            final(self)@ == load_own(runtime@, old(self)@, name@, next).loader,
            r@ == load_own(runtime@, old(self)@, name@, next).action,
    {
        let i: usize = self.made[self.made.len() - 1];
        let firings = runtime.own_firing(i, name);
        self.stage = next;
        let warnings: Vec<String> = Vec::new();
        assert(text::views(warnings@) =~= Seq::empty());
        LoadAction::Report { warnings, firings }
    }

    /// Takes one step. What the result asks for is done before the next step is taken.
    pub fn step(&mut self, runtime: &mut Runtime) -> (r: LoadAction)
        requires
            old(runtime)@.wf(),
            old(self)@.within(old(runtime)@.instances.len()),
            old(runtime)@.next_id < u64::MAX,
            old(runtime)@.instances.len() < usize::MAX,
        ensures
            final(runtime)@.wf(),
            final(runtime)@.instances.len() >= old(runtime)@.instances.len(),
            r@ is Fail || final(self)@.within(final(runtime)@.instances.len()),
            ({
                let step = load_step(old(runtime)@, old(self)@);
                &&& final(runtime)@ == step.rt
                &&& final(self)@ == step.loader
                &&& r@ == step.action
            }),
    {
        let ghost rt = runtime@;
        let ghost loader = self@;
        let ghost n = rt.instances.len();
        proof {
            reveal(load_step);
        }
        match self.stage {
            LoadStage::Create => {
                if self.at >= self.plan.nodes.len() {
                    return match &self.plan.stop {
                        Some(message) => {
                            let warnings: Vec<String> = Vec::new();
                            assert(text::views(warnings@) =~= Seq::empty());
                            LoadAction::Fail { warnings, error: failure(message.as_str()) }
                        },
                        None => LoadAction::Done,
                    };
                }
                let i = runtime.create_instance(self.plan.nodes[self.at].class_name.as_str());
                self.made.push(i);
                let name = self.plan.nodes[self.at].name.as_str().to_owned();
                proof {
                    assert(loader.plan.nodes[loader.at as int] == self.plan.nodes@[self.at as int]@);
                    assert(self@.made =~= loader.made.push(i));
                    let more = loader.made.push(i);
                    assert forall|k: int| 0 <= k < more.len() implies #[trigger] more[k]
                        < n + 1 by {
                        if k < loader.made.len() {
                            assert(more[k] == loader.made[k]);
                        }
                    }
                    assert forall|k: int| 0 <= k < loader.plan.nodes.len() implies parent_ok(
                        (#[trigger] loader.plan.nodes[k]).parent,
                        n + 1,
                        k,
                    ) by {}
                }
                self.property_step(
                    runtime,
                    "Name",
                    PropertyValue::String(name),
                    LoadStage::NameOwn,
                    LoadStage::Source,
                )
            },
            LoadStage::NameOwn => self.own_step(runtime, "Name", LoadStage::Source),
            LoadStage::Source => {
                let ghost node = loader.plan.nodes[loader.at as int];
                assert(node == self.plan.nodes@[self.at as int]@);
                let source = copy_opt_text(&self.plan.nodes[self.at].source);
                match source {
                    Some(source) => self.property_step(
                        runtime,
                        "Source",
                        PropertyValue::String(source),
                        LoadStage::SourceOwn,
                        LoadStage::Value,
                    ),
                    None => {
                        self.stage = LoadStage::Value;
                        nothing_to_report()
                    },
                }
            },
            LoadStage::SourceOwn => self.own_step(runtime, "Source", LoadStage::Value),
            LoadStage::Value => {
                let ghost node = loader.plan.nodes[loader.at as int];
                assert(node == self.plan.nodes@[self.at as int]@);
                let bytes = match &self.plan.nodes[self.at].value {
                    Some(bytes) => Some(copy_bytes(bytes.as_slice())),
                    None => None,
                };
                match bytes {
                    Some(bytes) => self.property_step(
                        runtime,
                        "Value",
                        PropertyValue::BinaryString(bytes),
                        LoadStage::ValueOwn,
                        LoadStage::Move,
                    ),
                    None => {
                        self.stage = LoadStage::Move;
                        nothing_to_report()
                    },
                }
            },
            LoadStage::ValueOwn => self.own_step(runtime, "Value", LoadStage::Move),
            LoadStage::Move => {
                let i: usize = self.made[self.at];
                assert(loader.made.last() == i);
                assert(loader.plan.nodes[loader.at as int] == self.plan.nodes@[self.at as int]@);
                assert(parent_ok(loader.plan.nodes[loader.at as int].parent, n, loader.at as int));
                let path = copy_opt_text(&self.plan.nodes[self.at].script_path);
                runtime.set_script_path(i, path);
                let parent: usize = match self.plan.nodes[self.at].parent {
                    PlanParent::Existing(parent) => parent,
                    PlanParent::Made(k) => self.made[k],
                };
                self.stage = LoadStage::Finish;
                LoadAction::Move { child: i, parent }
            },
            LoadStage::Finish => {
                let i: usize = self.made[self.at];
                assert(loader.made.last() == i);
                assert(loader.plan.nodes[loader.at as int] == self.plan.nodes@[self.at as int]@);
                runtime.mark_replicated_instance(i);
                if self.plan.nodes[self.at].auto_run && should_auto_run_class(
                    runtime.mode(),
                    self.plan.nodes[self.at].class_name.as_str(),
                ) {
                    self.auto_run.push(i);
                }
                let total: usize = self.plan.nodes.len();
                assert(self.at < total);
                self.at += 1;
                self.stage = LoadStage::Create;
                nothing_to_report()
            },
        }
    }
}

// ---------------------------------------------------------------------------------------------
// Loading at once
// ---------------------------------------------------------------------------------------------

/// What comes of carrying out a plan where nothing intervenes.
#[verifier::ext_equal]
pub struct LoadEnd {
    pub rt: RuntimeView,
    pub auto_run: Seq<usize>,
    pub warnings: Seq<Text>,
    pub firings: Seq<FiringView>,
    pub error: Option<Text>,
}

/// The stages that are left of the making of an instance.
pub open spec fn stage_number(stage: LoadStage) -> nat {
    match stage {
        LoadStage::Create => 7,
        LoadStage::NameOwn => 6,
        LoadStage::Source => 5,
        LoadStage::SourceOwn => 4,
        LoadStage::Value => 3,
        LoadStage::ValueOwn => 2,
        LoadStage::Move => 1,
        LoadStage::Finish => 0,
    }
}

/// What comes of carrying out the rest of a plan where nothing intervenes.
#[verifier::opaque]
pub open spec fn load_rest(rt: RuntimeView, loader: LoaderView) -> LoadEnd
    decreases loader.plan.nodes.len() - loader.at, stage_number(loader.stage),
{
    proof {
        reveal(load_step);
    }
    let step = load_step(rt, loader);
    match step.action {
        ActionView::Done => LoadEnd {
            rt: step.rt,
            auto_run: step.loader.auto_run,
            warnings: Seq::empty(),
            firings: Seq::empty(),
            error: None,
        },
        ActionView::Fail { warnings, error } => LoadEnd {
            rt: step.rt,
            auto_run: step.loader.auto_run,
            warnings,
            firings: Seq::empty(),
            error: Some(error),
        },
        ActionView::Report { warnings, firings } => if loader.at < loader.plan.nodes.len() {
            let rest = load_rest(step.rt, step.loader);
            LoadEnd {
                warnings: warnings + rest.warnings,
                firings: firings + rest.firings,
                ..rest
            }
        } else {
            arbitrary()
        },
        ActionView::Move { child, parent } => if loader.at < loader.plan.nodes.len() {
            let moved = moves::set_parent_outcome(step.rt, child, Some(parent));
            match moved.1 {
                Ok(firings) => {
                    let rest = load_rest(moved.0, step.loader);
                    LoadEnd { firings: firings + rest.firings, ..rest }
                },
                Err(message) => LoadEnd {
                    rt: moved.0,
                    auto_run: step.loader.auto_run,
                    warnings: Seq::empty(),
                    firings: Seq::empty(),
                    error: Some(message),
                },
            }
        } else {
            arbitrary()
        },
    }
}

/// The end that a step leads to.
pub open spec fn end_after(step: LoadStepView) -> LoadEnd {
    match step.action {
        ActionView::Done => LoadEnd {
            rt: step.rt,
            auto_run: step.loader.auto_run,
            warnings: Seq::empty(),
            firings: Seq::empty(),
            error: None,
        },
        ActionView::Fail { warnings, error } => LoadEnd {
            rt: step.rt,
            auto_run: step.loader.auto_run,
            warnings,
            firings: Seq::empty(),
            error: Some(error),
        },
        ActionView::Report { warnings, firings } => {
            let rest = load_rest(step.rt, step.loader);
            LoadEnd {
                warnings: warnings + rest.warnings,
                firings: firings + rest.firings,
                ..rest
            }
        },
        ActionView::Move { child, parent } => {
            let moved = moves::set_parent_outcome(step.rt, child, Some(parent));
            match moved.1 {
                Ok(firings) => {
                    let rest = load_rest(moved.0, step.loader);
                    LoadEnd { firings: firings + rest.firings, ..rest }
                },
                Err(message) => LoadEnd {
                    rt: moved.0,
                    auto_run: step.loader.auto_run,
                    warnings: Seq::empty(),
                    firings: Seq::empty(),
                    error: Some(message),
                },
            }
        },
    }
}

proof fn lemma_load_step(rt: RuntimeView, loader: LoaderView)
    requires
        rt.wf(),
        loader.within(rt.instances.len()),
        rt.next_id < u64::MAX,
    ensures
        ({
            let step = load_step(rt, loader);
            let n = loader.plan.nodes.len();
            &&& step.loader.plan == loader.plan
            &&& step.action is Report || step.action is Move ==> loader.at < n
            &&& loader.at <= step.loader.at <= n
            &&& step.rt.next_id - rt.next_id == step.loader.made.len() - loader.made.len()
            &&& step.rt.instances.len() - rt.instances.len() == step.loader.made.len()
                - loader.made.len()
            &&& step.loader.made.len() <= n
            &&& step.action is Report || step.action is Move ==> step.loader.at > loader.at || (
            step.loader.at == loader.at && stage_number(step.loader.stage) < stage_number(
                loader.stage,
            ))
            &&& step.action matches ActionView::Move { child, parent } ==> child
                < rt.instances.len() && parent < rt.instances.len()
        }),
{
    reveal(load_step);
    if loader.stage == LoadStage::Move {
        assert(parent_ok(
            loader.plan.nodes[loader.at as int].parent,
            rt.instances.len(),
            loader.at as int,
        ));
    }
}

/// What comes of the rest is what the next step leads to.
pub proof fn lemma_rest_unfold(rt: RuntimeView, loader: LoaderView)
    requires
        ({
            let step = load_step(rt, loader);
            step.action is Report || step.action is Move ==> loader.at < loader.plan.nodes.len()
        }),
    ensures
        load_rest(rt, loader) == end_after(load_step(rt, loader)),
{
    reveal(load_rest);
}

proof fn lemma_set_parent_counts(rt: RuntimeView, child: usize, parent: Option<usize>)
    ensures
        moves::set_parent_outcome(rt, child, parent).0.next_id == rt.next_id,
{
}

/// What comes of building what a layout describes.
#[derive(Debug)]
pub struct LoadReport {
    pub auto_run: Vec<usize>,
    pub warnings: Vec<String>,
    pub firings: Vec<Firing>,
    pub result: Result<(), Error>,
}

/// An outcome without a value as the error it may be.
pub open spec fn error_of(r: Result<(), Error>) -> Option<Text> {
    match r {
        Ok(()) => None,
        Err(error) => Some(error@),
    }
}

/// Builds what a layout describes, where nothing intervenes.
pub fn instantiate_layout(runtime: &mut Runtime, layout: &ProjectLayout) -> (r: LoadReport)
    requires
        old(runtime)@.wf(),
        old(runtime)@.next_id + mount_nodes(layout@) < u64::MAX,
        old(runtime)@.instances.len() + mount_nodes(layout@) < usize::MAX,
    ensures
        final(runtime)@.wf(),
        ({
            let end = load_rest(old(runtime)@, new_loader(plan_of(old(runtime)@, layout@)));
            &&& final(runtime)@ == end.rt
            &&& r.auto_run@ == end.auto_run
            &&& text::views(r.warnings@) == end.warnings
            &&& text::views(r.firings@) == end.firings
            &&& error_of(r.result) == end.error
        }),
{
    let ghost start = runtime@;
    let plan = plan_layout(runtime, layout);
    let ghost count = plan@.nodes.len();
    let ghost total = load_rest(start, new_loader(plan@));
    let mut loader = Loader::new(plan);
    let mut warnings: Vec<String> = Vec::new();
    let mut firings: Vec<Firing> = Vec::new();
    let mut result: Result<(), Error> = Ok(());
    let mut done = false;
    proof {
        assert(text::views(warnings@) + total.warnings =~= total.warnings);
        assert(text::views(firings@) + total.firings =~= total.firings);
    }
    while !done
        invariant
            runtime@.wf(),
            loader@.plan.nodes.len() == count,
            loader@.at <= count,
            !done ==> loader@.within(runtime@.instances.len()),
            runtime@.next_id + (count - loader@.made.len()) < u64::MAX,
            runtime@.instances.len() + (count - loader@.made.len()) < usize::MAX,
            !done ==> ({
                let rest = load_rest(runtime@, loader@);
                &&& rest.rt == total.rt
                &&& rest.auto_run == total.auto_run
                &&& rest.error == total.error
                &&& text::views(warnings@) + rest.warnings == total.warnings
                &&& text::views(firings@) + rest.firings == total.firings
            }),
            !done ==> result is Ok,
            done ==> ({
                &&& runtime@ == total.rt
                &&& loader@.auto_run == total.auto_run
                &&& error_of(result) == total.error
                &&& text::views(warnings@) == total.warnings
                &&& text::views(firings@) == total.firings
            }),
        decreases
            if done {
                0nat
            } else {
                1nat
            },
            count - loader@.at,
            stage_number(loader@.stage),
    {
        let ghost rt = runtime@;
        let ghost before = loader@;
        let ghost rest = load_rest(rt, before);
        let ghost old_warnings = warnings@;
        let ghost old_firings = firings@;
        proof {
            lemma_load_step(rt, before);
            lemma_rest_unfold(rt, before);
        }
        match loader.step(runtime) {
            LoadAction::Report { warnings: mut more_warnings, firings: mut more_firings } => {
                let ghost w = more_warnings@;
                let ghost f = more_firings@;
                warnings.append(&mut more_warnings);
                firings.append(&mut more_firings);
                proof {
                    let later = load_rest(runtime@, loader@);
                    assert(text::views(warnings@) =~= text::views(old_warnings) + text::views(w));
                    assert(text::views(firings@) =~= text::views(old_firings) + text::views(f));
                    assert(text::views(old_warnings) + (text::views(w) + later.warnings) =~= text::views(warnings@)
                        + later.warnings);
                    assert(text::views(old_firings) + (text::views(f) + later.firings) =~= text::views(firings@)
                        + later.firings);
                }
            },
            LoadAction::Move { child, parent } => {
                proof {
                    lemma_set_parent_counts(runtime@, child, Some(parent));
                }
                match runtime.set_parent(child, Some(parent)) {
                    Ok(mut more_firings) => {
                        let ghost f = more_firings@;
                        firings.append(&mut more_firings);
                        proof {
                            let later = load_rest(runtime@, loader@);
                            assert(text::views(firings@) =~= text::views(old_firings) + text::views(f));
                            assert(text::views(old_firings) + (text::views(f) + later.firings) =~= text::views(
                                firings@,
                            ) + later.firings);
                        }
                    },
                    Err(error) => {
                        result = Err(error);
                        done = true;
                        assert(text::views(warnings@) + rest.warnings =~= text::views(warnings@));
                        assert(text::views(firings@) + rest.firings =~= text::views(firings@));
                    },
                }
            },
            LoadAction::Done => {
                done = true;
                assert(text::views(warnings@) + rest.warnings =~= text::views(warnings@));
                assert(text::views(firings@) + rest.firings =~= text::views(firings@));
            },
            LoadAction::Fail { warnings: mut more_warnings, error } => {
                let ghost w = more_warnings@;
                warnings.append(&mut more_warnings);
                result = Err(error);
                done = true;
                assert(text::views(warnings@) =~= text::views(old_warnings) + text::views(w));
                assert(text::views(firings@) + rest.firings =~= text::views(firings@));
            },
        }
    }
    LoadReport { auto_run: loader.auto_run, warnings, firings, result }
}

} // verus!
