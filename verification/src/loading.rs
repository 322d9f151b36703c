//! What loading a project leaves behind: the instances of its plan, each with what the plan says and
//! in its place.

use vstd::prelude::*;
use vstd::string::*;

use crate::instance::{self, InstanceView, ValueView};
use crate::laws;
use crate::layout::{self, DirView};
use crate::loader::{self, LoadEnd, LoadStage, LoaderView, PlanNodeView, PlanParent, PlanView};
use crate::lua_api;
use crate::moves;
use crate::path;
use crate::placement;
use crate::project::{ExternalView, MountView, NodeView, ScriptView};
use crate::rbxlx;
use crate::runtime::{self, RuntimeMode, RuntimeView};
use crate::text::{self, Text};
use crate::tree;

verus! {

/// Whether an instance of a plan can hold what the plan gives it.
pub open spec fn fits(node: PlanNodeView) -> bool {
    &&& node.source is Some ==> instance::is_script_class(node.class_name)
    &&& node.value is Some ==> node.class_name == "StringValue"@
}

/// The position of the parent that a plan names, where the instances of the plan start at `base`.
pub open spec fn parent_position(parent: PlanParent, base: int) -> int {
    match parent {
        PlanParent::Existing(i) => i as int,
        PlanParent::Made(k) => base + k,
    }
}

/// Whether an instance is what a plan says.
pub open spec fn built(instance: InstanceView, node: PlanNodeView, base: int) -> bool {
    &&& instance.class_name == node.class_name
    &&& instance.name == node.name
    &&& instance.script_path == node.script_path
    &&& instance.parent == Some(parent_position(node.parent, base) as usize)
    &&& !instance.destroyed
    &&& !instance.client_authoritative
    &&& node.source matches Some(source) ==> instance::property_of(instance, "Source"@) == Some(
        ValueView::String(source),
    )
    &&& node.value matches Some(bytes) ==> instance::property_of(instance, "Value"@) == Some(
        ValueView::BinaryString(bytes),
    )
}

/// Whether an instance of a plan is a script that runs by itself: scripts of its class do in this
/// mode, and nothing in it keeps it from doing so.
pub open spec fn runs_by_itself(mode: RuntimeMode, node: PlanNodeView) -> bool {
    node.auto_run && lua_api::auto_runs(mode, node.class_name)
}

/// The scripts among the first `n` instances of a plan that run by themselves.
pub open spec fn running(
    mode: RuntimeMode,
    nodes: Seq<PlanNodeView>,
    base: int,
    n: int,
) -> Seq<usize>
    decreases n,
{
    if n <= 0 {
        Seq::empty()
    } else {
        let before = running(mode, nodes, base, n - 1);
        if runs_by_itself(mode, nodes[n - 1]) {
            before.push((base + n - 1) as usize)
        } else {
            before
        }
    }
}

/// Whether an instance only got children.
pub open spec fn only_gained_children(before: InstanceView, after: InstanceView) -> bool {
    &&& after == (InstanceView { children: after.children, ..before })
    &&& before.children.is_prefix_of(after.children)
}

spec fn agree(a: LoadEnd, b: LoadEnd) -> bool {
    a.rt == b.rt && a.auto_run == b.auto_run && a.error == b.error
}

proof fn lemma_source(instance: InstanceView, source: Text)
    requires
        instance::is_script_class(instance.class_name),
    ensures
        instance::set_outcome(instance, "Source"@, ValueView::String(source)) is Ok,
        ({
            let after = instance::with_property(instance, "Source"@, ValueView::String(source));
            &&& after == (InstanceView { properties: after.properties, ..instance })
            &&& instance::property_of(after, "Source"@) == Some(ValueView::String(source))
        }),
{
    lemma_source_name();
}

proof fn lemma_source_name()
    ensures
        "Source"@ != "Name"@,
        "Source"@ != "ClassName"@,
        "Source"@ != "Archivable"@,
        "Source"@ != "CharacterAutoLoads"@,
        "Source"@ != "UserId"@,
        "Source"@ != "DisplayName"@,
        "Source"@ != "HttpEnabled"@,
        "Source"@ != "Anchored"@,
        "Source"@ != "Value"@,
{
    reveal_strlit("Source");
    reveal_strlit("Name");
    reveal_strlit("ClassName");
    reveal_strlit("Archivable");
    reveal_strlit("CharacterAutoLoads");
    reveal_strlit("UserId");
    reveal_strlit("DisplayName");
    reveal_strlit("HttpEnabled");
    reveal_strlit("Anchored");
    reveal_strlit("Value");
    assert("Source"@.len() == 6 && "Source"@[0] == 'S');
    assert("UserId"@.len() == 6 && "UserId"@[0] == 'U');
    assert("Name"@.len() == 4);
    assert("ClassName"@.len() == 9);
    assert("Archivable"@.len() == 10);
    assert("CharacterAutoLoads"@.len() == 18);
    assert("DisplayName"@.len() == 11);
    assert("HttpEnabled"@.len() == 11);
    assert("Anchored"@.len() == 8);
    assert("Value"@.len() == 5);
}

proof fn lemma_value(instance: InstanceView, bytes: Seq<u8>)
    requires
        instance.class_name == "StringValue"@,
    ensures
        instance::set_outcome(instance, "Value"@, ValueView::BinaryString(bytes)) is Ok,
        ({
            let after = instance::with_property(instance, "Value"@, ValueView::BinaryString(bytes));
            &&& after == (InstanceView { properties: after.properties, ..instance })
            &&& instance::property_of(after, "Value"@) == Some(ValueView::BinaryString(bytes))
            &&& instance::property_of(after, "Source"@) == instance::property_of(instance, "Source"@)
        }),
{
    lemma_value_name();
    lemma_source_name();
}

proof fn lemma_value_name()
    ensures
        "Value"@ != "Name"@,
        "Value"@ != "ClassName"@,
        "Value"@ != "Archivable"@,
        "Value"@ != "CharacterAutoLoads"@,
        "Value"@ != "UserId"@,
        "Value"@ != "DisplayName"@,
        "Value"@ != "HttpEnabled"@,
        "Value"@ != "Anchored"@,
{
    reveal_strlit("Value");
    reveal_strlit("Name");
    reveal_strlit("ClassName");
    reveal_strlit("Archivable");
    reveal_strlit("CharacterAutoLoads");
    reveal_strlit("UserId");
    reveal_strlit("DisplayName");
    reveal_strlit("HttpEnabled");
    reveal_strlit("Anchored");
    assert("Value"@.len() == 5);
    assert("Name"@.len() == 4);
    assert("ClassName"@.len() == 9);
    assert("Archivable"@.len() == 10);
    assert("CharacterAutoLoads"@.len() == 18);
    assert("UserId"@.len() == 6);
    assert("DisplayName"@.len() == 11);
    assert("HttpEnabled"@.len() == 11);
    assert("Anchored"@.len() == 8);
}

proof fn lemma_named(instance: InstanceView, name: Text)
    ensures
        instance::set_outcome(instance, "Name"@, ValueView::String(name)) is Ok,
        instance::with_property(instance, "Name"@, ValueView::String(name)) == (InstanceView {
            name,
            ..instance
        }),
        "Name"@ != "CharacterAutoLoads"@,
        "Name"@ != "Anchored"@,
{
    reveal_strlit("Name");
    reveal_strlit("CharacterAutoLoads");
    reveal_strlit("Anchored");
    assert("Name"@.len() == 4);
    assert("CharacterAutoLoads"@.len() == 18);
    assert("Anchored"@.len() == 8);
}

/// The runtime after one of its instances, which is not yet in the tree, was given a property.
proof fn lemma_own_property(rt: RuntimeView, i: usize, name: Text, value: ValueView)
    requires
        rt.wf(),
        laws::neat(rt.instances),
        i < rt.instances.len(),
        !rt.instances[i as int].destroyed,
        name != "CharacterAutoLoads"@,
        name != "Anchored"@,
        instance::set_outcome(rt.instances[i as int], name, value) is Ok,
    ensures
        ({
            let outcome = runtime::set_property_outcome(rt, i, name, value);
            let after = instance::with_property(rt.instances[i as int], name, value);
            &&& outcome.0 == runtime::with_instance(rt, i, after)
            &&& outcome.2 is Ok
            &&& outcome.0.wf()
            &&& laws::neat(outcome.0.instances)
        }),
{
    runtime::lemma_set_property_wf(rt, i, name, value);
    let outcome = runtime::set_property_outcome(rt, i, name, value);
    laws::lemma_same_story(rt.instances, outcome.0.instances);
}

// ---------------------------------------------------------------------------------------------
// The stages of one instance
// ---------------------------------------------------------------------------------------------

proof fn lemma_stage_name(rt: RuntimeView, loader: LoaderView)
    requires
        loader.stage == LoadStage::Create,
        loader.at < loader.plan.nodes.len(),
        ({
            let node = loader.plan.nodes[loader.at as int];
            let grown = runtime::with_new(rt, runtime::made_instance(rt, node.class_name));
            runtime::set_property_outcome(
                grown,
                rt.instances.len() as usize,
                "Name"@,
                ValueView::String(node.name),
            ).2 is Ok
        }),
    ensures
        ({
            let node = loader.plan.nodes[loader.at as int];
            let i = rt.instances.len() as usize;
            let grown = runtime::with_new(rt, runtime::made_instance(rt, node.class_name));
            let named = runtime::set_property_outcome(grown, i, "Name"@, ValueView::String(node.name)).0;
            let next = LoaderView {
                made: loader.made.push(i),
                stage: LoadStage::Source,
                ..loader
            };
            agree(loader::load_rest(rt, loader), loader::load_rest(named, next))
        }),
{
    reveal(loader::load_step);
    let node = loader.plan.nodes[loader.at as int];
    let i = rt.instances.len() as usize;
    let grown = runtime::with_new(rt, runtime::made_instance(rt, node.class_name));
    let named = runtime::set_property_outcome(grown, i, "Name"@, ValueView::String(node.name)).0;
    let made = loader.made.push(i);
    assert(made.last() == i);
    loader::lemma_rest_unfold(rt, loader);
    loader::lemma_rest_unfold(named, LoaderView { made, stage: LoadStage::NameOwn, ..loader });
}

proof fn lemma_stage_source(rt: RuntimeView, loader: LoaderView)
    requires
        loader.stage == LoadStage::Source,
        loader.at < loader.plan.nodes.len(),
        loader.plan.nodes[loader.at as int].source matches Some(source) ==> runtime::set_property_outcome(
            rt,
            loader.made.last(),
            "Source"@,
            ValueView::String(source),
        ).2 is Ok,
    ensures
        ({
            let next = LoaderView { stage: LoadStage::Value, ..loader };
            let after = match loader.plan.nodes[loader.at as int].source {
                Some(source) => runtime::set_property_outcome(
                    rt,
                    loader.made.last(),
                    "Source"@,
                    ValueView::String(source),
                ).0,
                None => rt,
            };
            agree(loader::load_rest(rt, loader), loader::load_rest(after, next))
        }),
{
    reveal(loader::load_step);
    loader::lemma_rest_unfold(rt, loader);
    if let Some(source) = loader.plan.nodes[loader.at as int].source {
        let after = runtime::set_property_outcome(
            rt,
            loader.made.last(),
            "Source"@,
            ValueView::String(source),
        ).0;
        loader::lemma_rest_unfold(after, LoaderView { stage: LoadStage::SourceOwn, ..loader });
    }
}

proof fn lemma_stage_value(rt: RuntimeView, loader: LoaderView)
    requires
        loader.stage == LoadStage::Value,
        loader.at < loader.plan.nodes.len(),
        loader.plan.nodes[loader.at as int].value matches Some(bytes) ==> runtime::set_property_outcome(
            rt,
            loader.made.last(),
            "Value"@,
            ValueView::BinaryString(bytes),
        ).2 is Ok,
    ensures
        ({
            let next = LoaderView { stage: LoadStage::Move, ..loader };
            let after = match loader.plan.nodes[loader.at as int].value {
                Some(bytes) => runtime::set_property_outcome(
                    rt,
                    loader.made.last(),
                    "Value"@,
                    ValueView::BinaryString(bytes),
                ).0,
                None => rt,
            };
            agree(loader::load_rest(rt, loader), loader::load_rest(after, next))
        }),
{
    reveal(loader::load_step);
    loader::lemma_rest_unfold(rt, loader);
    if let Some(bytes) = loader.plan.nodes[loader.at as int].value {
        let after = runtime::set_property_outcome(
            rt,
            loader.made.last(),
            "Value"@,
            ValueView::BinaryString(bytes),
        ).0;
        loader::lemma_rest_unfold(after, LoaderView { stage: LoadStage::ValueOwn, ..loader });
    }
}

/// The runtime with the path of the instance that is being made.
spec fn with_path(rt: RuntimeView, loader: LoaderView) -> RuntimeView {
    let i = loader.made.last();
    let node = loader.plan.nodes[loader.at as int];
    runtime::with_instance(
        rt,
        i,
        InstanceView { script_path: node.script_path, ..rt.instances[i as int] },
    )
}

proof fn lemma_stage_move(rt: RuntimeView, loader: LoaderView)
    requires
        loader.stage == LoadStage::Move,
        loader.at < loader.plan.nodes.len(),
        moves::set_parent_outcome(
            with_path(rt, loader),
            loader.made.last(),
            Some(loader.parent()),
        ).1 is Ok,
    ensures
        ({
            let moved = moves::set_parent_outcome(
                with_path(rt, loader),
                loader.made.last(),
                Some(loader.parent()),
            ).0;
            let next = LoaderView { stage: LoadStage::Finish, ..loader };
            agree(loader::load_rest(rt, loader), loader::load_rest(moved, next))
        }),
{
    reveal(loader::load_step);
    loader::lemma_rest_unfold(rt, loader);
}

/// The loader after an instance was made.
spec fn after_one(mode: RuntimeMode, loader: LoaderView) -> LoaderView {
    let i = loader.made.last();
    LoaderView {
        at: loader.at + 1,
        auto_run: if runs_by_itself(mode, loader.plan.nodes[loader.at as int]) {
            loader.auto_run.push(i)
        } else {
            loader.auto_run
        },
        stage: LoadStage::Create,
        ..loader
    }
}

proof fn lemma_stage_finish(rt: RuntimeView, loader: LoaderView)
    requires
        loader.stage == LoadStage::Finish,
        loader.at < loader.plan.nodes.len(),
    ensures
        agree(
            loader::load_rest(rt, loader),
            loader::load_rest(
                runtime::with_authority(rt, loader.made.last(), false),
                after_one(rt.mode, loader),
            ),
        ),
{
    reveal(loader::load_step);
    loader::lemma_rest_unfold(rt, loader);
}

// ---------------------------------------------------------------------------------------------
// What the stages do
// ---------------------------------------------------------------------------------------------

/// Whether `after` is `rt` with another value of its last instance, which is not in the tree.
spec fn last_changed(rt: RuntimeView, after: RuntimeView) -> bool {
    let i = rt.instances.len() - 1;
    &&& rt.instances.len() > 0
    &&& after == runtime::with_instance(rt, i as usize, after.instances[i])
    &&& after.wf()
    &&& laws::neat(after.instances)
    &&& after.instances[i].class_name == rt.instances[i].class_name
    &&& after.instances[i].parent is None
    &&& after.instances[i].children.len() == 0
    &&& !after.instances[i].destroyed
}

proof fn lemma_unchanged(rt: RuntimeView, after: RuntimeView)
    requires
        last_changed(rt, after),
        rt.instances.len() <= usize::MAX,
    ensures
        last_changed(after, after),
{
    let i = rt.instances.len() - 1;
    assert(after.instances =~= after.instances.update(i, after.instances[i]));
}

proof fn lemma_make(rt: RuntimeView, node: PlanNodeView) -> (after: RuntimeView)
    requires
        rt.wf(),
        laws::neat(rt.instances),
        rt.next_id < u64::MAX,
        rt.instances.len() < usize::MAX,
    ensures
        ({
            let i = rt.instances.len() as usize;
            let grown = runtime::with_new(rt, runtime::made_instance(rt, node.class_name));
            let outcome = runtime::set_property_outcome(grown, i, "Name"@, ValueView::String(node.name));
            &&& outcome.2 is Ok
            &&& outcome.0 == after
            &&& last_changed(grown, after)
            &&& after.instances[i as int].name == node.name
            &&& after.instances[i as int].class_name == node.class_name
        }),
{
    let i = rt.instances.len() as usize;
    let leaf = runtime::made_instance(rt, node.class_name);
    runtime::lemma_new_instance_addable(rt.next_id, node.class_name, node.class_name, false);
    runtime::lemma_with_new(rt, leaf);
    laws::lemma_new_neat(rt, leaf);
    let grown = runtime::with_new(rt, leaf);
    assert(grown.instances[i as int] == leaf);
    lemma_named(leaf, node.name);
    lemma_own_property(grown, i, "Name"@, ValueView::String(node.name));
    runtime::set_property_outcome(grown, i, "Name"@, ValueView::String(node.name)).0
}

proof fn lemma_give_source(rt: RuntimeView, node: PlanNodeView) -> (after: RuntimeView)
    requires
        rt.instances.len() > 0,
        rt.instances.len() <= usize::MAX,
        last_changed(rt, rt),
        rt.instances.last().class_name == node.class_name,
        fits(node),
    ensures
        ({
            let i = (rt.instances.len() - 1) as usize;
            &&& last_changed(rt, after)
            &&& after.instances[i as int].name == rt.instances[i as int].name
            &&& match node.source {
                Some(source) => {
                    let outcome = runtime::set_property_outcome(
                        rt,
                        i,
                        "Source"@,
                        ValueView::String(source),
                    );
                    &&& outcome.2 is Ok
                    &&& outcome.0 == after
                    &&& instance::property_of(after.instances[i as int], "Source"@) == Some(
                        ValueView::String(source),
                    )
                },
                None => after == rt,
            }
        }),
{
    let i = (rt.instances.len() - 1) as usize;
    match node.source {
        Some(source) => {
            lemma_source_name();
            lemma_source(rt.instances[i as int], source);
            lemma_own_property(rt, i, "Source"@, ValueView::String(source));
            runtime::set_property_outcome(rt, i, "Source"@, ValueView::String(source)).0
        },
        None => rt,
    }
}

proof fn lemma_give_value(rt: RuntimeView, node: PlanNodeView) -> (after: RuntimeView)
    requires
        rt.instances.len() > 0,
        rt.instances.len() <= usize::MAX,
        last_changed(rt, rt),
        rt.instances.last().class_name == node.class_name,
        fits(node),
    ensures
        ({
            let i = (rt.instances.len() - 1) as usize;
            &&& last_changed(rt, after)
            &&& after.instances[i as int].name == rt.instances[i as int].name
            &&& instance::property_of(after.instances[i as int], "Source"@) == instance::property_of(
                rt.instances[i as int],
                "Source"@,
            )
            &&& match node.value {
                Some(bytes) => {
                    let outcome = runtime::set_property_outcome(
                        rt,
                        i,
                        "Value"@,
                        ValueView::BinaryString(bytes),
                    );
                    &&& outcome.2 is Ok
                    &&& outcome.0 == after
                    &&& instance::property_of(after.instances[i as int], "Value"@) == Some(
                        ValueView::BinaryString(bytes),
                    )
                },
                None => after == rt,
            }
        }),
{
    let i = (rt.instances.len() - 1) as usize;
    match node.value {
        Some(bytes) => {
            lemma_value_name();
            lemma_value(rt.instances[i as int], bytes);
            lemma_own_property(rt, i, "Value"@, ValueView::BinaryString(bytes));
            runtime::set_property_outcome(rt, i, "Value"@, ValueView::BinaryString(bytes)).0
        },
        None => rt,
    }
}

/// The stages from the making of an instance up to its move into the tree.
proof fn lemma_prepare(rt: RuntimeView, loader: LoaderView) -> (ready: RuntimeView)
    requires
        rt.wf(),
        laws::neat(rt.instances),
        loader.stage == LoadStage::Create,
        loader.at < loader.plan.nodes.len(),
        fits(loader.plan.nodes[loader.at as int]),
        rt.next_id < u64::MAX,
        rt.instances.len() < usize::MAX,
    ensures
        ({
            let node = loader.plan.nodes[loader.at as int];
            let i = rt.instances.len() as usize;
            let next = LoaderView { made: loader.made.push(i), stage: LoadStage::Move, ..loader };
            let instance = ready.instances[i as int];
            &&& agree(loader::load_rest(rt, loader), loader::load_rest(ready, next))
            &&& last_changed(runtime::with_new(rt, runtime::made_instance(rt, node.class_name)), ready)
            &&& instance.class_name == node.class_name
            &&& instance.name == node.name
            &&& node.source matches Some(source) ==> instance::property_of(instance, "Source"@) == Some(
                ValueView::String(source),
            )
            &&& node.value matches Some(bytes) ==> instance::property_of(instance, "Value"@) == Some(
                ValueView::BinaryString(bytes),
            )
        }),
{
    let node = loader.plan.nodes[loader.at as int];
    let i = rt.instances.len() as usize;
    let grown = runtime::with_new(rt, runtime::made_instance(rt, node.class_name));
    let made = loader.made.push(i);
    assert(made.last() == i);
    let r1 = lemma_make(rt, node);
    lemma_stage_name(rt, loader);
    lemma_unchanged(grown, r1);
    let r2 = lemma_give_source(r1, node);
    lemma_stage_source(r1, LoaderView { made, stage: LoadStage::Source, ..loader });
    lemma_unchanged(r1, r2);
    let r3 = lemma_give_value(r2, node);
    lemma_stage_value(r2, LoaderView { made, stage: LoadStage::Value, ..loader });
    assert(r3 =~= runtime::with_instance(grown, i, r3.instances[i as int]));
    r3
}

/// An instance that was just made gets its path and its place in the tree.
proof fn lemma_arrive(rt: RuntimeView, loader: LoaderView, parent: usize) -> (after: RuntimeView)
    requires
        last_changed(rt, rt),
        rt.instances.len() <= usize::MAX,
        loader.made.last() == rt.instances.len() - 1,
        parent < rt.instances.len() - 1,
        !rt.instances[parent as int].destroyed,
    ensures
        ({
            let node = loader.plan.nodes[loader.at as int];
            let i = (rt.instances.len() - 1) as usize;
            let outcome = moves::set_parent_outcome(with_path(rt, loader), i, Some(parent));
            let above = rt.instances[parent as int];
            &&& outcome.1 is Ok
            &&& outcome.0 == after
            &&& after.wf()
            &&& laws::neat(after.instances)
            &&& after == runtime::with_instances(
                rt,
                rt.instances.update(
                    i as int,
                    InstanceView {
                        script_path: node.script_path,
                        parent: Some(parent),
                        ..rt.instances[i as int]
                    },
                ).update(
                    parent as int,
                    InstanceView { children: above.children.push(i), ..above },
                ),
            )
        }),
{
    let i = (rt.instances.len() - 1) as usize;
    let r4 = with_path(rt, loader);
    assert forall|k: int| 0 <= k < r4.instances.len() implies runtime::harmless(
        rt.instances[k],
        #[trigger] r4.instances[k],
    ) by {
        assert(rt.instances[k].wf() && runtime::stays_anchored(rt.instances[k]));
    }
    runtime::lemma_harmless(rt, r4.instances);
    assert(r4 =~= runtime::with_instances(rt, r4.instances));
    laws::lemma_same_story(rt.instances, r4.instances);
    let kids = instance::kids_of(r4.instances);
    assert(kids[i as int] =~= Seq::empty());
    assert(tree::descendants(kids, i) =~= Seq::empty());
    assert(tree::subtree(kids, i) =~= seq![i]);
    assert(!tree::subtree(kids, i).contains(parent));
    assert(moves::move_check(r4, i, Some(parent)) == Ok::<bool, Text>(true));
    moves::lemma_no_clash(r4, i, parent);
    moves::law_set_parent_keeps_the_tree(r4, i, Some(parent));
    let r5 = moves::set_parent_outcome(r4, i, Some(parent)).0;
    assert(r5 == runtime::placed(r4, i, Some(parent)));
    runtime::lemma_placed_wf(r4, i, Some(parent));
    laws::lemma_neat(r5);
    assert(r5.instances =~= runtime::with_instances(
        rt,
        rt.instances.update(
            i as int,
            InstanceView {
                script_path: loader.plan.nodes[loader.at as int].script_path,
                parent: Some(parent),
                ..rt.instances[i as int]
            },
        ).update(
            parent as int,
            InstanceView {
                children: rt.instances[parent as int].children.push(i),
                ..rt.instances[parent as int]
            },
        ),
    ).instances);
    r5
}

/// An instance without children that is marked as known to the server.
proof fn lemma_mark(rt: RuntimeView, i: usize)
    requires
        rt.wf(),
        laws::neat(rt.instances),
        i < rt.instances.len(),
        rt.instances[i as int].children.len() == 0,
    ensures
        ({
            let after = runtime::with_authority(rt, i, false);
            &&& after.wf()
            &&& laws::neat(after.instances)
            &&& after == runtime::with_instance(
                rt,
                i,
                InstanceView { client_authoritative: false, ..rt.instances[i as int] },
            )
        }),
{
    let after = runtime::with_authority(rt, i, false);
    let kids = instance::kids_of(rt.instances);
    assert(kids[i as int] =~= Seq::empty());
    let marked = tree::subtree(kids, i);
    assert(marked =~= seq![i]);
    assert(marked[0] == i);
    assert forall|k: usize| #[trigger] marked.contains(k) == (k == i) by {}
    assert(after =~= runtime::with_instance(
        rt,
        i,
        InstanceView { client_authoritative: false, ..rt.instances[i as int] },
    ));
    assert forall|k: int| 0 <= k < after.instances.len() implies runtime::harmless(
        rt.instances[k],
        #[trigger] after.instances[k],
    ) by {
        assert(rt.instances[k].wf() && runtime::stays_anchored(rt.instances[k]));
    }
    runtime::lemma_harmless(rt, after.instances);
    assert(after =~= runtime::with_instances(rt, after.instances));
    laws::lemma_same_story(rt.instances, after.instances);
}

// ---------------------------------------------------------------------------------------------
// The whole plan
// ---------------------------------------------------------------------------------------------

/// The positions of the first `k` instances of a plan.
spec fn positions(base: int, k: nat) -> Seq<usize> {
    Seq::new(k, |j: int| (base + j) as usize)
}

/// The loader when the first `k` instances of a plan are made.
spec fn loader_at(start: RuntimeView, plan: PlanView, k: nat) -> LoaderView {
    let base = start.instances.len() as int;
    LoaderView {
        plan,
        at: k,
        made: positions(base, k),
        auto_run: running(start.mode, plan.nodes, base, k as int),
        stage: LoadStage::Create,
    }
}

/// Whether a runtime is what it was, with the first `k` instances of a plan.
pub open spec fn loaded(
    start: RuntimeView,
    nodes: Seq<PlanNodeView>,
    rt: RuntimeView,
    k: nat,
) -> bool {
    let base = start.instances.len() as int;
    &&& rt == (RuntimeView {
        instances: rt.instances,
        next_id: (start.next_id + k) as u64,
        ..start
    })
    &&& rt.instances.len() == base + k
    &&& forall|j: int|
        0 <= j < k ==> built(rt.instances[base + j], #[trigger] nodes[j], base)
    &&& forall|j: int|
        0 <= j < base ==> only_gained_children(start.instances[j], #[trigger] rt.instances[j])
}

/// Whether a plan can be carried out from the given runtime: there is room, every parent is there
/// and alive, and every instance can hold what it is given.
pub open spec fn loadable(start: RuntimeView, nodes: Seq<PlanNodeView>) -> bool {
    &&& start.wf()
    &&& moves::consistent(start.instances)
    &&& start.next_id + nodes.len() < u64::MAX
    &&& start.instances.len() + nodes.len() < usize::MAX
    &&& loader::plan_ok(nodes, start.instances.len())
    &&& forall|k: int|
        0 <= k < nodes.len() ==> fits(#[trigger] nodes[k]) && (nodes[k].parent matches PlanParent::Existing(
            i,
        ) ==> !start.instances[i as int].destroyed)
}

proof fn lemma_one(start: RuntimeView, plan: PlanView, rt: RuntimeView, k: nat) -> (after:
    RuntimeView)
    requires
        loadable(start, plan.nodes),
        k < plan.nodes.len(),
        rt.wf(),
        laws::neat(rt.instances),
        loaded(start, plan.nodes, rt, k),
    ensures
        after.wf(),
        laws::neat(after.instances),
        loaded(start, plan.nodes, after, k + 1),
        agree(
            loader::load_rest(rt, loader_at(start, plan, k)),
            loader::load_rest(after, loader_at(start, plan, k + 1)),
        ),
{
    let base = start.instances.len() as int;
    let nodes = plan.nodes;
    let node = nodes[k as int];
    let loader = loader_at(start, plan, k);
    let i = rt.instances.len() as usize;
    assert(fits(nodes[k as int]));
    assert(loader::parent_ok(nodes[k as int].parent, start.instances.len(), k as int));
    let ready = lemma_prepare(rt, loader);
    let grown = runtime::with_new(rt, runtime::made_instance(rt, node.class_name));
    lemma_unchanged(grown, ready);
    let made = loader.made.push(i);
    assert(made =~= positions(base, k + 1));
    let moving = LoaderView { made, stage: LoadStage::Move, ..loader };
    assert(moving.made.last() == i);
    let parent = moving.parent();
    assert(parent == parent_position(node.parent, base)) by {
        if let PlanParent::Made(j) = node.parent {
            assert(made[j as int] == (base + j) as usize);
        }
    }
    assert(parent < i);
    assert(ready.instances[parent as int] == rt.instances[parent as int]);
    assert(!rt.instances[parent as int].destroyed) by {
        match node.parent {
            PlanParent::Existing(p) => {
                assert(only_gained_children(start.instances[p as int], rt.instances[p as int]));
            },
            PlanParent::Made(j) => {
                assert(built(rt.instances[base + j], nodes[j as int], base));
            },
        }
    }
    let moved = lemma_arrive(ready, moving, parent);
    lemma_stage_move(ready, moving);
    assert(moved.instances[i as int].children.len() == 0);
    lemma_mark(moved, i);
    let finishing = LoaderView { stage: LoadStage::Finish, ..moving };
    lemma_stage_finish(moved, finishing);
    let after = runtime::with_authority(moved, i, false);
    assert(after_one(moved.mode, finishing) =~= loader_at(start, plan, k + 1));
    lemma_gained(start, nodes, rt, ready, moved, after, k, parent);
    after
}

proof fn lemma_gained(
    start: RuntimeView,
    nodes: Seq<PlanNodeView>,
    rt: RuntimeView,
    ready: RuntimeView,
    moved: RuntimeView,
    after: RuntimeView,
    k: nat,
    parent: usize,
)
    requires
        loadable(start, nodes),
        k < nodes.len(),
        loaded(start, nodes, rt, k),
        ({
            let base = start.instances.len() as int;
            let node = nodes[k as int];
            let i = (base + k) as usize;
            let above = ready.instances[parent as int];
            let instance = ready.instances[i as int];
            &&& ready == runtime::with_instance(
                runtime::with_new(rt, runtime::made_instance(rt, node.class_name)),
                i,
                instance,
            )
            &&& parent < i
            &&& parent == parent_position(node.parent, base)
            &&& moved == runtime::with_instances(
                ready,
                ready.instances.update(
                    i as int,
                    InstanceView {
                        script_path: node.script_path,
                        parent: Some(parent),
                        ..instance
                    },
                ).update(parent as int, InstanceView { children: above.children.push(i), ..above }),
            )
            &&& after == runtime::with_instance(
                moved,
                i,
                InstanceView { client_authoritative: false, ..moved.instances[i as int] },
            )
            &&& instance.class_name == node.class_name
            &&& instance.name == node.name
            &&& !instance.destroyed
            &&& node.source matches Some(source) ==> instance::property_of(instance, "Source"@) == Some(
                ValueView::String(source),
            )
            &&& node.value matches Some(bytes) ==> instance::property_of(instance, "Value"@) == Some(
                ValueView::BinaryString(bytes),
            )
        }),
    ensures
        loaded(start, nodes, after, k + 1),
{
    let base = start.instances.len() as int;
    let i = (base + k) as usize;
    assert forall|j: int| 0 <= j < i implies (#[trigger] after.instances[j]) == (if j == parent {
        InstanceView {
            children: rt.instances[j].children.push(i),
            ..rt.instances[j]
        }
    } else {
        rt.instances[j]
    }) by {
        assert(ready.instances[j] == rt.instances[j]);
    }
    assert forall|j: int| 0 <= j < k + 1 implies built(
        after.instances[base + j],
        #[trigger] nodes[j],
        base,
    ) by {
        if j < k {
            assert(built(rt.instances[base + j], nodes[j], base));
        }
    }
    assert forall|j: int| 0 <= j < base implies only_gained_children(
        start.instances[j],
        #[trigger] after.instances[j],
    ) by {
        assert(only_gained_children(start.instances[j], rt.instances[j]));
        let had = start.instances[j].children;
        let has = rt.instances[j].children;
        if j == parent {
            assert(has.push(i).subrange(0, had.len() as int) =~= has.subrange(0, had.len() as int));
        }
    }
}

proof fn lemma_all(start: RuntimeView, plan: PlanView, rt: RuntimeView, k: nat)
    requires
        loadable(start, plan.nodes),
        k <= plan.nodes.len(),
        rt.wf(),
        laws::neat(rt.instances),
        loaded(start, plan.nodes, rt, k),
    ensures
        ({
            let end = loader::load_rest(rt, loader_at(start, plan, k));
            &&& end.error == plan.stop
            &&& end.rt.wf()
            &&& laws::neat(end.rt.instances)
            &&& loaded(start, plan.nodes, end.rt, plan.nodes.len())
            &&& end.auto_run == running(
                start.mode,
                plan.nodes,
                start.instances.len() as int,
                plan.nodes.len() as int,
            )
        }),
    decreases plan.nodes.len() - k,
{
    if k < plan.nodes.len() {
        let after = lemma_one(start, plan, rt, k);
        lemma_all(start, plan, after, k + 1);
    } else {
        reveal(loader::load_step);
        loader::lemma_rest_unfold(rt, loader_at(start, plan, k));
    }
}

/// Carrying out a plan makes each of its instances with the class, the name, the source code, the
/// value and the parent that the plan says, and gives the instances that were there nothing but
/// children. Children and parents tell the same story. The scripts that run by themselves are listed
/// in the order of the plan, and what stops the plan is reported when all before it is made.
pub proof fn law_loading_builds_the_plan(start: RuntimeView, plan: PlanView)
    requires
        loadable(start, plan.nodes),
    ensures
        ({
            let end = loader::load_rest(start, loader::new_loader(plan));
            &&& end.error == plan.stop
            &&& end.rt.wf()
            &&& moves::consistent(end.rt.instances)
            &&& loaded(start, plan.nodes, end.rt, plan.nodes.len())
            &&& end.auto_run == running(
                start.mode,
                plan.nodes,
                start.instances.len() as int,
                plan.nodes.len() as int,
            )
        }),
{
    laws::lemma_neat(start);
    assert forall|j: int| 0 <= j < start.instances.len() implies only_gained_children(
        start.instances[j],
        #[trigger] start.instances[j],
    ) by {
        let had = start.instances[j].children;
        assert(had =~= had.subrange(0, had.len() as int));
    }
    assert(loader_at(start, plan, 0) =~= loader::new_loader(plan));
    lemma_all(start, plan, start, 0);
}

proof fn lemma_running(mode: RuntimeMode, nodes: Seq<PlanNodeView>, base: int, n: int, k: int)
    requires
        0 <= n <= nodes.len(),
        0 <= base,
        base + nodes.len() <= usize::MAX,
        0 <= k < nodes.len(),
    ensures
        running(mode, nodes, base, n).contains((base + k) as usize) <==> k < n && runs_by_itself(
            mode,
            nodes[k],
        ),
    decreases n,
{
    if n > 0 {
        lemma_running(mode, nodes, base, n - 1, k);
        let before = running(mode, nodes, base, n - 1);
        let all = running(mode, nodes, base, n);
        let i = (base + k) as usize;
        if runs_by_itself(mode, nodes[n - 1]) {
            let last = (base + n - 1) as usize;
            assert(all == before.push(last));
            if before.contains(i) {
                let j = choose|j: int| 0 <= j < before.len() && before[j] == i;
                assert(all[j] == i);
            }
            assert(all[before.len() as int] == last);
        }
    }
}

/// A script that is kept from running by itself is made like any other, and is not among those that
/// run. All others whose class runs in the mode are.
pub proof fn law_disabled_scripts_do_not_run(start: RuntimeView, plan: PlanView, k: int)
    requires
        loadable(start, plan.nodes),
        0 <= k < plan.nodes.len(),
    ensures
        ({
            let end = loader::load_rest(start, loader::new_loader(plan));
            let base = start.instances.len() as int;
            &&& built(end.rt.instances[base + k], plan.nodes[k], base)
            &&& end.auto_run.contains((base + k) as usize) <==> plan.nodes[k].auto_run
                && lua_api::auto_runs(start.mode, plan.nodes[k].class_name)
        }),
{
    law_loading_builds_the_plan(start, plan);
    lemma_running(
        start.mode,
        plan.nodes,
        start.instances.len() as int,
        plan.nodes.len() as int,
        k,
    );
}

// ---------------------------------------------------------------------------------------------
// Plans of projects
// ---------------------------------------------------------------------------------------------

/// Whether a node, and every node below it, can hold what it is given.
spec fn node_fits(node: NodeView) -> bool
    decreases node,
{
    &&& fits(loader::planned(node, PlanParent::Made(0)))
    &&& forall|i: int| 0 <= i < node.children.len() ==> node_fits(#[trigger] node.children[i])
}

spec fn all_fit(nodes: Seq<NodeView>) -> bool {
    forall|i: int| 0 <= i < nodes.len() ==> node_fits(#[trigger] nodes[i])
}

/// Whether the instances of a part of a plan fit and have their parents before them.
spec fn part_ok(part: Seq<PlanNodeView>, top: PlanParent, base: int, n: nat) -> bool {
    forall|t: int|
        0 <= t < part.len() ==> fits(#[trigger] part[t]) && loader::parent_ok(part[t].parent, n, base + t)
            && (part[t].parent is Existing ==> part[t].parent == top)
}

proof fn lemma_plan_node_ok(node: NodeView, top: PlanParent, base: nat, n: nat)
    requires
        node_fits(node),
        loader::parent_ok(top, n, base as int),
        base + loader::plan_node(node, top, base).len() <= usize::MAX,
    ensures
        part_ok(loader::plan_node(node, top, base), top, base as int, n),
    decreases node, 1nat,
{
    let below = loader::plan_list(node.children, PlanParent::Made(base as usize), base + 1);
    let part = loader::plan_node(node, top, base);
    assert(part =~= seq![loader::planned(node, top)] + below);
    lemma_plan_list_ok(node.children, PlanParent::Made(base as usize), base + 1, n);
    assert forall|t: int| 0 <= t < part.len() implies fits(#[trigger] part[t]) && loader::parent_ok(
        part[t].parent,
        n,
        base + t,
    ) && (part[t].parent is Existing ==> part[t].parent == top) by {
        if t > 0 {
            assert(part[t] == below[t - 1]);
        }
    }
}

proof fn lemma_plan_list_ok(nodes: Seq<NodeView>, top: PlanParent, base: nat, n: nat)
    requires
        all_fit(nodes),
        loader::parent_ok(top, n, base as int),
        base + loader::plan_list(nodes, top, base).len() <= usize::MAX,
    ensures
        part_ok(loader::plan_list(nodes, top, base), top, base as int, n),
    decreases nodes, 0nat,
{
    if nodes.len() > 0 {
        let init = nodes.drop_last();
        let before = loader::plan_list(init, top, base);
        let last = loader::plan_node(nodes.last(), top, base + before.len());
        let part = loader::plan_list(nodes, top, base);
        assert(part == before + last);
        assert forall|i: int| 0 <= i < init.len() implies node_fits(#[trigger] init[i]) by {
            assert(init[i] == nodes[i]);
        }
        assert(node_fits(nodes[nodes.len() - 1]));
        lemma_plan_list_ok(init, top, base, n);
        lemma_plan_node_ok(nodes.last(), top, base + before.len(), n);
        assert forall|t: int| 0 <= t < part.len() implies fits(#[trigger] part[t]) && loader::parent_ok(
            part[t].parent,
            n,
            base + t,
        ) && (part[t].parent is Existing ==> part[t].parent == top) by {
            if t < before.len() {
                assert(part[t] == before[t]);
            } else {
                assert(part[t] == last[t - before.len()]);
            }
        }
    }
}

/// Whether the data model and the services are alive.
pub open spec fn open_for_loading(rt: RuntimeView) -> bool {
    &&& !rt.instances[rt.data_model as int].destroyed
    &&& forall|key: Text| #[trigger]
        rt.services.contains_key(key) ==> !rt.instances[rt.services[key] as int].destroyed
}

spec fn mount_fits(mount: MountView) -> bool {
    match mount {
        MountView::DataModelChild(node) => node_fits(node),
        MountView::ServiceContents { children, .. } => all_fit(children),
    }
}

spec fn plan_fits(rt: RuntimeView, nodes: Seq<PlanNodeView>) -> bool {
    &&& loader::plan_ok(nodes, rt.instances.len())
    &&& forall|k: int|
        0 <= k < nodes.len() ==> fits(#[trigger] nodes[k]) && (nodes[k].parent matches PlanParent::Existing(
            i,
        ) ==> !rt.instances[i as int].destroyed)
}

proof fn lemma_plan_append(
    rt: RuntimeView,
    before: Seq<PlanNodeView>,
    part: Seq<PlanNodeView>,
    top: usize,
)
    requires
        plan_fits(rt, before),
        part_ok(part, PlanParent::Existing(top), before.len() as int, rt.instances.len()),
        !rt.instances[top as int].destroyed,
    ensures
        plan_fits(rt, before + part),
{
    let nodes = before + part;
    assert forall|k: int| 0 <= k < nodes.len() implies fits(#[trigger] nodes[k]) && (
    nodes[k].parent matches PlanParent::Existing(i) ==> !rt.instances[i as int].destroyed)
        && loader::parent_ok(nodes[k].parent, rt.instances.len(), k) by {
        if k < before.len() {
            assert(nodes[k] == before[k]);
        } else {
            assert(nodes[k] == part[k - before.len()]);
        }
    }
}

proof fn lemma_plan_fits(rt: RuntimeView, mounts: Seq<MountView>)
    requires
        rt.wf(),
        open_for_loading(rt),
        forall|i: int| 0 <= i < mounts.len() ==> mount_fits(#[trigger] mounts[i]),
        loader::plan_of(rt, mounts).nodes.len() <= usize::MAX,
    ensures
        plan_fits(rt, loader::plan_of(rt, mounts).nodes),
    decreases mounts.len(),
{
    if mounts.len() > 0 {
        let init = mounts.drop_last();
        let before = loader::plan_of(rt, init);
        assert forall|i: int| 0 <= i < init.len() implies mount_fits(#[trigger] init[i]) by {
            assert(init[i] == mounts[i]);
        }
        assert(mount_fits(mounts[mounts.len() - 1]));
        lemma_plan_fits(rt, init);
        if before.stop is None {
            match mounts.last() {
                MountView::DataModelChild(node) => {
                    let top = PlanParent::Existing(rt.data_model);
                    lemma_plan_node_ok(node, top, before.nodes.len(), rt.instances.len());
                    lemma_plan_append(
                        rt,
                        before.nodes,
                        loader::plan_node(node, top, before.nodes.len()),
                        rt.data_model,
                    );
                },
                MountView::ServiceContents { service_name, children } => {
                    if runtime::visible(rt.mode, service_name) {
                        if let Ok(service) = runtime::service_named(rt, service_name) {
                            let top = PlanParent::Existing(service);
                            lemma_plan_list_ok(
                                children,
                                top,
                                before.nodes.len(),
                                rt.instances.len(),
                            );
                            lemma_plan_append(
                                rt,
                                before.nodes,
                                loader::plan_list(children, top, before.nodes.len()),
                                service,
                            );
                        }
                    }
                },
            }
        }
    }
}

proof fn lemma_sorted_fit(nodes: Seq<NodeView>)
    requires
        all_fit(nodes),
    ensures
        all_fit(layout::sort_nodes(nodes)),
{
    let sorted = layout::sort_nodes(nodes);
    assert forall|i: int| 0 <= i < sorted.len() implies node_fits(#[trigger] sorted[i]) by {
        assert(sorted.contains(sorted[i]));
        placement::lemma_sorted_contains(nodes, sorted[i]);
        let j = choose|j: int| 0 <= j < nodes.len() && nodes[j] == sorted[i];
        assert(node_fits(nodes[j]));
    }
}

proof fn lemma_append_fit(a: Seq<NodeView>, b: Seq<NodeView>)
    requires
        all_fit(a),
        all_fit(b),
    ensures
        all_fit(a + b),
{
    let all = a + b;
    assert forall|i: int| 0 <= i < all.len() implies node_fits(#[trigger] all[i]) by {
        if i < a.len() {
            assert(all[i] == a[i]);
        } else {
            assert(all[i] == b[i - a.len()]);
        }
    }
}

proof fn lemma_scripts_fit(scripts: Seq<ScriptView>, keep_init: bool)
    ensures
        all_fit(layout::script_nodes(scripts, keep_init)),
    decreases scripts.len(),
{
    if scripts.len() > 0 {
        lemma_scripts_fit(scripts.drop_last(), keep_init);
        let head = layout::script_nodes(scripts.drop_last(), keep_init);
        let all = layout::script_nodes(scripts, keep_init);
        let last = layout::script_node(scripts.last());
        assert(node_fits(last));
        assert forall|i: int| 0 <= i < all.len() implies node_fits(#[trigger] all[i]) by {
            if i < head.len() {
                assert(all[i] == head[i]);
            }
        }
    }
}

proof fn lemma_externals_fit(files: Seq<ExternalView>)
    ensures
        all_fit(layout::external_nodes(files)),
{
    let nodes = layout::external_nodes(files);
    assert forall|i: int| 0 <= i < nodes.len() implies node_fits(#[trigger] nodes[i]) by {
        assert(nodes[i] == layout::external_node(files[i]));
    }
}

proof fn lemma_container_fits(name: Text, class_name: Text, children: Seq<NodeView>)
    requires
        all_fit(children),
    ensures
        node_fits(layout::container_node(name, class_name, children)),
{
    let node = layout::container_node(name, class_name, children);
    assert(node.children == children);
}

proof fn lemma_dir_fits(dir: DirView, keep_init: bool, with_data: bool)
    ensures
        all_fit(layout::directory_children(dir, keep_init, with_data)),
    decreases dir, 1nat,
{
    let scripts = layout::script_nodes(dir.scripts, keep_init);
    let files = if with_data {
        layout::external_nodes(dir.external_files)
    } else {
        Seq::empty()
    };
    let dirs = layout::directory_nodes(dir.directories, with_data);
    lemma_scripts_fit(dir.scripts, keep_init);
    lemma_externals_fit(dir.external_files);
    lemma_dirs_fit(dir.directories, with_data);
    lemma_append_fit(scripts, files);
    lemma_append_fit(scripts + files, dirs);
    lemma_sorted_fit(scripts + files + dirs);
}

proof fn lemma_directory_fits(name: Text, dir: DirView, with_data: bool)
    ensures
        all_fit(layout::listed(layout::directory_node(name, dir, with_data))),
    decreases dir, 2nat,
{
    let shared = with_data && layout::is_folder(name, dir);
    lemma_dir_fits(dir, false, shared);
    let children = layout::directory_children(dir, false, shared);
    lemma_container_fits(name, "Folder"@, children);
    if let Some(class) = layout::special_class(name) {
        lemma_container_fits(name, class, children);
    }
    if let Some(node) = layout::directory_node(name, dir, with_data) {
        assert(node.children == children);
        assert(node_fits(node));
    }
}

proof fn lemma_entry_fits(name: Text, dir: DirView, with_data: bool)
    ensures
        all_fit(layout::directory_entry(name, dir, with_data)),
    decreases dir, 3nat,
{
    let own = layout::listed(layout::directory_node(name, dir, with_data));
    lemma_directory_fits(name, dir, with_data);
    if with_data && !layout::is_folder(name, dir) {
        lemma_plain_fits(name, dir);
        lemma_append_fit(own, layout::listed(layout::plain_node(name, dir)));
    } else {
        lemma_append_fit(own, Seq::empty());
    }
}

proof fn lemma_dirs_fit(dirs: Seq<(Text, DirView)>, with_data: bool)
    ensures
        all_fit(layout::directory_nodes(dirs, with_data)),
    decreases dirs, 0nat,
{
    if dirs.len() > 0 {
        lemma_dirs_fit(dirs.drop_last(), with_data);
        lemma_entry_fits(dirs.last().0, dirs.last().1, with_data);
        lemma_append_fit(
            layout::directory_nodes(dirs.drop_last(), with_data),
            layout::directory_entry(dirs.last().0, dirs.last().1, with_data),
        );
    }
}

proof fn lemma_plain_dirs_fit(dirs: Seq<(Text, DirView)>)
    ensures
        all_fit(layout::plain_nodes(dirs)),
    decreases dirs, 0nat,
{
    if dirs.len() > 0 {
        lemma_plain_dirs_fit(dirs.drop_last());
        lemma_plain_fits(dirs.last().0, dirs.last().1);
        lemma_append_fit(
            layout::plain_nodes(dirs.drop_last()),
            layout::listed(layout::plain_node(dirs.last().0, dirs.last().1)),
        );
    }
}

proof fn lemma_plain_fits(name: Text, dir: DirView)
    ensures
        all_fit(layout::listed(layout::plain_node(name, dir))),
    decreases dir, 1nat,
{
    let files = layout::external_nodes(dir.external_files);
    let dirs = layout::plain_nodes(dir.directories);
    lemma_externals_fit(dir.external_files);
    lemma_plain_dirs_fit(dir.directories);
    lemma_append_fit(files, dirs);
    lemma_sorted_fit(files + dirs);
    lemma_container_fits(name, "Folder"@, layout::plain_children(dir));
}

/// Whether all mounts can hold what they are given.
spec fn mounts_fit(mounts: Seq<MountView>) -> bool {
    forall|i: int| 0 <= i < mounts.len() ==> mount_fits(#[trigger] mounts[i])
}

proof fn lemma_mounts_append(a: Seq<MountView>, b: Seq<MountView>)
    requires
        mounts_fit(a),
        mounts_fit(b),
    ensures
        mounts_fit(a + b),
{
    let all = a + b;
    assert forall|i: int| 0 <= i < all.len() implies mount_fits(#[trigger] all[i]) by {
        if i < a.len() {
            assert(all[i] == a[i]);
        } else {
            assert(all[i] == b[i - a.len()]);
        }
    }
}

proof fn lemma_mounts_fit(dirs: Seq<(Text, DirView)>)
    ensures
        mounts_fit(layout::directory_mounts(dirs)),
    decreases dirs.len(),
{
    if dirs.len() > 0 {
        let name = dirs.last().0;
        let dir = dirs.last().1;
        lemma_mounts_fit(dirs.drop_last());
        if layout::goes_below_service(name) {
            lemma_dir_fits(dir, true, false);
            let children = layout::directory_children(dir, true, false);
            lemma_container_fits(name, "StarterPlayerScripts"@, children);
            let plain = layout::listed(layout::plain_node(name, dir));
            lemma_plain_fits(name, dir);
            lemma_children_fit(plain);
            assert(mounts_fit(layout::service_mount(name, dir)));
            lemma_mounts_append(layout::service_mount(name, dir), layout::child_mounts(plain));
        } else {
            lemma_entry_fits(name, dir, true);
            lemma_children_fit(layout::directory_entry(name, dir, true));
        }
        lemma_mounts_append(
            layout::directory_mounts(dirs.drop_last()),
            layout::directory_mount(name, dir),
        );
    }
}

proof fn lemma_children_fit(nodes: Seq<NodeView>)
    requires
        all_fit(nodes),
    ensures
        mounts_fit(layout::child_mounts(nodes)),
{
    let all = layout::child_mounts(nodes);
    assert forall|i: int| 0 <= i < all.len() implies mount_fits(#[trigger] all[i]) by {
        assert(node_fits(nodes[i]));
    }
}

/// The plan of every project can be carried out, as long as there is room for its instances and the
/// data model and the services are alive.
pub proof fn law_projects_can_be_loaded(
    rt: RuntimeView,
    scripts: Seq<ScriptView>,
    files: Seq<ExternalView>,
)
    requires
        rt.wf(),
        moves::consistent(rt.instances),
        open_for_loading(rt),
        rt.next_id + loader::plan_of(rt, layout::mounts_of(scripts, files)).nodes.len() < u64::MAX,
        rt.instances.len() + loader::plan_of(rt, layout::mounts_of(scripts, files)).nodes.len() < usize::MAX,
    ensures
        loadable(rt, loader::plan_of(rt, layout::mounts_of(scripts, files)).nodes),
{
    let root = layout::root_dir(scripts, files);
    let mounts = layout::mounts_of(scripts, files);
    let tops = layout::script_nodes(root.scripts, false);
    let data = layout::external_nodes(root.external_files);
    lemma_scripts_fit(root.scripts, false);
    lemma_externals_fit(root.external_files);
    lemma_mounts_fit(root.directories);
    lemma_children_fit(tops);
    lemma_children_fit(data);
    lemma_mounts_append(layout::child_mounts(tops), layout::child_mounts(data));
    lemma_mounts_append(
        layout::child_mounts(tops) + layout::child_mounts(data),
        layout::directory_mounts(root.directories),
    );
    lemma_plan_fits(rt, mounts);
}

// ---------------------------------------------------------------------------------------------
// From the layout to the runtime
// ---------------------------------------------------------------------------------------------

/// Whether the instance at a position is what a node of a layout describes, below the given parent:
/// it has the class and the name of the node, its source code and its value as properties, and it is
/// among the scripts to be run where the node is to run and its class does in this mode. Everything
/// below the node stands likewise below the instance, each node behind those before it.
pub open spec fn stands_for(end: LoadEnd, at: int, parent: usize, node: NodeView) -> bool
    decreases node,
{
    let found = end.rt.instances[at];
    &&& 0 <= at < end.rt.instances.len()
    &&& found.class_name == node.class_name
    &&& found.name == node.name
    &&& found.parent == Some(parent)
    &&& end.rt.instances[parent as int].children.contains(at as usize)
    &&& !found.destroyed
    &&& !found.client_authoritative
    &&& node.source matches Some(source) ==> found.properties.contains_key("Source"@)
        && found.properties["Source"@] == ValueView::String(source)
    &&& node.value matches Some(bytes) ==> found.properties.contains_key("Value"@)
        && found.properties["Value"@] == ValueView::BinaryString(bytes)
    &&& found.script_path is Some <==> node.script_path is Some
    &&& node.script_path matches Some(path) ==> path::components(found.script_path->Some_0)
        == path::components(path)
    &&& end.auto_run.contains(at as usize) <==> node.auto_run && node.class_name == (match end.rt.mode {
        RuntimeMode::Server => "Script"@,
        RuntimeMode::Client => "LocalScript"@,
    })
    &&& forall|k: int|
        0 <= k < node.children.len() ==> stands_for(
            end,
            at + 1 + rbxlx::nodes_count(node.children.take(k)),
            at as usize,
            #[trigger] node.children[k],
        )
}

/// Whether a part of a plan stands in it from a position on.
spec fn part_at(nodes: Seq<PlanNodeView>, part: Seq<PlanNodeView>, at: int) -> bool {
    &&& 0 <= at
    &&& at + part.len() <= nodes.len()
    &&& forall|t: int| 0 <= t < part.len() ==> #[trigger] part[t] == nodes[at + t]
}

proof fn lemma_part_of_list(nodes: Seq<NodeView>, top: PlanParent, base: nat, k: int)
    requires
        0 <= k < nodes.len(),
    ensures
        part_at(
            loader::plan_list(nodes, top, base),
            loader::plan_node(nodes[k], top, base + rbxlx::nodes_count(nodes.take(k))),
            rbxlx::nodes_count(nodes.take(k)) as int,
        ),
    decreases nodes.len(),
{
    let init = nodes.drop_last();
    let before = loader::plan_list(init, top, base);
    loader::lemma_plan_list_count(init, top, base);
    assert(nodes.take(nodes.len() - 1) =~= init);
    if k < init.len() {
        lemma_part_of_list(init, top, base, k);
        assert(init.take(k) =~= nodes.take(k));
        assert(init[k] == nodes[k]);
        let part = loader::plan_node(nodes[k], top, base + rbxlx::nodes_count(nodes.take(k)));
        let all = loader::plan_list(nodes, top, base);
        let at = rbxlx::nodes_count(nodes.take(k)) as int;
        assert forall|t: int| 0 <= t < part.len() implies #[trigger] part[t] == all[at + t] by {
            assert(part[t] == before[at + t]);
        }
    }
}

proof fn lemma_part_within(nodes: Seq<PlanNodeView>, middle: Seq<PlanNodeView>, a: int, part: Seq<PlanNodeView>, b: int)
    requires
        part_at(nodes, middle, a),
        part_at(middle, part, b),
    ensures
        part_at(nodes, part, a + b),
{
    assert forall|t: int| 0 <= t < part.len() implies #[trigger] part[t] == nodes[a + b + t] by {
        assert(part[t] == middle[b + t]);
    }
}

/// What a part of a plan describes is there when the plan is carried out.
proof fn lemma_stands(start: RuntimeView, plan: PlanView, at: int, top: PlanParent, node: NodeView)
    requires
        loadable(start, plan.nodes),
        part_at(plan.nodes, loader::plan_node(node, top, at as nat), at),
    ensures
        ({
            let base = start.instances.len() as int;
            stands_for(
                loader::load_rest(start, loader::new_loader(plan)),
                base + at,
                parent_position(top, base) as usize,
                node,
            )
        }),
    decreases node,
{
    let base = start.instances.len() as int;
    let end = loader::load_rest(start, loader::new_loader(plan));
    let part = loader::plan_node(node, top, at as nat);
    let below = loader::plan_list(node.children, PlanParent::Made(at as usize), (at + 1) as nat);
    law_loading_builds_the_plan(start, plan);
    law_disabled_scripts_do_not_run(start, plan, at);
    assert(part == seq![loader::planned(node, top)] + below);
    assert(part[0] == plan.nodes[at]);
    let found = end.rt.instances[base + at];
    assert(loader::parent_ok(plan.nodes[at].parent, start.instances.len(), at));
    assert(found.parent == Some(parent_position(top, base) as usize));
    assert(end.rt.instances[parent_position(top, base) as usize as int].children.contains(
        (base + at) as usize,
    ));
    lemma_source_name();
    lemma_value_name();
    if let Some(path) = node.script_path {
        path::law_normalized_components(path);
    }
    assert forall|k: int| 0 <= k < node.children.len() implies stands_for(
        end,
        base + at + 1 + rbxlx::nodes_count(node.children.take(k)),
        (base + at) as usize,
        #[trigger] node.children[k],
    ) by {
        let off = rbxlx::nodes_count(node.children.take(k)) as int;
        lemma_part_of_list(
            node.children,
            PlanParent::Made(at as usize),
            (at + 1) as nat,
            k,
        );
        assert(part_at(part, below, 1));
        lemma_part_within(plan.nodes, part, at, below, 1);
        let inner = loader::plan_node(
            node.children[k],
            PlanParent::Made(at as usize),
            (at + 1 + off) as nat,
        );
        lemma_part_within(plan.nodes, below, at + 1, inner, off);
        lemma_stands(start, plan, at + 1 + off, PlanParent::Made(at as usize), node.children[k]);
    }
}

/// What a mount becomes stands in the plan.
proof fn lemma_mount_part(rt: RuntimeView, mounts: Seq<MountView>, i: int) -> (at: int)
    requires
        0 <= i < mounts.len(),
        loader::plan_of(rt, mounts).stop is None,
    ensures
        mounts[i] matches MountView::DataModelChild(node) ==> part_at(
            loader::plan_of(rt, mounts).nodes,
            loader::plan_node(node, PlanParent::Existing(rt.data_model), at as nat),
            at,
        ),
        mounts[i] matches MountView::ServiceContents { service_name, children }
            && runtime::visible(rt.mode, service_name) ==> runtime::service_named(
            rt,
            mounts[i]->service_name,
        ) is Ok && part_at(
            loader::plan_of(rt, mounts).nodes,
            loader::plan_list(
                mounts[i]->children,
                PlanParent::Existing(runtime::service_named(rt, mounts[i]->service_name)->Ok_0),
                at as nat,
            ),
            at,
        ),
    decreases mounts.len(),
{
    let init = mounts.drop_last();
    let before = loader::plan_of(rt, init);
    let all = loader::plan_of(rt, mounts).nodes;
    assert(before.stop is None);
    if i < init.len() {
        assert(init[i] == mounts[i]);
        let at = lemma_mount_part(rt, init, i);
        assert(part_at(all, before.nodes, 0));
        match mounts[i] {
            MountView::DataModelChild(node) => {
                lemma_part_within(
                    all,
                    before.nodes,
                    0,
                    loader::plan_node(node, PlanParent::Existing(rt.data_model), at as nat),
                    at,
                );
            },
            MountView::ServiceContents { service_name, children } => {
                if runtime::visible(rt.mode, service_name) {
                    let service = runtime::service_named(rt, service_name)->Ok_0;
                    lemma_part_within(
                        all,
                        before.nodes,
                        0,
                        loader::plan_list(children, PlanParent::Existing(service), at as nat),
                        at,
                    );
                }
            },
        }
        at
    } else {
        before.nodes.len() as int
    }
}

/// Whether what goes below a service of this name is loaded: a client does not load what is the
/// server's own.
pub open spec fn loaded_in(mode: RuntimeMode, service_name: Text) -> bool {
    mode == RuntimeMode::Server || (service_name != "ServerStorage"@ && service_name
        != "ServerScriptService"@)
}

/// When a layout has been loaded, each of its nodes has an instance that is what the node describes,
/// with the source code and the value of the node, below the data model or below the service that the
/// layout says. What goes below a service that is the server's own is loaded by servers only.
pub proof fn law_layouts_are_built(start: RuntimeView, mounts: Seq<MountView>, i: int, k: int)
    requires
        0 <= i < mounts.len(),
        loadable(start, loader::plan_of(start, mounts).nodes),
        loader::plan_of(start, mounts).stop is None,
        mounts[i] matches MountView::ServiceContents { service_name, children } && 0 <= k
            < children.len() && loaded_in(start.mode, service_name) || mounts[i] is DataModelChild,
    ensures
        ({
            let end = loader::load_rest(start, loader::new_loader(loader::plan_of(start, mounts)));
            match mounts[i] {
                MountView::DataModelChild(node) => exists|at: int|
                    start.instances.len() <= at && #[trigger] stands_for(
                        end,
                        at,
                        start.data_model,
                        node,
                    ),
                MountView::ServiceContents { service_name, children } => start.services.contains_key(
                    text::lower(service_name),
                ) && exists|at: int|
                    start.instances.len() <= at && #[trigger] stands_for(
                        end,
                        at,
                        start.services[text::lower(service_name)],
                        children[k],
                    ),
            }
        }),
{
    let plan = loader::plan_of(start, mounts);
    let base = start.instances.len() as int;
    let at = lemma_mount_part(start, mounts, i);
    let end = loader::load_rest(start, loader::new_loader(plan));
    match mounts[i] {
        MountView::DataModelChild(node) => {
            lemma_stands(start, plan, at, PlanParent::Existing(start.data_model), node);
            assert(stands_for(end, base + at, start.data_model, node));
        },
        MountView::ServiceContents { service_name, children } => {
            let service = start.services[text::lower(service_name)];
            let top = PlanParent::Existing(service);
            let off = rbxlx::nodes_count(children.take(k)) as int;
            let list = loader::plan_list(children, top, at as nat);
            lemma_part_of_list(children, top, at as nat, k);
            let inner = loader::plan_node(children[k], top, (at + off) as nat);
            lemma_part_within(plan.nodes, list, at, inner, off);
            lemma_stands(start, plan, at + off, top, children[k]);
            assert(stands_for(end, base + at + off, service, children[k]));
        },
    }
}

/// The scripts that run by themselves are new instances, in the order in which they were made: a server
/// runs instances of `Script`, and a client those of `LocalScript`.
pub proof fn law_scripts_run_in_order(start: RuntimeView, plan: PlanView, i: int)
    requires
        loadable(start, plan.nodes),
        0 <= i < loader::load_rest(start, loader::new_loader(plan)).auto_run.len(),
    ensures
        ({
            let end = loader::load_rest(start, loader::new_loader(plan));
            let at = end.auto_run[i];
            &&& start.instances.len() <= at < end.rt.instances.len()
            &&& end.rt.instances[at as int].class_name == (match start.mode {
                RuntimeMode::Server => "Script"@,
                RuntimeMode::Client => "LocalScript"@,
            })
            &&& forall|j: int| i < j < end.auto_run.len() ==> at < #[trigger] end.auto_run[j]
        }),
{
    law_loading_builds_the_plan(start, plan);
    let base = start.instances.len() as int;
    let n = plan.nodes.len() as int;
    let end = loader::load_rest(start, loader::new_loader(plan));
    lemma_running_order(start.mode, plan.nodes, base, n);
    let at = end.auto_run[i];
    assert(built(end.rt.instances[base + (at - base)], plan.nodes[at - base], base));
}

proof fn lemma_running_order(mode: RuntimeMode, nodes: Seq<PlanNodeView>, base: int, n: int)
    requires
        0 <= n <= nodes.len(),
        0 <= base,
        base + nodes.len() <= usize::MAX,
    ensures
        forall|i: int|
            0 <= i < running(mode, nodes, base, n).len() ==> {
                let at = #[trigger] running(mode, nodes, base, n)[i];
                base <= at < base + n && runs_by_itself(mode, nodes[at - base])
            },
        forall|i: int, j: int|
            0 <= i < j < running(mode, nodes, base, n).len() ==> (#[trigger] running(
                mode,
                nodes,
                base,
                n,
            )[i]) < (#[trigger] running(mode, nodes, base, n)[j]),
    decreases n,
{
    if n > 0 {
        lemma_running_order(mode, nodes, base, n - 1);
        let before = running(mode, nodes, base, n - 1);
        let all = running(mode, nodes, base, n);
        assert(all == before || all == before.push((base + n - 1) as usize));
        assert forall|i: int| 0 <= i < all.len() implies {
            let at = #[trigger] all[i];
            base <= at < base + n && runs_by_itself(mode, nodes[at - base])
        } by {
            if i < before.len() {
                assert(all[i] == before[i]);
            }
        }
        assert forall|i: int, j: int| 0 <= i < j < all.len() implies (#[trigger] all[i]) < (
        #[trigger] all[j]) by {
            assert(all[i] == before[i]);
            if j < before.len() {
                assert(all[j] == before[j]);
            }
        }
    }
}

/// How many nodes the mounts hold that are loaded in a mode.
pub open spec fn nodes_to_load(mode: RuntimeMode, mounts: Seq<MountView>) -> nat
    decreases mounts.len(),
{
    if mounts.len() == 0 {
        0
    } else {
        nodes_to_load(mode, mounts.drop_last()) + (match mounts.last() {
            MountView::DataModelChild(node) => rbxlx::node_count(node),
            MountView::ServiceContents { service_name, children } => if loaded_in(mode, service_name) {
                rbxlx::nodes_count(children)
            } else {
                0
            },
        })
    }
}

/// Loading a layout makes one instance for each node that is loaded, and no others: what was there
/// before only gains children.
pub proof fn law_nothing_else_is_built(start: RuntimeView, mounts: Seq<MountView>, i: int)
    requires
        loadable(start, loader::plan_of(start, mounts).nodes),
        loader::plan_of(start, mounts).stop is None,
        0 <= i < start.instances.len(),
    ensures
        ({
            let end = loader::load_rest(start, loader::new_loader(loader::plan_of(start, mounts)));
            let before = start.instances[i];
            let now = end.rt.instances[i];
            &&& end.rt.instances.len() == start.instances.len() + nodes_to_load(start.mode, mounts)
            &&& now == (InstanceView { children: now.children, ..before })
            &&& before.children.is_prefix_of(now.children)
            &&& end.rt.mode == start.mode
            &&& end.rt.services == start.services
            &&& end.rt.data_model == start.data_model
            &&& end.rt.local_player == start.local_player
        }),
{
    let plan = loader::plan_of(start, mounts);
    law_loading_builds_the_plan(start, plan);
    lemma_plan_size(start, mounts);
    let end = loader::load_rest(start, loader::new_loader(plan));
    assert(only_gained_children(start.instances[i], end.rt.instances[i]));
}

proof fn lemma_plan_size(rt: RuntimeView, mounts: Seq<MountView>)
    requires
        loader::plan_of(rt, mounts).stop is None,
    ensures
        loader::plan_of(rt, mounts).nodes.len() == nodes_to_load(rt.mode, mounts),
    decreases mounts.len(),
{
    if mounts.len() > 0 {
        let before = loader::plan_of(rt, mounts.drop_last());
        assert(before.stop is None);
        lemma_plan_size(rt, mounts.drop_last());
        match mounts.last() {
            MountView::DataModelChild(node) => {
                loader::lemma_plan_count(node, PlanParent::Existing(rt.data_model), before.nodes.len());
            },
            MountView::ServiceContents { service_name, children } => {
                if let Ok(service) = runtime::service_named(rt, service_name) {
                    loader::lemma_plan_list_count(
                        children,
                        PlanParent::Existing(service),
                        before.nodes.len(),
                    );
                }
            },
        }
    }
}

} // verus!
