//! What holds of the runtime as a whole: how it starts, what is kept by every operation, and what a
//! copy has in common with what was copied.

use vstd::prelude::*;
use vstd::string::*;

use crate::instance::{self, InstanceView, ValueView};
use crate::lua_api::{self, LuaView};
use crate::moves;
use crate::project::{self, ScriptKind};
use crate::runtime::{self, FiringView, RuntimeMode, RuntimeView};
use crate::signal::ArgView;
use crate::text::{self, Text};
use crate::tree;

verus! {

// ---------------------------------------------------------------------------------------------
// Children and parents
// ---------------------------------------------------------------------------------------------

/// Whether children and parents tell the same story and stay among the instances.
pub open spec fn neat(nodes: Seq<InstanceView>) -> bool {
    &&& moves::consistent(nodes)
    &&& forall|p: int, k: int|
        0 <= p < nodes.len() && 0 <= k < nodes[p].children.len() ==> #[trigger] nodes[p].children[k]
            < nodes.len()
    &&& forall|c: int|
        0 <= c < nodes.len() ==> ((#[trigger] nodes[c]).parent matches Some(p) ==> p < nodes.len())
}

/// In a runtime the story stays among the instances.
pub proof fn lemma_neat(rt: RuntimeView)
    requires
        rt.wf(),
        moves::consistent(rt.instances),
    ensures
        neat(rt.instances),
{
    let nodes = rt.instances;
    assert forall|p: int, k: int|
        0 <= p < nodes.len() && 0 <= k < nodes[p].children.len() implies #[trigger] nodes[p].children[k]
        < nodes.len() by {
        assert(instance::kids_of(nodes)[p][k] == nodes[p].children[k]);
    }
    assert forall|c: int| 0 <= c < nodes.len() implies ((#[trigger] nodes[c]).parent matches Some(
        p,
    ) ==> p < nodes.len()) by {
        tree::lemma_lineage(instance::ups_of(nodes), c as usize);
        assert(instance::ups_of(nodes)[c] == nodes[c].parent);
    }
}

/// Adding an instance outside the tree keeps the story of children and parents.
pub proof fn lemma_new_neat(rt: RuntimeView, instance: InstanceView)
    requires
        neat(rt.instances),
        instance.parent is None,
        instance.children.len() == 0,
        rt.instances.len() < usize::MAX,
    ensures
        neat(runtime::with_new(rt, instance).instances),
{
    let nodes = rt.instances;
    let after = runtime::with_new(rt, instance).instances;
    assert forall|p: int, k: int|
        0 <= p < after.len() && 0 <= k < after[p].children.len() implies after[#[trigger]
    after[p].children[k] as int].parent == Some(p as usize) && after[p].children[k]
        < after.len() by {
        assert(after[p].children == nodes[p].children);
        assert(nodes[nodes[p].children[k] as int].parent == Some(p as usize));
    }
    assert forall|c: int| 0 <= c < after.len() implies ((#[trigger] after[c]).parent matches Some(
        p,
    ) ==> after[p as int].children.contains(c as usize) && p < after.len()) by {
        if c < nodes.len() {
            assert(after[c] == nodes[c]);
            if let Some(p) = nodes[c].parent {
                assert(p < nodes.len());
                assert(after[p as int] == nodes[p as int]);
            }
        }
    }
    assert forall|p: int| 0 <= p < after.len() implies (
    #[trigger] after[p]).children.no_duplicates() by {
        if p < nodes.len() {
            assert(nodes[p].children.no_duplicates());
        }
    }
}

proof fn lemma_child_neat(rt: RuntimeView, instance: InstanceView, parent: usize)
    requires
        neat(rt.instances),
        instance.children.len() == 0,
        parent < rt.instances.len(),
        rt.instances.len() < usize::MAX,
    ensures
        neat(runtime::with_child(rt, instance, parent).instances),
{
    let nodes = rt.instances;
    let new = nodes.len() as usize;
    let after = runtime::with_child(rt, instance, parent).instances;
    assert forall|p: int| 0 <= p < nodes.len() implies (#[trigger] after[p]).children == (if p
        == parent {
        nodes[p].children.push(new)
    } else {
        nodes[p].children
    }) && after[p].parent == nodes[p].parent by {}
    assert forall|p: int, k: int|
        0 <= p < after.len() && 0 <= k < after[p].children.len() implies after[#[trigger]
    after[p].children[k] as int].parent == Some(p as usize) && after[p].children[k]
        < after.len() by {
        if p == parent && k == nodes[p].children.len() {
            assert(after[p].children[k] == new);
        } else {
            assert(after[p].children[k] == nodes[p].children[k]);
            assert(nodes[nodes[p].children[k] as int].parent == Some(p as usize));
        }
    }
    assert forall|c: int| 0 <= c < after.len() implies ((#[trigger] after[c]).parent matches Some(
        p,
    ) ==> after[p as int].children.contains(c as usize) && p < after.len()) by {
        if c < nodes.len() {
            if let Some(p) = nodes[c].parent {
                assert(p < nodes.len());
                let list = nodes[p as int].children;
                assert(list.contains(c as usize));
                let j = choose|j: int| 0 <= j < list.len() && list[j] == c as usize;
                assert(after[p as int].children[j] == c as usize);
            }
        } else {
            let list = nodes[parent as int].children;
            assert(after[parent as int].children[list.len() as int] == new);
        }
    }
    assert forall|p: int| 0 <= p < after.len() implies (
    #[trigger] after[p]).children.no_duplicates() by {
        if p < nodes.len() {
            let list = nodes[p].children;
            assert(list.no_duplicates());
            if p == parent {
                let more = list.push(new);
                assert forall|i: int, j: int| 0 <= i < more.len() && 0 <= j < more.len() && i
                    != j implies more[i] != more[j] by {
                    if i < list.len() {
                        assert(nodes[p].children[i] < nodes.len());
                    }
                    if j < list.len() {
                        assert(nodes[p].children[j] < nodes.len());
                    }
                }
            }
        }
    }
}

/// Making an instance keeps the story of children and parents.
pub proof fn law_create_keeps_the_tree(rt: RuntimeView, class_name: Text)
    requires
        rt.wf(),
        moves::consistent(rt.instances),
        rt.instances.len() < usize::MAX,
    ensures
        moves::consistent(runtime::with_new(rt, runtime::made_instance(rt, class_name)).instances),
{
    lemma_neat(rt);
    lemma_new_neat(rt, runtime::made_instance(rt, class_name));
}

// ---------------------------------------------------------------------------------------------
// How a runtime starts
// ---------------------------------------------------------------------------------------------

/// Whether the services of a runtime are the visible ones of the given, each below the data model.
spec fn serves(rt: RuntimeView, names: Seq<Text>) -> bool {
    forall|k: int|
        0 <= k < names.len() ==> if runtime::visible(rt.mode, #[trigger] names[k]) {
            &&& rt.services.contains_key(text::lower(names[k]))
            &&& rt.services[text::lower(names[k])] < rt.instances.len()
            &&& service_instance(
                rt.instances[rt.services[text::lower(names[k])] as int],
                names[k],
                rt.data_model,
            )
        } else {
            !rt.services.contains_key(text::lower(names[k]))
        }
}

/// Whether an instance is the service of the given name.
pub open spec fn service_instance(instance: InstanceView, name: Text, data_model: usize) -> bool {
    &&& instance.class_name == name
    &&& instance.name == name
    &&& instance.is_service
    &&& instance.parent == Some(data_model)
    &&& !instance.destroyed
}

spec fn apart(names: Seq<Text>) -> bool {
    forall|i: int, j: int|
        0 <= i < j < names.len() ==> text::lower(#[trigger] names[i]) != text::lower(#[trigger] names[j])
}

proof fn lemma_services(rt: RuntimeView, names: Seq<Text>, mode: RuntimeMode)
    requires
        rt == runtime::bare_runtime(mode),
        names.len() <= 100,
        apart(names),
    ensures
        ({
            let after = runtime::with_services(rt, names);
            &&& serves(after, names)
            &&& neat(after.instances)
            &&& after.mode == mode
            &&& after.data_model == 0
            &&& after.local_player is None
            &&& 1 <= after.instances.len() <= 1 + names.len()
            &&& forall|key: Text| #[trigger]
                after.services.contains_key(key) ==> exists|k: int|
                    0 <= k < names.len() && key == text::lower(#[trigger] names[k])
        }),
    decreases names.len(),
{
    if names.len() == 0 {
        let nodes = rt.instances;
        assert(nodes[0].children =~= Seq::empty());
        assert(neat(nodes));
    } else {
        let init = names.drop_last();
        let name = names.last();
        assert forall|i: int, j: int| 0 <= i < j < init.len() implies text::lower(#[trigger] init[i])
            != text::lower(#[trigger] init[j]) by {
            assert(text::lower(names[i]) != text::lower(names[j]));
        }
        lemma_services(rt, init, mode);
        let mid = runtime::with_services(rt, init);
        let after = runtime::with_services(rt, names);
        let leaf = instance::new_instance(mid.next_id, name, name, true);
        if runtime::visible(mode, name) {
            lemma_child_neat(mid, leaf, 0);
        }
        assert forall|k: int| 0 <= k < names.len() implies if runtime::visible(after.mode, #[trigger] names[k]) {
            &&& after.services.contains_key(text::lower(names[k]))
            &&& after.services[text::lower(names[k])] < after.instances.len()
            &&& service_instance(
                after.instances[after.services[text::lower(names[k])] as int],
                names[k],
                after.data_model,
            )
        } else {
            !after.services.contains_key(text::lower(names[k]))
        } by {
            if k < init.len() {
                assert(init[k] == names[k]);
                assert(text::lower(names[k]) != text::lower(names[names.len() - 1]));
                if runtime::visible(mode, names[k]) {
                    let at = mid.services[text::lower(names[k])] as int;
                    assert(service_instance(mid.instances[at], names[k], mid.data_model));
                }
            } else if mid.services.contains_key(text::lower(name)) {
                let j = choose|j: int| 0 <= j < init.len() && text::lower(name) == text::lower(#[trigger] init[j]);
                assert(text::lower(names[j]) != text::lower(names[names.len() - 1]));
            }
        }
        assert forall|key: Text| #[trigger] after.services.contains_key(key) implies exists|k: int|
            0 <= k < names.len() && key == text::lower(#[trigger] names[k]) by {
            if mid.services.contains_key(key) {
                let j = choose|j: int| 0 <= j < init.len() && key == text::lower(#[trigger] init[j]);
                assert(key == text::lower(names[j]));
            } else {
                assert(key == text::lower(names[names.len() - 1]));
            }
        }
    }
}

proof fn lemma_default_services_apart()
    ensures
        apart(runtime::default_services()),
        runtime::default_services().len() == 9,
        runtime::default_services()[5] == "Players"@,
        text::lower("Players"@) == "players"@,
{
    reveal_strlit("Workspace");
    reveal_strlit("ReplicatedStorage");
    reveal_strlit("ServerStorage");
    reveal_strlit("ServerScriptService");
    reveal_strlit("Lighting");
    reveal_strlit("Players");
    reveal_strlit("RunService");
    reveal_strlit("HttpService");
    reveal_strlit("TweenService");
    reveal_strlit("players");
    let names = runtime::default_services();
    assert(names[0].len() == 9);
    assert(names[1].len() == 17);
    assert(names[2].len() == 13);
    assert(names[3].len() == 19);
    assert(names[4].len() == 8);
    assert(names[5].len() == 7);
    assert(names[6].len() == 10);
    assert(names[7].len() == 11);
    assert(names[8].len() == 12);
    assert forall|i: int, j: int| 0 <= i < j < names.len() implies text::lower(#[trigger] names[i])
        != text::lower(#[trigger] names[j]) by {
        assert(names[i].len() != names[j].len());
        assert(text::lower(names[i]).len() == names[i].len());
        assert(text::lower(names[j]).len() == names[j].len());
    }
    assert(text::lower("Players"@) =~= "players"@);
}

/// Whether a runtime has a player of its own, below `Players`.
pub open spec fn has_local_player(rt: RuntimeView) -> bool {
    match rt.local_player {
        Some(p) => {
            let player = rt.instances[p as int];
            &&& p < rt.instances.len()
            &&& player.class_name == "Player"@
            &&& player.name == "LocalPlayer"@
            &&& player.parent is Some
            &&& runtime::service_named(rt, "Players"@) == Ok::<usize, Text>(player.parent->Some_0)
        },
        None => false,
    }
}

/// A new runtime has each service that its mode lets it see, below the data model and under its own
/// name, and no other of them: a client has neither `ServerStorage` nor `ServerScriptService`. A
/// client has a player of its own below `Players`, a server has none. Children and parents tell the
/// same story.
pub proof fn law_new_runtime(mode: RuntimeMode, k: int)
    requires
        0 <= k < runtime::default_services().len(),
    ensures
        ({
            let rt = runtime::new_runtime(mode);
            let name = runtime::default_services()[k];
            &&& moves::consistent(rt.instances)
            &&& rt.mode == mode
            &&& match runtime::service_named(rt, name) {
                Ok(i) => runtime::visible(mode, name) && i < rt.instances.len() && service_instance(
                    rt.instances[i as int],
                    name,
                    rt.data_model,
                ),
                Err(_) => !runtime::visible(mode, name),
            }
        }),
        runtime::new_runtime(RuntimeMode::Server).local_player is None,
        has_local_player(runtime::new_runtime(RuntimeMode::Client)),
{
    let names = runtime::default_services();
    lemma_default_services_apart();
    lemma_start(mode, k);
    lemma_start(RuntimeMode::Client, 5);
    lemma_start(RuntimeMode::Server, 5);
}

proof fn lemma_start(mode: RuntimeMode, k: int)
    requires
        0 <= k < runtime::default_services().len(),
    ensures
        ({
            let rt = runtime::new_runtime(mode);
            let name = runtime::default_services()[k];
            &&& neat(rt.instances)
            &&& rt.mode == mode
            &&& match runtime::service_named(rt, name) {
                Ok(i) => runtime::visible(mode, name) && i < rt.instances.len() && service_instance(
                    rt.instances[i as int],
                    name,
                    rt.data_model,
                ),
                Err(_) => !runtime::visible(mode, name),
            }
            &&& mode == RuntimeMode::Server ==> rt.local_player is None
            &&& mode == RuntimeMode::Client ==> has_local_player(rt)
        }),
{
    let names = runtime::default_services();
    lemma_default_services_apart();
    lemma_services(runtime::bare_runtime(mode), names, mode);
    let mid = runtime::with_services(runtime::bare_runtime(mode), names);
    assert(runtime::visible(mode, names[k]) == mid.services.contains_key(text::lower(names[k])));
    lemma_players_shown(mode);
    assert(mid.services.contains_key(text::lower(names[5])));
    let players = mid.services["players"@];
    assert(service_instance(mid.instances[players as int], "Players"@, mid.data_model));
    if mode == RuntimeMode::Client {
        let quiet = runtime::with_instance(
            mid,
            players,
            instance::with_property(
                mid.instances[players as int],
                "CharacterAutoLoads"@,
                ValueView::Bool(false),
            ),
        );
        lemma_quiet(mid.instances[players as int]);
        lemma_same_story(mid.instances, quiet.instances);
        let player = instance::with_property(
            instance::new_instance(mid.next_id, "Player"@, "LocalPlayer"@, false),
            "DisplayName"@,
            ValueView::String("LocalPlayer"@),
        );
        lemma_player_named(mid.next_id);
        lemma_child_neat(quiet, player, players);
        if runtime::visible(mode, names[k]) {
            let at = mid.services[text::lower(names[k])] as int;
            assert(service_instance(mid.instances[at], names[k], mid.data_model));
        }
    }
}

proof fn lemma_players_shown(mode: RuntimeMode)
    ensures
        runtime::visible(mode, "Players"@),
{
    reveal_strlit("Players");
    reveal_strlit("ServerStorage");
    reveal_strlit("ServerScriptService");
    assert("Players"@.len() == 7);
    assert("ServerStorage"@.len() == 13);
    assert("ServerScriptService"@.len() == 19);
}

proof fn lemma_quiet(players: InstanceView)
    ensures
        ({
            let after = instance::with_property(players, "CharacterAutoLoads"@, ValueView::Bool(false));
            after == (InstanceView { properties: after.properties, ..players })
        }),
{
    reveal_strlit("CharacterAutoLoads");
    reveal_strlit("Name");
    assert("CharacterAutoLoads"@.len() == 18);
    assert("Name"@.len() == 4);
}

proof fn lemma_player_named(id: u64)
    ensures
        ({
            let before = instance::new_instance(id, "Player"@, "LocalPlayer"@, false);
            let after = instance::with_property(
                before,
                "DisplayName"@,
                ValueView::String("LocalPlayer"@),
            );
            after == (InstanceView { properties: after.properties, ..before })
        }),
{
    reveal_strlit("DisplayName");
    reveal_strlit("Name");
    assert("DisplayName"@.len() == 11);
    assert("Name"@.len() == 4);
}

/// Where neither children nor parents change, their story stays the same.
pub proof fn lemma_same_story(before: Seq<InstanceView>, after: Seq<InstanceView>)
    requires
        neat(before),
        after.len() == before.len(),
        forall|i: int|
            0 <= i < before.len() ==> (#[trigger] after[i]).children == before[i].children
                && after[i].parent == before[i].parent,
    ensures
        neat(after),
{
    assert forall|p: int, k: int|
        0 <= p < after.len() && 0 <= k < after[p].children.len() implies after[#[trigger]
    after[p].children[k] as int].parent == Some(p as usize) && after[p].children[k]
        < after.len() by {
        assert(after[p].children == before[p].children);
        assert(before[before[p].children[k] as int].parent == Some(p as usize));
    }
    assert forall|c: int| 0 <= c < after.len() implies ((#[trigger] after[c]).parent matches Some(
        p,
    ) ==> after[p as int].children.contains(c as usize) && p < after.len()) by {
        assert(after[c].parent == before[c].parent);
        if let Some(p) = before[c].parent {
            assert(p < before.len());
            assert(after[p as int].children == before[p as int].children);
        }
    }
    assert forall|p: int| 0 <= p < after.len() implies (
    #[trigger] after[p]).children.no_duplicates() by {
        assert(after[p].children == before[p].children);
        assert(before[p].children.no_duplicates());
    }
}

// ---------------------------------------------------------------------------------------------
// What scripts cannot change
// ---------------------------------------------------------------------------------------------

/// Whatever property a script sets, every part stays anchored, a client's `Players` loads no
/// characters, and neither children nor parents change.
pub proof fn law_set_property_keeps(rt: RuntimeView, i: usize, name: Text, value: ValueView, p: int)
    requires
        rt.wf(),
        i < rt.instances.len(),
        0 <= p < rt.instances.len(),
    ensures
        ({
            let after = runtime::set_property_outcome(rt, i, name, value).0;
            &&& after.wf()
            &&& after.instances.len() == rt.instances.len()
            &&& after.instances[p].class_name == rt.instances[p].class_name
            &&& after.instances[p].children == rt.instances[p].children
            &&& after.instances[p].parent == rt.instances[p].parent
            &&& rt.instances[p].class_name == "Part"@ ==> after.instances[p].properties.contains_key(
                "Anchored"@,
            ) && after.instances[p].properties["Anchored"@] == ValueView::Bool(true)
            &&& rt.mode == RuntimeMode::Client && rt.services.contains_key("players"@)
                ==> runtime::loads_no_characters(after.instances[rt.services["players"@] as int])
        }),
{
    runtime::lemma_set_property_wf(rt, i, name, value);
    let after = runtime::set_property_outcome(rt, i, name, value).0;
    assert(after.wf());
    assert(runtime::stays_anchored(after.instances[p]));
}

/// Whether a property is the same in two states of an instance. Numbers are compared as numbers.
pub open spec fn same_property(before: InstanceView, after: InstanceView, name: Text) -> bool {
    match (instance::property_of(before, name), instance::property_of(after, name)) {
        (Some(a), Some(b)) => instance::same_value(a, b),
        (None, None) => true,
        _ => false,
    }
}

/// Setting a property fires where the property differs afterwards, and only there: first the event
/// for changes of any property, told the name of the property, and then the signal for changes of
/// this one, where there is one. Where the property cannot be set, nothing fires and nothing changes.
pub proof fn law_setting_fires_iff_changed(
    rt: RuntimeView,
    i: usize,
    name: Text,
    value: ValueView,
)
    requires
        i < rt.instances.len(),
    ensures
        ({
            let (after, _, result) = runtime::set_property_outcome(rt, i, name, value);
            let fires = runtime::property_firings(rt, i, name, value);
            match result {
                Ok(_) => fires == (if same_property(
                    rt.instances[i as int],
                    after.instances[i as int],
                    name,
                ) {
                    Seq::<FiringView>::empty()
                } else {
                    runtime::event_firing(after, i, "Changed"@, seq![ArgView::String(name)])
                        + runtime::own_firing(after, i, name)
                }),
                Err(_) => fires == Seq::<FiringView>::empty() && after == rt,
            }
        }),
{
    let (after, _, result) = runtime::set_property_outcome(rt, i, name, value);
    if result is Err {
        assert(after.instances =~= rt.instances);
    }
}

// ---------------------------------------------------------------------------------------------
// Copies
// ---------------------------------------------------------------------------------------------

/// Whether an instance is a copy of another: it differs in its number, its place in the tree, its
/// listeners, and in that it is neither a service nor destroyed. What a client copies is the
/// client's own.
pub open spec fn copy_of(mode: RuntimeMode, copy: InstanceView, from: InstanceView) -> bool {
    copy == InstanceView {
        parent: copy.parent,
        children: copy.children,
        client_authoritative: mode == RuntimeMode::Client || from.client_authoritative,
        ..instance::shallow_clone(from, copy.id)
    }
}

/// Whether the instances from `base` on are copies of the listed ones, with the next numbers, and
/// stand below each other as those do.
pub open spec fn copies(
    start: RuntimeView,
    nodes: Seq<InstanceView>,
    base: int,
    first_id: int,
    flat: Seq<usize>,
) -> bool {
    forall|k: int|
        0 <= k < flat.len() ==> {
            let copy = nodes[base + k];
            let from = start.instances[#[trigger] flat[k] as int];
            &&& copy_of(start.mode, copy, from)
            &&& copy.id == first_id + k
            &&& copy.children.len() == from.children.len()
            &&& forall|j: int|
                0 <= j < from.children.len() ==> base <= #[trigger] copy.children[j] < base
                    + flat.len() && flat[copy.children[j] - base] == from.children[j]
        }
}

#[verifier::rlimit(40)]
#[verifier::spinoff_prover]
proof fn lemma_clone_node(
    start: RuntimeView,
    rt: RuntimeView,
    source: usize,
    parent: Option<usize>,
    rank: spec_fn(int) -> nat,
    depth: nat,
)
    requires
        runtime::extends(rt, start),
        neat(rt.instances),
        tree::in_range(instance::kids_of(start.instances)),
        tree::ranked(instance::kids_of(start.instances), rank),
        source < start.instances.len(),
        rank(source as int) <= depth,
        parent matches Some(p) ==> start.instances.len() <= p < rt.instances.len(),
        rt.next_id + tree::node_below(instance::kids_of(start.instances), source, depth).len() <= u64::MAX,
        rt.instances.len() + tree::node_below(instance::kids_of(start.instances), source, depth).len()
            <= usize::MAX,
    ensures
        ({
            let after = runtime::clone_node(rt, source, parent, depth);
            let flat = tree::node_below(instance::kids_of(start.instances), source, depth);
            let base = rt.instances.len() as int;
            &&& runtime::extends(after, start)
            &&& neat(after.instances)
            &&& flat.len() >= 1 && flat[0] == source
            &&& after.instances.len() == base + flat.len()
            &&& after.next_id == rt.next_id + flat.len()
            &&& after == (RuntimeView {
                instances: after.instances,
                next_id: after.next_id,
                ..rt
            })
            &&& forall|k: int|
                0 <= k < base && parent != Some(k as usize) ==> #[trigger] after.instances[k]
                    == rt.instances[k]
            &&& parent matches Some(p) ==> after.instances[p as int] == (InstanceView {
                children: rt.instances[p as int].children.push(base as usize),
                ..rt.instances[p as int]
            })
            &&& after.instances[base].parent == parent
            &&& copies(start, after.instances, base, rt.next_id as int, flat)
        }),
    decreases rank(source as int), 1nat, 0nat,
{
    let kids = instance::kids_of(start.instances);
    let base = rt.instances.len() as int;
    let leaf = runtime::clone_leaf(rt, source);
    let flat = tree::node_below(kids, source, depth);
    let list = kids[source as int];
    let after = runtime::clone_node(rt, source, parent, depth);
    assert(rt.instances[source as int] == start.instances[source as int]);
    let grown = match parent {
        Some(p) => runtime::with_child(rt, leaf, p),
        None => runtime::with_new(rt, leaf),
    };
    match parent {
        Some(p) => {
            lemma_child_neat(rt, leaf, p);
        },
        None => {
            lemma_new_neat(rt, leaf);
        },
    }
    assert(list == start.instances[source as int].children);
    assert(flat.len() >= 1 && flat[0] == source);
    let from = start.instances[source as int];
    assert(copy_of(start.mode, grown.instances[base], from));
    if depth == 0 {
        assert(list.len() == 0) by {
            if list.len() > 0 {
                assert(rank(kids[source as int][0] as int) < rank(source as int));
            }
        }
        assert(flat =~= seq![source]);
        assert(copies(start, after.instances, base, rt.next_id as int, flat));
    } else {
        let d = (depth - 1) as nat;
        let below = tree::list_below(kids, list, d);
        assert(flat =~= seq![source] + below);
        assert forall|k: int| 0 <= k < list.len() implies #[trigger] list[k] < start.instances.len()
            && rank(list[k] as int) <= d && rank(list[k] as int) < rank(source as int) by {
            assert(rank(kids[source as int][k] as int) < rank(source as int));
            assert(kids[source as int][k] < kids.len());
        }
        lemma_clone_list(start, grown, list, base as usize, rank, d, rank(source as int));
        assert(after == runtime::clone_list(grown, list, base as usize, d));
        let nodes = after.instances;
        assert forall|k: int| 0 <= k < flat.len() implies ({
            let copy = nodes[base + k];
            let from = start.instances[#[trigger] flat[k] as int];
            &&& copy_of(start.mode, copy, from)
            &&& copy.id == rt.next_id + k
            &&& copy.children.len() == from.children.len()
            &&& forall|j: int|
                0 <= j < from.children.len() ==> base <= #[trigger] copy.children[j] < base
                    + flat.len() && flat[copy.children[j] - base] == from.children[j]
        }) by {
            if k == 0 {
                let copy = nodes[base];
                assert forall|j: int| 0 <= j < from.children.len() implies base
                    <= #[trigger] copy.children[j] < base + flat.len() && flat[copy.children[j]
                    - base] == from.children[j] by {
                    let c = copy.children[j];
                    assert(base + 1 <= c < base + 1 + below.len());
                    assert(flat[c - base] == below[c - base - 1]);
                }
            } else {
                assert(flat[k] == below[k - 1]);
                let copy = nodes[base + 1 + (k - 1)];
                let from = start.instances[below[k - 1] as int];
                assert(copy_of(start.mode, copy, from));
                assert forall|j: int| 0 <= j < from.children.len() implies base
                    <= #[trigger] copy.children[j] < base + flat.len() && flat[copy.children[j]
                    - base] == from.children[j] by {
                    let c = copy.children[j];
                    assert(flat[c - base] == below[c - base - 1]);
                }
            }
        }
    }
}

proof fn lemma_clone_list(
    start: RuntimeView,
    rt: RuntimeView,
    list: Seq<usize>,
    parent: usize,
    rank: spec_fn(int) -> nat,
    depth: nat,
    bound: nat,
)
    requires
        runtime::extends(rt, start),
        neat(rt.instances),
        tree::in_range(instance::kids_of(start.instances)),
        tree::ranked(instance::kids_of(start.instances), rank),
        forall|k: int|
            0 <= k < list.len() ==> #[trigger] list[k] < start.instances.len() && rank(
                list[k] as int,
            ) <= depth && rank(list[k] as int) < bound,
        start.instances.len() <= parent < rt.instances.len(),
        rt.next_id + tree::list_below(instance::kids_of(start.instances), list, depth).len() <= u64::MAX,
        rt.instances.len() + tree::list_below(instance::kids_of(start.instances), list, depth).len() <= usize::MAX,
    ensures
        ({
            let after = runtime::clone_list(rt, list, parent, depth);
            let flat = tree::list_below(instance::kids_of(start.instances), list, depth);
            let base = rt.instances.len() as int;
            let had = rt.instances[parent as int].children;
            let has = after.instances[parent as int].children;
            &&& runtime::extends(after, start)
            &&& neat(after.instances)
            &&& after.instances.len() == base + flat.len()
            &&& after.next_id == rt.next_id + flat.len()
            &&& after == (RuntimeView {
                instances: after.instances,
                next_id: after.next_id,
                ..rt
            })
            &&& forall|k: int|
                0 <= k < base && k != parent ==> #[trigger] after.instances[k] == rt.instances[k]
            &&& after.instances[parent as int] == (InstanceView {
                children: has,
                ..rt.instances[parent as int]
            })
            &&& has.len() == had.len() + list.len()
            &&& has.take(had.len() as int) == had
            &&& forall|j: int|
                had.len() <= j < has.len() ==> base <= #[trigger] has[j] < base + flat.len()
                    && flat[has[j] - base] == list[j - had.len()]
            &&& copies(start, after.instances, base, rt.next_id as int, flat)
        }),
    decreases bound, 0nat, list.len(),
{
    let kids = instance::kids_of(start.instances);
    let base = rt.instances.len() as int;
    let had = rt.instances[parent as int].children;
    let after = runtime::clone_list(rt, list, parent, depth);
    let flat = tree::list_below(kids, list, depth);
    if list.len() == 0 {
        assert(flat =~= Seq::empty());
        assert(had.take(had.len() as int) =~= had);
    } else {
        let init = list.drop_last();
        let last = list.last();
        assert(last == list[list.len() - 1]);
        let flat1 = tree::list_below(kids, init, depth);
        let flat2 = tree::node_below(kids, last, depth);
        assert(flat == flat1 + flat2);
        assert forall|k: int| 0 <= k < init.len() implies #[trigger] init[k] < start.instances.len()
            && rank(init[k] as int) <= depth && rank(init[k] as int) < bound by {
            assert(init[k] == list[k]);
        }
        lemma_clone_list(start, rt, init, parent, rank, depth, bound);
        let mid = runtime::clone_list(rt, init, parent, depth);
        lemma_clone_node(start, mid, last, Some(parent), rank, depth);
        let base2 = mid.instances.len() as int;
        let nodes = after.instances;
        let had2 = mid.instances[parent as int].children;
        let has = nodes[parent as int].children;
        assert(has == had2.push(base2 as usize));
        assert(has.take(had.len() as int) =~= had2.take(had.len() as int));
        assert forall|j: int| had.len() <= j < has.len() implies base <= #[trigger] has[j] < base
            + flat.len() && flat[has[j] - base] == list[j - had.len()] by {
            if j < had2.len() {
                assert(has[j] == had2[j]);
                assert(flat[has[j] - base] == flat1[has[j] - base]);
                assert(list[j - had.len()] == init[j - had.len()]);
            } else {
                assert(has[j] == base2);
                assert(flat[base2 - base] == flat2[0]);
            }
        }
        assert forall|k: int| 0 <= k < flat.len() implies ({
            let copy = nodes[base + k];
            let from = start.instances[#[trigger] flat[k] as int];
            &&& copy_of(start.mode, copy, from)
            &&& copy.id == rt.next_id + k
            &&& copy.children.len() == from.children.len()
            &&& forall|j: int|
                0 <= j < from.children.len() ==> base <= #[trigger] copy.children[j] < base
                    + flat.len() && flat[copy.children[j] - base] == from.children[j]
        }) by {
            let copy = nodes[base + k];
            let from = start.instances[flat[k] as int];
            if k < flat1.len() {
                assert(flat[k] == flat1[k]);
                assert(copy == mid.instances[base + k]);
                assert forall|j: int| 0 <= j < from.children.len() implies base
                    <= #[trigger] copy.children[j] < base + flat.len() && flat[copy.children[j]
                    - base] == from.children[j] by {
                    let c = copy.children[j];
                    assert(flat[c - base] == flat1[c - base]);
                }
            } else {
                let k2 = k - flat1.len();
                assert(flat[k] == flat2[k2]);
                assert(copy == nodes[base2 + k2]);
                assert forall|j: int| 0 <= j < from.children.len() implies base
                    <= #[trigger] copy.children[j] < base + flat.len() && flat[copy.children[j]
                    - base] == from.children[j] by {
                    let c = copy.children[j];
                    assert(flat[c - base] == flat2[c - base2]);
                }
            }
        }
    }
}

/// Whether an instance has what another one has of its own: the class, the name, the value of every
/// property, the path of the script, the player who moves it, and events of the same names. Nothing is
/// connected to the events of the copy, and it is neither a service nor destroyed.
pub open spec fn has_the_same(mode: RuntimeMode, copy: InstanceView, from: InstanceView) -> bool {
    &&& copy.class_name == from.class_name
    &&& copy.name == from.name
    &&& copy.properties == from.properties
    &&& copy.script_path == from.script_path
    &&& copy.network_owner_name == from.network_owner_name
    &&& copy.client_authoritative == (mode == RuntimeMode::Client || from.client_authoritative)
    &&& copy.events.len() == from.events.len()
    &&& forall|e: int|
        0 <= e < from.events.len() ==> (#[trigger] copy.events[e]).name == from.events[e].name
            && copy.events[e].listeners.len() == 0
    &&& copy.property_signals.len() == 0
    &&& !copy.is_service
    &&& !copy.destroyed
}

/// Copying an instance copies everything below it, in the same places below each other, and changes
/// nothing that was there before. Each copy has the class, the name and the properties of what it was
/// copied from, and a number of its own. The copy stands outside the tree, and children and parents
/// tell the same story.
pub proof fn law_clone_copies(rt: RuntimeView, source: usize)
    requires
        rt.wf(),
        moves::consistent(rt.instances),
        source < rt.instances.len(),
        rt.next_id + tree::subtree(instance::kids_of(rt.instances), source).len() <= u64::MAX,
        rt.instances.len() + tree::subtree(instance::kids_of(rt.instances), source).len() <= usize::MAX,
    ensures
        ({
            let after = runtime::with_clone(rt, source);
            let flat = tree::subtree(instance::kids_of(rt.instances), source);
            let base = rt.instances.len() as int;
            &&& moves::consistent(after.instances)
            &&& after.instances.len() == base + flat.len()
            &&& after.instances.take(base) == rt.instances
            &&& after.instances[base].parent is None
            &&& flat[0] == source
            &&& copies(rt, after.instances, base, rt.next_id as int, flat)
            &&& forall|k: int|
                0 <= k < flat.len() ==> has_the_same(
                    rt.mode,
                    after.instances[base + k],
                    rt.instances[#[trigger] flat[k] as int],
                )
            &&& after.services == rt.services
            &&& after.local_player == rt.local_player
            &&& after.data_model == rt.data_model
            &&& after.mode == rt.mode
        }),
{
    lemma_neat(rt);
    let kids = instance::kids_of(rt.instances);
    let rank = tree::lemma_small_rank(kids);
    tree::lemma_subtree_unfold(kids, source);
    assert(rank(source as int) < kids.len());
    lemma_clone_node(rt, rt, source, None, rank, rt.instances.len());
    let after = runtime::with_clone(rt, source);
    assert(after.instances.take(rt.instances.len() as int) =~= rt.instances);
    lemma_clone_keeps_the_rest(rt, source, None, rt.instances.len());
    let flat = tree::subtree(kids, source);
    let base = rt.instances.len() as int;
    assert forall|k: int| 0 <= k < flat.len() implies has_the_same(
        rt.mode,
        after.instances[base + k],
        rt.instances[#[trigger] flat[k] as int],
    ) by {
        let copy = after.instances[base + k];
        let from = rt.instances[flat[k] as int];
        assert(copy_of(rt.mode, copy, from));
        assert(copy.events =~= instance::shallow_clone(from, copy.id).events);
    }
}

proof fn lemma_clone_keeps_the_rest(rt: RuntimeView, source: usize, parent: Option<usize>, depth: nat)
    ensures
        ({
            let after = runtime::clone_node(rt, source, parent, depth);
            &&& after.services == rt.services
            &&& after.local_player == rt.local_player
            &&& after.data_model == rt.data_model
            &&& after.mode == rt.mode
        }),
    decreases depth, 1nat, 0nat,
{
    if depth > 0 {
        let leaf = runtime::clone_leaf(rt, source);
        let grown = match parent {
            Some(p) => runtime::with_child(rt, leaf, p),
            None => runtime::with_new(rt, leaf),
        };
        lemma_clone_list_keeps_the_rest(
            grown,
            rt.instances[source as int].children,
            rt.instances.len() as usize,
            (depth - 1) as nat,
        );
    }
}

proof fn lemma_clone_list_keeps_the_rest(rt: RuntimeView, list: Seq<usize>, parent: usize, depth: nat)
    ensures
        ({
            let after = runtime::clone_list(rt, list, parent, depth);
            &&& after.services == rt.services
            &&& after.local_player == rt.local_player
            &&& after.data_model == rt.data_model
            &&& after.mode == rt.mode
        }),
    decreases depth, 2nat, list.len(),
{
    if list.len() > 0 {
        lemma_clone_list_keeps_the_rest(rt, list.drop_last(), parent, depth);
        lemma_clone_keeps_the_rest(
            runtime::clone_list(rt, list.drop_last(), parent, depth),
            list.last(),
            Some(parent),
            depth,
        );
    }
}

// ---------------------------------------------------------------------------------------------
// Network ownership
// ---------------------------------------------------------------------------------------------

proof fn lemma_first_player(
    before: Seq<InstanceView>,
    after: Seq<InstanceView>,
    list: Seq<usize>,
    name: Text,
)
    requires
        after.len() == before.len(),
        forall|i: int|
            0 <= i < before.len() ==> (#[trigger] after[i]).class_name == before[i].class_name
                && after[i].name == before[i].name,
        forall|k: int| 0 <= k < list.len() ==> #[trigger] list[k] < before.len(),
    ensures
        runtime::first_player(after, list, name) == runtime::first_player(before, list, name),
    decreases list.len(),
{
    if list.len() > 0 {
        let rest = list.drop_first();
        assert(list[0] < before.len());
        assert forall|k: int| 0 <= k < rest.len() implies #[trigger] rest[k] < before.len() by {
            assert(rest[k] == list[k + 1]);
        }
        lemma_first_player(before, after, rest, name);
    }
}

/// The player that the server gives a part to is the one that moves it from then on, and a part that
/// is given to nobody has no owner. A client cannot give a part to anyone.
pub proof fn law_owner_is_who_was_named(rt: RuntimeView, part: usize, player: usize)
    requires
        rt.wf(),
        part < rt.instances.len(),
        player < rt.instances.len(),
        rt.instances[part as int].class_name == "Part"@,
        rt.instances[player as int].class_name == "Player"@,
        runtime::player_named(rt, rt.instances[player as int].name) == Some(player),
    ensures
        rt.mode == RuntimeMode::Server ==> lua_api::owner_of(
            lua_api::owner_outcome(rt, part, LuaView::Instance(player)).0,
            part,
        ) == Some(player),
        rt.mode == RuntimeMode::Server ==> lua_api::owner_of(
            lua_api::owner_outcome(rt, part, LuaView::Nil).0,
            part,
        ) is None,
        rt.mode == RuntimeMode::Client ==> lua_api::owner_outcome(rt, part, LuaView::Instance(player)).0
            == rt && lua_api::owner_outcome(rt, part, LuaView::Instance(player)).1 is Err,
{
    let name = rt.instances[player as int].name;
    let after = lua_api::owner_outcome(rt, part, LuaView::Instance(player)).0;
    if rt.mode == RuntimeMode::Server {
        let players = runtime::service_named(rt, "Players"@)->Ok_0;
        let list = rt.instances[players as int].children;
        assert forall|k: int| 0 <= k < list.len() implies #[trigger] list[k]
            < rt.instances.len() by {
            assert(instance::kids_of(rt.instances)[players as int][k] == list[k]);
        }
        assert(after.instances[players as int].children == list);
        lemma_first_player(rt.instances, after.instances, list, name);
    }
}

// ---------------------------------------------------------------------------------------------
// What scripts set and find
// ---------------------------------------------------------------------------------------------

/// The value that an instance holds under a name, with the name and the class of the instance among
/// its properties.
pub open spec fn held(instance: InstanceView, name: Text) -> Option<ValueView> {
    if name == "Name"@ {
        Some(ValueView::String(instance.name))
    } else if name == "ClassName"@ {
        Some(ValueView::String(instance.class_name))
    } else if instance.properties.contains_key(name) {
        Some(instance.properties[name])
    } else {
        None
    }
}

/// The value that a script gets to see after it has set a property: the one that it set, but for what
/// the environment insists on.
pub open spec fn insisted(rt: RuntimeView, i: usize, name: Text, value: ValueView) -> ValueView {
    let class_name = rt.instances[i as int].class_name;
    if class_name == "Part"@ && name == "Anchored"@ && value is Bool {
        ValueView::Bool(true)
    } else if class_name == "Players"@ && name == "CharacterAutoLoads"@ && rt.mode
        == RuntimeMode::Client {
        ValueView::Bool(false)
    } else {
        value
    }
}

/// A property that was set has the value that it was set to, or the one that the environment insists
/// on. It can be set where the instance is alive and begins with a property of that name and type;
/// the name takes texts, and the class cannot be set. No other property and no other instance changes,
/// and where the property cannot be set, nothing does.
pub proof fn law_setting_stores(rt: RuntimeView, i: usize, name: Text, value: ValueView)
    requires
        rt.wf(),
        i < rt.instances.len(),
    ensures
        ({
            let (after, _, result) = runtime::set_property_outcome(rt, i, name, value);
            let before = rt.instances[i as int];
            let now = after.instances[i as int];
            let wanted = insisted(rt, i, name, value);
            let starts = instance::initial_properties(before.class_name);
            &&& result is Ok <==> !before.destroyed && name != "ClassName"@ && (if name == "Name"@ {
                value is String
            } else {
                starts.contains_key(name) && instance::kind_of(starts[name]) == instance::kind_of(
                    wanted,
                )
            })
            &&& result is Err ==> after == rt
            &&& result is Ok && (wanted is Bool || wanted is String || wanted is BinaryString)
                ==> held(now, name) == Some(wanted)
            &&& result is Ok ==> (held(now, name) matches Some(stored) && (stored == wanted
                || instance::same_value(stored, wanted)))
            &&& forall|other: Text| other != name ==> #[trigger] held(now, other) == held(before, other)
            &&& now == (InstanceView { name: now.name, properties: now.properties, ..before })
            &&& after.instances.len() == rt.instances.len()
            &&& forall|j: int|
                0 <= j < rt.instances.len() && j != i ==> #[trigger] after.instances[j]
                    == rt.instances[j]
            &&& after == (RuntimeView { instances: after.instances, ..rt })
        }),
{
    let (after, _, result) = runtime::set_property_outcome(rt, i, name, value);
    let before = rt.instances[i as int];
    lemma_name_texts();
    instance::law_declared_properties_have_defaults(before.class_name, name);
    if result is Ok && name != "Name"@ {
        let wanted = insisted(rt, i, name, value);
        if before.class_name == "Part"@ && name == "Anchored"@ {
            assert(runtime::stays_anchored(before));
        }
        assert(after.instances[i as int].properties.contains_key(name));
    }
}

proof fn lemma_name_texts()
    ensures
        "Name"@ != "ClassName"@,
        "Anchored"@ != "Name"@,
        "Anchored"@ != "ClassName"@,
        "CharacterAutoLoads"@ != "Name"@,
        "CharacterAutoLoads"@ != "ClassName"@,
        "Part"@ != "Players"@,
{
    reveal_strlit("Name");
    reveal_strlit("ClassName");
    reveal_strlit("Anchored");
    reveal_strlit("CharacterAutoLoads");
    reveal_strlit("Part");
    reveal_strlit("Players");
    assert("Name"@.len() == 4 && "ClassName"@.len() == 9 && "Anchored"@.len() == 8);
    assert("CharacterAutoLoads"@.len() == 18 && "Part"@.len() == 4 && "Players"@.len() == 7);
}

/// Looking for an instance by its name gives the first of the given ones that has it, and nothing where
/// none has it.
pub proof fn law_first_named(nodes: Seq<InstanceView>, list: Seq<usize>, name: Text)
    ensures
        match runtime::first_named(nodes, list, name) {
            Some(i) => exists|k: int|
                0 <= k < list.len() && #[trigger] list[k] == i && nodes[i as int].name == name && forall|
                    j: int,
                |
                    0 <= j < k ==> nodes[#[trigger] list[j] as int].name != name,
            None => forall|k: int| 0 <= k < list.len() ==> nodes[#[trigger] list[k] as int].name != name,
        },
    decreases list.len(),
{
    if list.len() > 0 {
        let rest = list.drop_first();
        law_first_named(nodes, rest, name);
        if nodes[list[0] as int].name == name {
            assert(list[0] == list[0]);
        } else {
            match runtime::first_named(nodes, rest, name) {
                Some(i) => {
                    let k = choose|k: int|
                        0 <= k < rest.len() && #[trigger] rest[k] == i && nodes[i as int].name == name
                            && forall|j: int| 0 <= j < k ==> nodes[#[trigger] rest[j] as int].name != name;
                    assert(list[k + 1] == i);
                    assert forall|j: int| 0 <= j < k + 1 implies nodes[#[trigger] list[j] as int].name
                        != name by {
                        if j > 0 {
                            assert(list[j] == rest[j - 1]);
                        }
                    }
                },
                None => {
                    assert forall|k: int| 0 <= k < list.len() implies nodes[#[trigger] list[k] as int].name
                        != name by {
                        if k > 0 {
                            assert(list[k] == rest[k - 1]);
                        }
                    }
                },
            }
        }
    }
}

/// Looking for a player by name gives an instance of `Player` below the service `Players` that has the
/// name, and nothing where there is none.
pub proof fn law_player_named(rt: RuntimeView, name: Text)
    requires
        rt.services.contains_key(text::lower("Players"@)),
    ensures
        ({
            let below = rt.instances[rt.services[text::lower("Players"@)] as int].children;
            match runtime::player_named(rt, name) {
                Some(i) => below.contains(i) && rt.instances[i as int].class_name == "Player"@
                    && rt.instances[i as int].name == name,
                None => forall|k: int|
                    0 <= k < below.len() ==> rt.instances[#[trigger] below[k] as int].class_name
                        != "Player"@ || rt.instances[below[k] as int].name != name,
            }
        }),
{
    lemma_player_found(
        rt.instances,
        rt.instances[rt.services[text::lower("Players"@)] as int].children,
        name,
    );
}

proof fn lemma_player_found(nodes: Seq<InstanceView>, list: Seq<usize>, name: Text)
    ensures
        match runtime::first_player(nodes, list, name) {
            Some(i) => list.contains(i) && nodes[i as int].class_name == "Player"@ && nodes[i as int].name
                == name,
            None => forall|k: int|
                0 <= k < list.len() ==> nodes[#[trigger] list[k] as int].class_name != "Player"@
                    || nodes[list[k] as int].name != name,
        },
    decreases list.len(),
{
    if list.len() > 0 {
        let rest = list.drop_first();
        lemma_player_found(nodes, rest, name);
        assert(list.contains(list[0]));
        match runtime::first_player(nodes, rest, name) {
            Some(i) => {
                let k = choose|k: int| 0 <= k < rest.len() && rest[k] == i;
                assert(list[k + 1] == i);
            },
            None => {
                assert forall|k: int| 0 <= k < list.len() && !(nodes[list[0] as int].class_name
                    == "Player"@ && nodes[list[0] as int].name == name) implies nodes[#[trigger] list[k] as int].class_name
                    != "Player"@ || nodes[list[k] as int].name != name by {
                    if k > 0 {
                        assert(list[k] == rest[k - 1]);
                    }
                }
            },
        }
    }
}

/// The full name of an instance is the full name of its parent, a dot and its name, and without a
/// parent its name alone.
pub proof fn law_full_names(rt: RuntimeView, i: usize)
    requires
        rt.wf(),
        i < rt.instances.len(),
    ensures
        match rt.instances[i as int].parent {
            Some(p) => instance::full_name_of(rt.instances, i) == instance::full_name_of(
                rt.instances,
                p,
            ) + seq!['.'] + rt.instances[i as int].name,
            None => instance::full_name_of(rt.instances, i) == rt.instances[i as int].name,
        },
{
    let nodes = rt.instances;
    let ups = instance::ups_of(nodes);
    let named = |k: usize| nodes[k as int].name;
    tree::lemma_lineage(ups, i);
    let names = tree::lineage(ups, i).reverse().map_values(named);
    assert(ups[i as int] == nodes[i as int].parent);
    match nodes[i as int].parent {
        Some(p) => {
            tree::lemma_lineage(ups, p);
            let above = tree::lineage(ups, p).reverse().map_values(named);
            assert(tree::lineage(ups, p).len() > 0);
            assert(names =~= above.push(nodes[i as int].name));
            assert(names.drop_last() =~= above);
        },
        None => {
            assert(names =~= seq![nodes[i as int].name]);
        },
    }
}

/// The names of the events that every instance has.
pub open spec fn common_events() -> Seq<Text> {
    seq![
        "AncestryChanged"@,
        "Changed"@,
        "ChildAdded"@,
        "ChildRemoved"@,
        "DescendantAdded"@,
        "DescendantRemoving"@,
        "Destroying"@,
    ]
}

/// Whether an instance has an event of a name, and nothing is connected to it.
pub open spec fn has_fresh_event(instance: InstanceView, name: Text) -> bool {
    exists|e: int|
        0 <= e < instance.events.len() && (#[trigger] instance.events[e]).name == name
            && instance.events[e].listeners.len() == 0
}

/// A new instance has the class that was asked for, stands outside the tree, holds the properties with
/// which its class begins, and has the events that every instance has; parts can be touched, and
/// `Players` tells of players. What a script makes is named after its class, and what a client makes is
/// the client's own.
pub proof fn law_new_instances(id: u64, class_name: Text, name: Text, is_service: bool, rt: RuntimeView)
    ensures
        ({
            let made = instance::new_instance(id, class_name, name, is_service);
            &&& made.id == id
            &&& made.class_name == class_name
            &&& made.name == name
            &&& made.is_service == is_service
            &&& made.parent is None
            &&& made.children.len() == 0
            &&& !made.destroyed
            &&& !made.client_authoritative
            &&& made.script_path is None
            &&& made.network_owner_name is None
            &&& made.property_signals.len() == 0
            &&& made.properties == instance::initial_properties(class_name)
            &&& forall|k: int|
                0 <= k < common_events().len() ==> has_fresh_event(made, #[trigger] common_events()[k])
            &&& class_name == "Part"@ ==> has_fresh_event(made, "Touched"@) && has_fresh_event(
                made,
                "TouchEnded"@,
            )
            &&& class_name == "Players"@ ==> has_fresh_event(made, "PlayerAdded"@) && has_fresh_event(
                made,
                "PlayerRemoving"@,
            )
        }),
        ({
            let made = runtime::made_instance(rt, class_name);
            made == InstanceView {
                client_authoritative: rt.mode == RuntimeMode::Client,
                ..instance::new_instance(rt.next_id, class_name, class_name, false)
            }
        }),
{
    let made = instance::new_instance(id, class_name, name, is_service);
    let names = instance::event_names(class_name);
    reveal_strlit("Part");
    reveal_strlit("Players");
    assert("Part"@.len() != "Players"@.len());
    assert forall|k: int| 0 <= k < common_events().len() implies has_fresh_event(
        made,
        #[trigger] common_events()[k],
    ) by {
        assert(names[k] == common_events()[k]);
        assert(made.events[k].name == names[k]);
    }
    if class_name == "Part"@ || class_name == "Players"@ {
        assert(made.events[7].name == names[7]);
        assert(made.events[8].name == names[8]);
    }
}

/// Marking an instance as the client's own or as known to the server marks it and everything below it,
/// and changes nothing else.
pub proof fn law_marking_reaches_down(rt: RuntimeView, i: usize, value: bool, j: int)
    requires
        0 <= j < rt.instances.len(),
        rt.instances.len() <= usize::MAX,
    ensures
        ({
            let after = runtime::with_authority(rt, i, value);
            let marked = tree::subtree(instance::kids_of(rt.instances), i).contains(j as usize);
            &&& after.instances.len() == rt.instances.len()
            &&& after.instances[j].client_authoritative == (if marked {
                value
            } else {
                rt.instances[j].client_authoritative
            })
            &&& after.instances[j] == (InstanceView {
                client_authoritative: after.instances[j].client_authoritative,
                ..rt.instances[j]
            })
        }),
{
}

/// A script that sets a property is warned where a client changes a part that is neither its own nor
/// moved by its player, where a part is to be let go, where one is to collide, and where a client's
/// `Players` is to load characters, and in no other case.
pub proof fn law_warnings(rt: RuntimeView, i: usize, name: Text, value: ValueView)
    requires
        i < rt.instances.len(),
    ensures
        ({
            let it = rt.instances[i as int];
            let mine = it.client_authoritative || (rt.local_player matches Some(p)
                && it.network_owner_name == Some(rt.instances[p as int].name));
            let foreign = it.class_name == "Part"@ && rt.mode == RuntimeMode::Client && !mine;
            let vain = it.class_name == "Part"@ && ((name == "Anchored"@ && value == ValueView::Bool(
                false,
            )) || (name == "CanCollide"@ && value == ValueView::Bool(true)));
            let forced = it.class_name == "Players"@ && name == "CharacterAutoLoads"@ && rt.mode
                == RuntimeMode::Client && value != ValueView::Bool(false);
            let count: nat = (if foreign {
                1nat
            } else {
                0
            }) + (if vain {
                1nat
            } else {
                0
            }) + (if forced {
                1nat
            } else {
                0
            });
            !it.destroyed ==> runtime::set_property_outcome(rt, i, name, value).1.len() == count
        }),
{
    lemma_name_texts();
    reveal_strlit("Anchored");
    reveal_strlit("CanCollide");
    assert("Anchored"@.len() == 8 && "CanCollide"@.len() == 10);
}

// ---------------------------------------------------------------------------------------------
// Services by name
// ---------------------------------------------------------------------------------------------

/// The names of the services of a server.
pub open spec fn server_services() -> Seq<Text> {
    seq![
        "Workspace"@,
        "ReplicatedStorage"@,
        "ServerStorage"@,
        "ServerScriptService"@,
        "Lighting"@,
        "Players"@,
        "RunService"@,
        "HttpService"@,
        "TweenService"@,
    ]
}

/// A new server has nine services, and a new client has all of these but `ServerStorage` and
/// `ServerScriptService`. Each is found under its name in whatever letter case, stands below the data
/// model, and has its name for its class.
pub proof fn law_services_are_found(mode: RuntimeMode, k: int, name: Text)
    requires
        0 <= k < server_services().len(),
        text::lower(name) == text::lower(server_services()[k]),
    ensures
        ({
            let rt = runtime::new_runtime(mode);
            let service = server_services()[k];
            let hidden = mode == RuntimeMode::Client && (service == "ServerStorage"@ || service
                == "ServerScriptService"@);
            match runtime::service_named(rt, name) {
                Ok(i) => !hidden && i < rt.instances.len() && service_instance(
                    rt.instances[i as int],
                    service,
                    rt.data_model,
                ),
                Err(_) => hidden,
            }
        }),
{
    assert(server_services() =~= runtime::default_services());
    law_new_runtime(mode, k);
}

/// At the top of a new tree stands the data model, called `game`. On a client the service `Players` loads
/// no characters.
pub proof fn law_top_of_new_trees(mode: RuntimeMode)
    ensures
        ({
            let rt = runtime::new_runtime(mode);
            let top = rt.instances[rt.data_model as int];
            &&& rt.data_model < rt.instances.len()
            &&& top.class_name == "DataModel"@
            &&& top.name == "game"@
            &&& top.parent is None
            &&& mode == RuntimeMode::Client ==> (runtime::service_named(rt, "Players"@) matches Ok(i)
                && rt.instances[i as int].properties.contains_key("CharacterAutoLoads"@)
                && rt.instances[i as int].properties["CharacterAutoLoads"@] == ValueView::Bool(false))
        }),
{
    let names = runtime::default_services();
    let bare = runtime::bare_runtime(mode);
    lemma_top(bare, names);
    lemma_default_services_apart();
    lemma_start(mode, 5);
    lemma_name_texts();
    let grown = runtime::with_services(bare, names);
    assert(names[5] == "Players"@);
    reveal_strlit("Players");
    reveal_strlit("players");
    assert(text::lower("Players"@) =~= "players"@);
}

proof fn lemma_top(rt: RuntimeView, names: Seq<Text>)
    requires
        rt.data_model < rt.instances.len(),
        rt.instances.len() + names.len() <= usize::MAX,
        forall|key: Text| #[trigger]
            rt.services.contains_key(key) ==> rt.data_model < rt.services[key] < rt.instances.len(),
    ensures
        ({
            let grown = runtime::with_services(rt, names);
            let top = grown.instances[rt.data_model as int];
            &&& grown.data_model == rt.data_model
            &&& rt.instances.len() <= grown.instances.len() <= rt.instances.len() + names.len()
            &&& forall|key: Text| #[trigger]
                grown.services.contains_key(key) ==> grown.data_model < grown.services[key]
                    < grown.instances.len()
            &&& top == (InstanceView { children: top.children, ..rt.instances[rt.data_model as int] })
        }),
    decreases names.len(),
{
    if names.len() > 0 {
        lemma_top(rt, names.drop_last());
    }
}

/// Which classes count as which: scripts of every kind are source containers, every service but the
/// workspace counts as a service, and the workspace as a model.
pub proof fn law_kinds_of_classes(kind: ScriptKind, k: int)
    requires
        0 <= k < server_services().len(),
    ensures
        instance::derives(project::kind_class(kind), "LuaSourceContainer"@),
        server_services()[k] != "Workspace"@ ==> instance::derives(server_services()[k], "Service"@),
        server_services()[k] == "Workspace"@ ==> instance::derives(server_services()[k], "Model"@),
        instance::derives("Part"@, "BasePart"@),
        instance::derives("Part"@, "PVInstance"@),
        instance::derives("Model"@, "PVInstance"@),
        instance::derives("StringValue"@, "ValueBase"@),
{
    reveal_strlit("DataModel");
    reveal_strlit("Workspace");
    reveal_strlit("Model");
    reveal_strlit("Part");
    reveal_strlit("StringValue");
    reveal_strlit("ReplicatedStorage");
    reveal_strlit("ServerStorage");
    reveal_strlit("ServerScriptService");
    reveal_strlit("Lighting");
    reveal_strlit("Players");
    reveal_strlit("RunService");
    reveal_strlit("HttpService");
    reveal_strlit("TweenService");
    reveal_strlit("Script");
    reveal_strlit("LocalScript");
    reveal_strlit("ModuleScript");
    assert("DataModel"@.len() == 9 && "DataModel"@[0] == 'D' && "Workspace"@.len() == 9 && "Workspace"@[0]
        == 'W' && "Model"@.len() == 5 && "Part"@.len() == 4 && "StringValue"@.len() == 11
        && "StringValue"@[0] == 'S');
    assert("ReplicatedStorage"@.len() == 17 && "ServerStorage"@.len() == 13 && "ServerScriptService"@.len()
        == 19 && "Lighting"@.len() == 8 && "Players"@.len() == 7 && "RunService"@.len() == 10
        && "HttpService"@.len() == 11 && "HttpService"@[0] == 'H' && "TweenService"@.len() == 12
        && "TweenService"@[0] == 'T');
    assert("Script"@.len() == 6 && "LocalScript"@.len() == 11 && "LocalScript"@[0] == 'L'
        && "ModuleScript"@.len() == 12 && "ModuleScript"@[0] == 'M');
    let class = project::kind_class(kind);
    assert(instance::class_ancestors(class)[0] == "LuaSourceContainer"@);
    let service = server_services()[k];
    if service != "Workspace"@ {
        assert(instance::class_ancestors(service)[0] == "Service"@);
    } else {
        assert(instance::class_ancestors(service)[1] == "Model"@);
    }
    assert(instance::class_ancestors("Part"@)[0] == "BasePart"@);
    assert(instance::class_ancestors("Part"@)[1] == "PVInstance"@);
    assert(instance::class_ancestors("Model"@)[0] == "PVInstance"@);
    assert(instance::class_ancestors("StringValue"@)[0] == "ValueBase"@);
}

/// Asking for the signal for changes of a property makes sure that there is one for this property, and
/// leaves every other one as it is.
pub proof fn law_property_signals(instance: InstanceView, property: Text)
    ensures
        ({
            let after = instance::with_property_signal(instance, property);
            &&& exists|k: int|
                0 <= k < after.property_signals.len() && (#[trigger] after.property_signals[k]).property
                    == property
            &&& instance.property_signals.is_prefix_of(after.property_signals)
            &&& after.property_signals.len() <= instance.property_signals.len() + 1
            &&& after.property_signals.len() > instance.property_signals.len()
                ==> after.property_signals.last().signal.listeners.len() == 0
            &&& after == (InstanceView { property_signals: after.property_signals, ..instance })
        }),
{
    let signals = instance.property_signals;
    let k = instance::property_signal_at(signals, property);
    let after = instance::with_property_signal(instance, property);
    instance::lemma_property_signal_at(signals, property);
    if k < signals.len() {
        assert(after.property_signals[k as int].property == property);
    } else {
        assert(after.property_signals[signals.len() as int].property == property);
    }
    assert(signals =~= after.property_signals.subrange(0, signals.len() as int));
}

} // verus!
