//! What scripts see of instances: which members they have, what may be assigned to them, and what
//! their methods do.

use std::collections::HashMap;
use vstd::prelude::*;
use vstd::string::*;

use crate::error::{self, Error, failure};
use crate::instance::{self, Instance, InstanceView, Property, PropertyValue, ValueView};
use crate::laws;
use crate::math::{Color3, Number, Vector3};
use crate::moves;
use crate::runtime::{self, Runtime, RuntimeMode, RuntimeView};
use crate::signal::{ConnectionHandle, Signal, SignalRef, SignalSlot};
use crate::text::{self, Text, concat3, text_eq};
use crate::tree;

verus! {

// ---------------------------------------------------------------------------------------------
// Members
// ---------------------------------------------------------------------------------------------

/// The methods of instances.
#[derive(Clone, Copy, Debug, PartialEq, Eq, Structural)]
pub enum Method {
    GetChildren,
    GetDescendants,
    FindFirstChild,
    WaitForChild,
    IsA,
    GetFullName,
    GetService,
    GetPropertyChangedSignal,
    Destroy,
    Clone,
    ClearAllChildren,
    GetPlayers,
    LoadCharacter,
    SetNetworkOwner,
    GetNetworkOwner,
    IsClient,
    IsServer,
    GetAsync,
    PostAsync,
    JsonEncode,
    JsonDecode,
}

/// What a script finds under a name in an instance.
#[derive(Debug)]
pub enum Member {
    Nil,
    Text(String),
    Instance(usize),
    Signal(SignalRef),
    Method(Method),
    Property(PropertyValue),
}

/// The content of a [`Member`].
#[verifier::ext_equal]
pub enum MemberView {
    Nil,
    Text(Text),
    Instance(usize),
    Signal(SignalRef),
    Method(Method),
    Property(ValueView),
}

impl View for Member {
    type V = MemberView;

    open spec fn view(&self) -> MemberView {
        match self {
            Member::Nil => MemberView::Nil,
            Member::Text(s) => MemberView::Text(s@),
            Member::Instance(i) => MemberView::Instance(*i),
            Member::Signal(signal) => MemberView::Signal(*signal),
            Member::Method(method) => MemberView::Method(*method),
            Member::Property(value) => MemberView::Property(value@),
        }
    }
}

/// The method of instances of a class that has the given name.
pub open spec fn method_named(class_name: Text, key: Text) -> Option<Method> {
    if key == "GetChildren"@ {
        Some(Method::GetChildren)
    } else if key == "GetDescendants"@ {
        Some(Method::GetDescendants)
    } else if key == "FindFirstChild"@ {
        Some(Method::FindFirstChild)
    } else if key == "WaitForChild"@ {
        Some(Method::WaitForChild)
    } else if key == "IsA"@ {
        Some(Method::IsA)
    } else if key == "GetFullName"@ {
        Some(Method::GetFullName)
    } else if key == "GetService"@ {
        Some(Method::GetService)
    } else if key == "GetPropertyChangedSignal"@ {
        Some(Method::GetPropertyChangedSignal)
    } else if key == "Destroy"@ {
        Some(Method::Destroy)
    } else if key == "Clone"@ {
        Some(Method::Clone)
    } else if key == "ClearAllChildren"@ {
        Some(Method::ClearAllChildren)
    } else if key == "GetPlayers"@ && class_name == "Players"@ {
        Some(Method::GetPlayers)
    } else if key == "LoadCharacter"@ && class_name == "Player"@ {
        Some(Method::LoadCharacter)
    } else if key == "SetNetworkOwner"@ && class_name == "Part"@ {
        Some(Method::SetNetworkOwner)
    } else if key == "GetNetworkOwner"@ && class_name == "Part"@ {
        Some(Method::GetNetworkOwner)
    } else if key == "IsClient"@ && class_name == "RunService"@ {
        Some(Method::IsClient)
    } else if key == "IsServer"@ && class_name == "RunService"@ {
        Some(Method::IsServer)
    } else if key == "GetAsync"@ && class_name == "HttpService"@ {
        Some(Method::GetAsync)
    } else if key == "PostAsync"@ && class_name == "HttpService"@ {
        Some(Method::PostAsync)
    } else if key == "JSONEncode"@ && class_name == "HttpService"@ {
        Some(Method::JsonEncode)
    } else if key == "JSONDecode"@ && class_name == "HttpService"@ {
        Some(Method::JsonDecode)
    } else {
        None
    }
}

fn find_method(class_name: &str, key: &str) -> (r: Option<Method>)
    ensures
        r == method_named(class_name@, key@),
{
    if text_eq(key, "GetChildren") {
        Some(Method::GetChildren)
    } else if text_eq(key, "GetDescendants") {
        Some(Method::GetDescendants)
    } else if text_eq(key, "FindFirstChild") {
        Some(Method::FindFirstChild)
    } else if text_eq(key, "WaitForChild") {
        Some(Method::WaitForChild)
    } else if text_eq(key, "IsA") {
        Some(Method::IsA)
    } else if text_eq(key, "GetFullName") {
        Some(Method::GetFullName)
    } else if text_eq(key, "GetService") {
        Some(Method::GetService)
    } else if text_eq(key, "GetPropertyChangedSignal") {
        Some(Method::GetPropertyChangedSignal)
    } else if text_eq(key, "Destroy") {
        Some(Method::Destroy)
    } else if text_eq(key, "Clone") {
        Some(Method::Clone)
    } else if text_eq(key, "ClearAllChildren") {
        Some(Method::ClearAllChildren)
    } else if text_eq(key, "GetPlayers") && text_eq(class_name, "Players") {
        Some(Method::GetPlayers)
    } else if text_eq(key, "LoadCharacter") && text_eq(class_name, "Player") {
        Some(Method::LoadCharacter)
    } else if text_eq(key, "SetNetworkOwner") && text_eq(class_name, "Part") {
        Some(Method::SetNetworkOwner)
    } else if text_eq(key, "GetNetworkOwner") && text_eq(class_name, "Part") {
        Some(Method::GetNetworkOwner)
    } else if text_eq(key, "IsClient") && text_eq(class_name, "RunService") {
        Some(Method::IsClient)
    } else if text_eq(key, "IsServer") && text_eq(class_name, "RunService") {
        Some(Method::IsServer)
    } else if text_eq(key, "GetAsync") && text_eq(class_name, "HttpService") {
        Some(Method::GetAsync)
    } else if text_eq(key, "PostAsync") && text_eq(class_name, "HttpService") {
        Some(Method::PostAsync)
    } else if text_eq(key, "JSONEncode") && text_eq(class_name, "HttpService") {
        Some(Method::JsonEncode)
    } else if text_eq(key, "JSONDecode") && text_eq(class_name, "HttpService") {
        Some(Method::JsonDecode)
    } else {
        None
    }
}

/// Whether a name is that of an event.
pub open spec fn is_event_name(key: Text) -> bool {
    key == "ChildAdded"@ || key == "ChildRemoved"@ || key == "Changed"@ || key == "Destroying"@ || key == "AncestryChanged"@ || key == "DescendantAdded"@ || key == "DescendantRemoving"@ || key == "Touched"@ || key == "TouchEnded"@ || key == "PlayerAdded"@ || key == "PlayerRemoving"@
}

fn event_name(key: &str) -> (r: bool)
    ensures
        r == is_event_name(key@),
{
    text_eq(key, "ChildAdded") || text_eq(key, "ChildRemoved") || text_eq(key, "Changed") || text_eq(key, "Destroying") || text_eq(key, "AncestryChanged") || text_eq(key, "DescendantAdded") || text_eq(key, "DescendantRemoving") || text_eq(key, "Touched") || text_eq(key, "TouchEnded") || text_eq(key, "PlayerAdded") || text_eq(key, "PlayerRemoving")
}

/// An instance or nothing, as a member.
pub open spec fn instance_or_nil(i: Option<usize>) -> MemberView {
    match i {
        Some(i) => MemberView::Instance(i),
        None => MemberView::Nil,
    }
}

/// The member of an instance that has the given name. Children are not members.
pub open spec fn member_named(rt: RuntimeView, i: usize, key: Text) -> Option<MemberView> {
    let instance = rt.instances[i as int];
    if key == "Name"@ {
        Some(MemberView::Text(instance.name))
    } else if key == "ClassName"@ {
        Some(MemberView::Text(instance.class_name))
    } else if key == "Parent"@ {
        Some(instance_or_nil(instance.parent))
    } else if key == "LocalPlayer"@ && instance.class_name == "Players"@ {
        Some(instance_or_nil(rt.local_player))
    } else if is_event_name(key) {
        match runtime::event_ref(rt, i, key) {
            Some(signal) => Some(MemberView::Signal(signal)),
            None => Some(MemberView::Nil),
        }
    } else {
        match method_named(instance.class_name, key) {
            Some(method) => Some(MemberView::Method(method)),
            None => match instance::property_of(instance, key) {
                Some(value) => Some(MemberView::Property(value)),
                None => None,
            },
        }
    }
}

/// What a script finds under a name in an instance: a member, else the first child of that name.
pub open spec fn index_outcome(rt: RuntimeView, i: usize, key: Text) -> Result<MemberView, Text> {
    match instance::alive_check(rt.instances[i as int]) {
        Err(message) => Err(message),
        Ok(()) => match member_named(rt, i, key) {
            Some(member) => Ok(member),
            None => Ok(
                instance_or_nil(
                    runtime::first_named(rt.instances, rt.instances[i as int].children, key),
                ),
            ),
        },
    }
}

fn member_of(i: Option<usize>) -> (r: Member)
    ensures
        r@ == instance_or_nil(i),
{
    match i {
        Some(i) => Member::Instance(i),
        None => Member::Nil,
    }
}

/// The member of an instance that has the given name. Children are not members.
pub fn lookup_instance_member(runtime: &Runtime, instance: usize, key: &str) -> (r: Option<Member>)
    requires
        instance < runtime@.instances.len(),
    ensures
        text::opt_view(r) == member_named(runtime@, instance, key@),
{
    let at = runtime.instance(instance);
    if text_eq(key, "Name") {
        Some(Member::Text(at.name.as_str().to_owned()))
    } else if text_eq(key, "ClassName") {
        Some(Member::Text(at.class_name.as_str().to_owned()))
    } else if text_eq(key, "Parent") {
        Some(member_of(at.get_parent()))
    } else if text_eq(key, "LocalPlayer") && text_eq(at.class_name.as_str(), "Players") {
        Some(member_of(runtime.local_player()))
    } else if event_name(key) {
        match runtime.find_event(instance, key) {
            Some(signal) => Some(Member::Signal(signal)),
            None => Some(Member::Nil),
        }
    } else {
        match find_method(at.class_name.as_str(), key) {
            Some(method) => Some(Member::Method(method)),
            None => match at.get_property(key) {
                Some(value) => Some(Member::Property(value)),
                None => None,
            },
        }
    }
}

proof fn lemma_children_range(rt: RuntimeView, i: usize)
    requires
        rt.wf(),
        i < rt.instances.len(),
    ensures
        forall|k: int|
            0 <= k < rt.instances[i as int].children.len() ==> #[trigger]
            rt.instances[i as int].children[k] < rt.instances.len(),
{
    let kids = instance::kids_of(rt.instances);
    assert forall|k: int| 0 <= k < rt.instances[i as int].children.len() implies #[trigger]
    rt.instances[i as int].children[k] < rt.instances.len() by {
        assert(kids[i as int][k] == rt.instances[i as int].children[k]);
    }
}

/// What a script finds under a name in an instance: a member, else the first child of that name.
pub fn index_instance(runtime: &Runtime, instance: usize, key: &str) -> (r: Result<Member, Error>)
    requires
        runtime@.wf(),
        instance < runtime@.instances.len(),
    ensures
        error::res_view(r) == index_outcome(runtime@, instance, key@),
{
    if let Err(error) = runtime.instance(instance).assert_alive() {
        return Err(error);
    }
    match lookup_instance_member(runtime, instance, key) {
        Some(member) => Ok(member),
        None => {
            proof {
                lemma_children_range(runtime@, instance);
            }
            let children = runtime.children(instance);
            Ok(member_of(runtime.find_named(&children, key)))
        },
    }
}

/// How an instance is shown.
pub fn instance_to_string(runtime: &Runtime, instance: usize) -> (r: String)
    requires
        instance < runtime@.instances.len(),
    ensures
        r@ == runtime@.instances[instance as int].class_name + " \""@
            + runtime@.instances[instance as int].name + "\""@,
{
    let at = runtime.instance(instance);
    let mut out = concat3(at.class_name.as_str(), " \"", at.name.as_str());
    out.append("\"");
    out
}

// ---------------------------------------------------------------------------------------------
// Values
// ---------------------------------------------------------------------------------------------

/// A value of a script.
#[derive(Debug)]
pub enum LuaValue {
    Nil,
    Boolean(bool),
    Number(Number),
    String(String),
    Vector3(Vector3),
    Color3(Color3),
    Instance(usize),
    /// Anything else: tables, functions and the like.
    Other,
}

/// The content of a [`LuaValue`].
#[verifier::ext_equal]
pub enum LuaView {
    Nil,
    Boolean(bool),
    Number(Number),
    String(Text),
    Vector3(Vector3),
    Color3(Color3),
    Instance(usize),
    Other,
}

impl View for LuaValue {
    type V = LuaView;

    open spec fn view(&self) -> LuaView {
        match self {
            LuaValue::Nil => LuaView::Nil,
            LuaValue::Boolean(b) => LuaView::Boolean(*b),
            LuaValue::Number(n) => LuaView::Number(*n),
            LuaValue::String(s) => LuaView::String(s@),
            LuaValue::Vector3(v) => LuaView::Vector3(*v),
            LuaValue::Color3(c) => LuaView::Color3(*c),
            LuaValue::Instance(i) => LuaView::Instance(*i),
            LuaValue::Other => LuaView::Other,
        }
    }
}

/// The value as that of a property.
pub open spec fn as_property(value: LuaView) -> Result<ValueView, Text> {
    match value {
        LuaView::Boolean(b) => Ok(ValueView::Bool(b)),
        LuaView::Number(n) => Ok(ValueView::Number(n)),
        LuaView::String(s) => Ok(ValueView::String(s)),
        LuaView::Vector3(v) => Ok(ValueView::Vector3(v)),
        LuaView::Color3(c) => Ok(ValueView::Color3(c)),
        _ => Err(
            "Unsupported property value; use booleans, numbers, strings, Vector3, or Color3"@,
        ),
    }
}

/// The value as an instance or nothing.
pub open spec fn as_instance(value: LuaView) -> Result<Option<usize>, Text> {
    match value {
        LuaView::Nil => Ok(None),
        LuaView::Instance(i) => Ok(Some(i)),
        _ => Err("Expected an Instance"@),
    }
}

/// An instance, nothing, or an error, by its views.
pub open spec fn found_view(r: Result<Option<usize>, Error>) -> Result<Option<usize>, Text> {
    match r {
        Ok(found) => Ok(found),
        Err(error) => Err(error@),
    }
}

/// The value as that of a property.
pub fn lua_value_to_property(value: &LuaValue) -> (r: Result<PropertyValue, Error>)
    ensures
        error::res_view(r) == as_property(value@),
{
    match value {
        LuaValue::Boolean(b) => Ok(PropertyValue::Bool(*b)),
        LuaValue::Number(n) => Ok(PropertyValue::Number(*n)),
        LuaValue::String(s) => Ok(PropertyValue::String(s.as_str().to_owned())),
        LuaValue::Vector3(v) => Ok(PropertyValue::Vector3(*v)),
        LuaValue::Color3(c) => Ok(PropertyValue::Color3(*c)),
        _ => Err(
            failure(
                "Unsupported property value; use booleans, numbers, strings, Vector3, or Color3",
            ),
        ),
    }
}

/// The value as an instance or nothing.
pub fn value_to_instance(value: &LuaValue) -> (r: Result<Option<usize>, Error>)
    ensures
        found_view(r) == as_instance(value@),
{
    match value {
        LuaValue::Nil => Ok(None),
        LuaValue::Instance(i) => Ok(Some(*i)),
        _ => Err(failure("Expected an Instance")),
    }
}

/// What assigning to a member of an instance asks for.
#[derive(Debug)]
pub enum Assignment {
    /// The instance gets a parent or loses the one it has.
    Parent(Option<usize>),
    /// A property gets a value.
    Property(PropertyValue),
}

/// The content of an [`Assignment`].
#[verifier::ext_equal]
pub enum AssignmentView {
    Parent(Option<usize>),
    Property(ValueView),
}

impl View for Assignment {
    type V = AssignmentView;

    open spec fn view(&self) -> AssignmentView {
        match self {
            Assignment::Parent(parent) => AssignmentView::Parent(*parent),
            Assignment::Property(value) => AssignmentView::Property(value@),
        }
    }
}

/// What assigning to a member of an instance asks for.
pub open spec fn assign_outcome(
    rt: RuntimeView,
    i: usize,
    key: Text,
    value: LuaView,
) -> Result<AssignmentView, Text> {
    match instance::alive_check(rt.instances[i as int]) {
        Err(message) => Err(message),
        Ok(()) => if key == "Parent"@ {
            match as_instance(value) {
                Ok(parent) => Ok(AssignmentView::Parent(parent)),
                Err(message) => Err(message),
            }
        } else {
            match as_property(value) {
                Ok(property) => Ok(AssignmentView::Property(property)),
                Err(message) => Err(message),
            }
        },
    }
}

/// What assigning to a member of an instance asks for.
pub fn assign_instance(runtime: &Runtime, instance: usize, key: &str, value: &LuaValue) -> (r:
    Result<Assignment, Error>)
    requires
        instance < runtime@.instances.len(),
    ensures
        error::res_view(r) == assign_outcome(runtime@, instance, key@, value@),
{
    if let Err(error) = runtime.instance(instance).assert_alive() {
        return Err(error);
    }
    if text_eq(key, "Parent") {
        match value_to_instance(value) {
            Ok(parent) => Ok(Assignment::Parent(parent)),
            Err(error) => Err(error),
        }
    } else {
        match lua_value_to_property(value) {
            Ok(property) => Ok(Assignment::Property(property)),
            Err(error) => Err(error),
        }
    }
}

// ---------------------------------------------------------------------------------------------
// Methods
// ---------------------------------------------------------------------------------------------

/// The first child of the given name, or with `recursive` the first descendant.
pub open spec fn child_outcome(
    rt: RuntimeView,
    i: usize,
    name: Option<Text>,
    recursive: bool,
) -> Result<Option<usize>, Text> {
    match name {
        None => Err("FindFirstChild expects a name"@),
        Some(name) => Ok(
            runtime::first_named(
                rt.instances,
                if recursive {
                    tree::descendants(instance::kids_of(rt.instances), i)
                } else {
                    rt.instances[i as int].children
                },
                name,
            ),
        ),
    }
}

/// The first child of the given name, or with `recursive` the first descendant.
pub fn find_first_child(
    runtime: &Runtime,
    instance: usize,
    name: Option<&str>,
    recursive: bool,
) -> (r: Result<Option<usize>, Error>)
    requires
        runtime@.wf(),
        instance < runtime@.instances.len(),
    ensures
        found_view(r) == child_outcome(
            runtime@,
            instance,
            match name {
                Some(name) => Some(name@),
                None => None,
            },
            recursive,
        ),
{
    let name = match name {
        Some(name) => name,
        None => {
            return Err(failure("FindFirstChild expects a name"));
        },
    };
    let list = if recursive {
        proof {
            tree::lemma_subtree_range(instance::kids_of(runtime@.instances), instance);
        }
        runtime.all_descendants(instance)
    } else {
        proof {
            lemma_children_range(runtime@, instance);
        }
        runtime.children(instance)
    };
    Ok(runtime.find_named(&list, name))
}

/// What is reported when a script waits for a child that is not there.
pub fn wait_warning(found: Option<usize>) -> (r: Option<&'static str>)
    ensures
        match r {
            Some(warning) => found is None && warning@
                == "[roblox-env warning] WaitForChild does not yield yet; returning nil immediately."@,
            None => found is Some,
        },
{
    match found {
        Some(_) => None,
        None => Some(
            "[roblox-env warning] WaitForChild does not yield yet; returning nil immediately.",
        ),
    }
}

/// The service that a script asks an instance for. Only the top of the tree has services.
pub open spec fn service_outcome(rt: RuntimeView, i: usize, name: Text) -> Result<usize, Text> {
    if rt.instances[i as int].class_name != "DataModel"@ {
        Err("GetService is only available on the DataModel in this environment"@)
    } else {
        runtime::service_named(rt, name)
    }
}

/// The service that a script asks an instance for. Only the top of the tree has services.
pub fn get_service(runtime: &Runtime, instance: usize, name: &str) -> (r: Result<usize, Error>)
    requires
        instance < runtime@.instances.len(),
    ensures
        runtime::position_view(r) == service_outcome(runtime@, instance, name@),
{
    if !text_eq(runtime.instance(instance).class_name.as_str(), "DataModel") {
        return Err(
            failure("GetService is only available on the DataModel in this environment"),
        );
    }
    runtime.get_service(name)
}

/// The test for players.
pub open spec fn is_player(rt: RuntimeView) -> spec_fn(usize) -> bool {
    |i: usize| rt.instances[i as int].class_name == "Player"@
}

/// The players among the children of an instance.
pub fn get_players(runtime: &Runtime, instance: usize) -> (r: Vec<usize>)
    requires
        runtime@.wf(),
        instance < runtime@.instances.len(),
    ensures
        r@ == runtime@.instances[instance as int].children.filter(is_player(runtime@)),
{
    let children = runtime.children(instance);
    let ghost list = children@;
    let ghost test = is_player(runtime@);
    proof {
        lemma_children_range(runtime@, instance);
        reveal(Seq::filter);
        assert(list.take(0) =~= Seq::empty());
    }
    let mut out: Vec<usize> = Vec::new();
    let mut i: usize = 0;
    assert(out@ =~= list.take(0).filter(test));
    while i < children.len()
        invariant
            i <= children@.len(),
            list == children@,
            test == is_player(runtime@),
            forall|k: int| 0 <= k < list.len() ==> #[trigger] list[k] < runtime@.instances.len(),
            out@ == list.take(i as int).filter(test),
        decreases children@.len() - i,
    {
        let at = children[i];
        proof {
            reveal(Seq::filter);
            assert(list[i as int] < runtime@.instances.len());
            assert(list.take(i + 1).drop_last() =~= list.take(i as int));
            assert(list.take(i + 1).last() == at);
        }
        if text_eq(runtime.instance(at).class_name.as_str(), "Player") {
            out.push(at);
        }
        i += 1;
    }
    assert(list.take(i as int) =~= list);
    out
}

/// Why no character is loaded.
pub fn load_character_error(mode: RuntimeMode) -> (r: Error)
    ensures
        r@ == (if mode == RuntimeMode::Client {
            "LoadCharacter is disabled in emulate-client mode"@
        } else {
            "LoadCharacter is not implemented yet"@
        }),
{
    if mode == RuntimeMode::Client {
        failure("LoadCharacter is disabled in emulate-client mode")
    } else {
        failure("LoadCharacter is not implemented yet")
    }
}

/// What comes of a script giving a part to a player: the runtime, or why that cannot be done. Only
/// the server may do it.
pub open spec fn owner_outcome(rt: RuntimeView, i: usize, owner: LuaView) -> (
    RuntimeView,
    Result<(), Text>,
) {
    let part = rt.instances[i as int];
    if rt.mode != RuntimeMode::Server {
        (rt, Err("SetNetworkOwner can only be called by the server"@))
    } else {
        match owner {
            LuaView::Nil => if part.class_name == "Part"@ {
                (runtime::with_instance(rt, i, InstanceView { network_owner_name: None, ..part }), Ok(()))
            } else {
                (rt, Err("SetNetworkOwner is only available on Part"@))
            },
            LuaView::Instance(player) => if rt.instances[player as int].class_name
                != "Player"@ {
                (rt, Err("SetNetworkOwner expects a Player or nil"@))
            } else if part.class_name == "Part"@ {
                let name = rt.instances[player as int].name;
                (
                    runtime::with_instance(
                        rt,
                        i,
                        InstanceView { network_owner_name: Some(name), ..part },
                    ),
                    Ok(()),
                )
            } else {
                (rt, Err("SetNetworkOwner is only available on Part"@))
            },
            _ => (rt, Err("SetNetworkOwner expects a Player or nil"@)),
        }
    }
}

/// Gives a part to a player, or to nobody, as a script asks for it.
pub fn set_network_owner(runtime: &mut Runtime, instance: usize, owner: &LuaValue) -> (r: Result<
    (),
    Error,
>)
    requires
        old(runtime)@.wf(),
        instance < old(runtime)@.instances.len(),
        owner@ matches LuaView::Instance(player) ==> player < old(runtime)@.instances.len(),
    ensures
        final(runtime)@.wf(),
        (final(runtime)@, error::unit_view(r)) == owner_outcome(old(runtime)@, instance, owner@),
{
    if runtime.mode() != RuntimeMode::Server {
        return Err(failure("SetNetworkOwner can only be called by the server"));
    }
    let owner_name = match owner {
        LuaValue::Nil => None,
        LuaValue::Instance(player) => {
            let player = runtime.instance(*player);
            if !text_eq(player.class_name.as_str(), "Player") {
                return Err(failure("SetNetworkOwner expects a Player or nil"));
            }
            Some(player.name.as_str().to_owned())
        },
        _ => {
            return Err(failure("SetNetworkOwner expects a Player or nil"));
        },
    };
    runtime.set_network_owner(instance, owner_name)
}

/// The player who moves a part, where that player is in the game.
pub open spec fn owner_of(rt: RuntimeView, i: usize) -> Option<usize> {
    match rt.instances[i as int].network_owner_name {
        Some(name) => runtime::player_named(rt, name),
        None => None,
    }
}

/// The player who moves a part, where that player is in the game.
pub fn get_network_owner(runtime: &Runtime, instance: usize) -> (r: Option<usize>)
    requires
        runtime@.wf(),
        instance < runtime@.instances.len(),
    ensures
        r == owner_of(runtime@, instance),
{
    match runtime.get_network_owner_name(instance) {
        Some(name) => runtime.find_player_by_name(name.as_str()),
        None => None,
    }
}

/// Fails where an instance says that HTTP is switched off.
pub fn assert_http_enabled(instance: &Instance) -> (r: Result<(), Error>)
    ensures
        error::unit_view(r) == (if instance::property_of(instance@, "HttpEnabled"@) == Some(ValueView::Bool(false)) {
            Err::<(), Text>("HttpService is disabled"@)
        } else {
            Ok(())
        }),
{
    match instance.get_property("HttpEnabled") {
        Some(PropertyValue::Bool(false)) => Err(failure("HttpService is disabled")),
        _ => Ok(()),
    }
}

// ---------------------------------------------------------------------------------------------
// Signals and connections
// ---------------------------------------------------------------------------------------------

/// What a script finds under a name in a signal: `true` connects for one call only.
pub fn signal_member(key: &str) -> (r: Option<bool>)
    ensures
        r == (if key@ == "Connect"@ {
            Some(false)
        } else if key@ == "Once"@ {
            Some(true)
        } else {
            None::<bool>
        }),
{
    if text_eq(key, "Connect") {
        Some(false)
    } else if text_eq(key, "Once") {
        Some(true)
    } else {
        None
    }
}

/// What a script finds under a name in a connection.
#[derive(Clone, Copy, Debug, PartialEq, Eq, Structural)]
pub enum ConnectionMember {
    Nil,
    Disconnect,
    Connected(bool),
}

/// What a script finds under a name in a connection.
pub fn connection_member(runtime: &Runtime, connection: ConnectionHandle, key: &str) -> (r:
    ConnectionMember)
    requires
        runtime::valid_signal(runtime@, connection.signal),
    ensures
        r == (if key@ == "Disconnect"@ {
            ConnectionMember::Disconnect
        } else if key@ == "Connected"@ {
            ConnectionMember::Connected(
                exists|k: int|
                    0 <= k < runtime::signal_of(runtime@, connection.signal).listeners.len() && (
                    #[trigger] runtime::signal_of(runtime@, connection.signal).listeners[k]).id
                        == connection.id,
            )
        } else {
            ConnectionMember::Nil
        }),
{
    if text_eq(key, "Disconnect") {
        ConnectionMember::Disconnect
    } else if text_eq(key, "Connected") {
        ConnectionMember::Connected(runtime.is_connected(connection))
    } else {
        ConnectionMember::Nil
    }
}

// ---------------------------------------------------------------------------------------------
// Scripts
// ---------------------------------------------------------------------------------------------

/// Whether scripts of a class run by themselves: `Script` on the server and `LocalScript` on a
/// client.
pub open spec fn auto_runs(mode: RuntimeMode, class_name: Text) -> bool {
    match mode {
        RuntimeMode::Server => class_name == "Script"@,
        RuntimeMode::Client => class_name == "LocalScript"@,
    }
}

/// Whether scripts of a class run by themselves.
pub fn should_auto_run_class(mode: RuntimeMode, class_name: &str) -> (r: bool)
    ensures
        r == auto_runs(mode, class_name@),
{
    match mode {
        RuntimeMode::Server => text_eq(class_name, "Script"),
        RuntimeMode::Client => text_eq(class_name, "LocalScript"),
    }
}

/// The source code of a script.
pub open spec fn source_of(instance: InstanceView) -> Text {
    match instance::property_of(instance, "Source"@) {
        Some(ValueView::String(source)) => source,
        _ => text::blank(),
    }
}

/// The source code of a script.
pub fn script_source(instance: &Instance) -> (r: String)
    ensures
        r@ == source_of(instance@),
{
    match instance.get_property("Source") {
        Some(PropertyValue::String(source)) => source,
        _ => {
            let empty = String::new();
            assert(empty@ =~= text::blank());
            empty
        },
    }
}

/// The name under which a script appears in messages: its file, else its place in the tree.
pub open spec fn chunk_name_of(rt: RuntimeView, i: usize) -> Text {
    match rt.instances[i as int].script_path {
        Some(path) => path,
        None => instance::full_name_of(rt.instances, i),
    }
}

/// The name under which a script appears in messages: its file, else its place in the tree.
pub fn script_chunk_name(runtime: &Runtime, instance: usize) -> (r: String)
    requires
        runtime@.wf(),
        instance < runtime@.instances.len(),
    ensures
        r@ == chunk_name_of(runtime@, instance),
{
    match &runtime.instance(instance).script_path {
        Some(path) => path.as_str().to_owned(),
        None => runtime.full_name(instance),
    }
}

/// The module that a script requires.
pub open spec fn require_outcome(rt: RuntimeView, target: LuaView) -> Result<usize, Text> {
    match target {
        LuaView::Instance(i) if rt.instances[i as int].class_name == "ModuleScript"@ => Ok(i),
        _ => Err("require currently expects a ModuleScript instance"@),
    }
}

/// The module that a script requires.
pub fn require_target(runtime: &Runtime, target: &LuaValue) -> (r: Result<usize, Error>)
    requires
        target@ matches LuaView::Instance(i) ==> i < runtime@.instances.len(),
    ensures
        runtime::position_view(r) == require_outcome(runtime@, target@),
{
    if let LuaValue::Instance(i) = target {
        if text_eq(runtime.instance(*i).class_name.as_str(), "ModuleScript") {
            return Ok(*i);
        }
    }
    Err(failure("require currently expects a ModuleScript instance"))
}

/// What modules returned when they were first required, by the numbers of their instances. The
/// values live outside the library and are known here by numbers.
#[derive(Debug)]
pub struct ModuleCache {
    values: HashMap<u64, u64>,
}

impl View for ModuleCache {
    type V = Map<u64, u64>;

    closed spec fn view(&self) -> Map<u64, u64> {
        self.values@
    }
}

impl ModuleCache {
    /// No module has been required yet.
    pub fn new() -> (r: ModuleCache)
        ensures
            r@ == Map::<u64, u64>::empty(),
    {
        ModuleCache { values: HashMap::new() }
    }

    /// What a module returned, where it has been required before.
    pub fn get(&self, id: u64) -> (r: Option<u64>)
        ensures
            r == (if self@.contains_key(id) {
                Some(self@[id])
            } else {
                None::<u64>
            }),
    {
        broadcast use vstd::std_specs::hash::group_hash_axioms;

        match self.values.get(&id) {
            Some(value) => Some(*value),
            None => None,
        }
    }

    /// Remembers what a module returned.
    pub fn insert(&mut self, id: u64, value: u64)
        ensures
            final(self)@ == old(self)@.insert(id, value),
    {
        broadcast use vstd::std_specs::hash::group_hash_axioms;

        self.values.insert(id, value);
    }
}

// ---------------------------------------------------------------------------------------------
// Laws
// ---------------------------------------------------------------------------------------------

/// What a script reads where a property has a value.
pub open spec fn read_as(value: ValueView) -> LuaView {
    match value {
        ValueView::Bool(b) => LuaView::Boolean(b),
        ValueView::Number(n) => LuaView::Number(n),
        ValueView::String(s) => LuaView::String(s),
        ValueView::Vector3(v) => LuaView::Vector3(v),
        ValueView::Color3(c) => LuaView::Color3(c),
        ValueView::BinaryString(_) => LuaView::Other,
    }
}

/// Assigning to an instance that is alive asks for what was assigned: `Parent` takes an instance or
/// nothing, every other name a value that a property can have. Nothing else can be assigned.
pub proof fn law_assignments_ask_for_the_value(rt: RuntimeView, i: usize, key: Text, value: LuaView)
    ensures
        match assign_outcome(rt, i, key, value) {
            Ok(AssignmentView::Parent(None)) => key == "Parent"@ && value is Nil,
            Ok(AssignmentView::Parent(Some(p))) => key == "Parent"@ && value == LuaView::Instance(p),
            Ok(AssignmentView::Property(v)) => key != "Parent"@ && read_as(v) == value && !(value is Other),
            Err(_) => rt.instances[i as int].destroyed || (if key == "Parent"@ {
                !(value is Nil || value is Instance)
            } else {
                value is Nil || value is Instance || value is Other
            }),
        },
        rt.instances[i as int].destroyed ==> assign_outcome(rt, i, key, value) is Err,
{
}

/// A script finds the name, the class and the parent of an instance that is alive, its events under
/// their names, and the first child of a name under which there is nothing else. It finds nothing in an
/// instance that was destroyed.
pub proof fn law_what_scripts_find(rt: RuntimeView, i: usize, key: Text)
    requires
        i < rt.instances.len(),
    ensures
        ({
            let it = rt.instances[i as int];
            let found = index_outcome(rt, i, key);
            &&& found is Err <==> it.destroyed
            &&& !it.destroyed ==> {
                &&& index_outcome(rt, i, "Name"@) == Ok::<MemberView, Text>(MemberView::Text(it.name))
                &&& index_outcome(rt, i, "ClassName"@) == Ok::<MemberView, Text>(
                    MemberView::Text(it.class_name),
                )
                &&& index_outcome(rt, i, "Parent"@) == Ok::<MemberView, Text>(
                    match it.parent {
                        Some(p) => MemberView::Instance(p),
                        None => MemberView::Nil,
                    },
                )
                &&& it.class_name == "Players"@ ==> index_outcome(rt, i, "LocalPlayer"@) == Ok::<
                    MemberView,
                    Text,
                >(
                    match rt.local_player {
                        Some(p) => MemberView::Instance(p),
                        None => MemberView::Nil,
                    },
                )
                &&& found matches Ok(MemberView::Property(value)) ==> it.properties.contains_key(key)
                    && it.properties[key] == value
                &&& it.properties.contains_key(key) ==> !(found matches Ok(MemberView::Instance(c))
                    && it.children.contains(c) && key != "Parent"@ && key != "LocalPlayer"@)
                &&& found matches Ok(MemberView::Instance(c)) ==> (key == "Parent"@ && it.parent
                    == Some(c)) || (key == "LocalPlayer"@ && rt.local_player == Some(c))
                    || rt.instances[c as int].name == key && it.children.contains(c)
                &&& member_named(rt, i, key) is None ==> match runtime::first_named(
                    rt.instances,
                    it.children,
                    key,
                ) {
                    Some(c) => found == Ok::<MemberView, Text>(MemberView::Instance(c)),
                    None => found == Ok::<MemberView, Text>(MemberView::Nil),
                }
            }
        }),
{
    reveal_strlit("Name");
    reveal_strlit("ClassName");
    reveal_strlit("Parent");
    reveal_strlit("LocalPlayer");
    assert("Name"@.len() == 4 && "ClassName"@.len() == 9 && "Parent"@.len() == 6
        && "LocalPlayer"@.len() == 11);
    laws::law_first_named(rt.instances, rt.instances[i as int].children, key);
}

/// The methods that every instance has, by their names.
pub open spec fn common_methods() -> Seq<(Text, Method)> {
    seq![
        ("GetChildren"@, Method::GetChildren),
        ("GetDescendants"@, Method::GetDescendants),
        ("FindFirstChild"@, Method::FindFirstChild),
        ("WaitForChild"@, Method::WaitForChild),
        ("IsA"@, Method::IsA),
        ("GetFullName"@, Method::GetFullName),
        ("GetService"@, Method::GetService),
        ("GetPropertyChangedSignal"@, Method::GetPropertyChangedSignal),
        ("Destroy"@, Method::Destroy),
        ("Clone"@, Method::Clone),
        ("ClearAllChildren"@, Method::ClearAllChildren),
    ]
}

/// The methods that instances of one class have, by the class and their names.
pub open spec fn special_methods() -> Seq<(Text, Text, Method)> {
    seq![
        ("Players"@, "GetPlayers"@, Method::GetPlayers),
        ("Player"@, "LoadCharacter"@, Method::LoadCharacter),
        ("Part"@, "SetNetworkOwner"@, Method::SetNetworkOwner),
        ("Part"@, "GetNetworkOwner"@, Method::GetNetworkOwner),
        ("RunService"@, "IsClient"@, Method::IsClient),
        ("RunService"@, "IsServer"@, Method::IsServer),
        ("HttpService"@, "GetAsync"@, Method::GetAsync),
        ("HttpService"@, "PostAsync"@, Method::PostAsync),
        ("HttpService"@, "JSONEncode"@, Method::JsonEncode),
        ("HttpService"@, "JSONDecode"@, Method::JsonDecode),
    ]
}

proof fn lemma_method_names()
    ensures
        forall|a: int, b: int|
            0 <= a < b < common_methods().len() ==> (#[trigger] common_methods()[a]).0 != (
            #[trigger] common_methods()[b]).0,
        forall|a: int, b: int|
            0 <= a < b < special_methods().len() ==> (#[trigger] special_methods()[a]).1 != (
            #[trigger] special_methods()[b]).1,
        forall|a: int, b: int|
            0 <= a < common_methods().len() && 0 <= b < special_methods().len() ==> (
            #[trigger] common_methods()[a]).0 != (#[trigger] special_methods()[b]).1,
{
    reveal_strlit("GetChildren");
    reveal_strlit("GetDescendants");
    reveal_strlit("FindFirstChild");
    reveal_strlit("WaitForChild");
    reveal_strlit("IsA");
    reveal_strlit("GetFullName");
    reveal_strlit("GetService");
    reveal_strlit("GetPropertyChangedSignal");
    reveal_strlit("Destroy");
    reveal_strlit("Clone");
    reveal_strlit("ClearAllChildren");
    reveal_strlit("GetPlayers");
    reveal_strlit("LoadCharacter");
    reveal_strlit("SetNetworkOwner");
    reveal_strlit("GetNetworkOwner");
    reveal_strlit("IsClient");
    reveal_strlit("IsServer");
    reveal_strlit("GetAsync");
    reveal_strlit("PostAsync");
    reveal_strlit("JSONEncode");
    reveal_strlit("JSONDecode");
    assert("GetChildren"@.len() == 11 && "GetDescendants"@.len() == 14 && "FindFirstChild"@.len() == 14
        && "WaitForChild"@.len() == 12 && "IsA"@.len() == 3 && "GetFullName"@.len() == 11
        && "GetService"@.len() == 10 && "GetPropertyChangedSignal"@.len() == 24 && "Destroy"@.len() == 7
        && "Clone"@.len() == 5 && "ClearAllChildren"@.len() == 16);
    assert("GetPlayers"@.len() == 10 && "LoadCharacter"@.len() == 13 && "SetNetworkOwner"@.len() == 15
        && "GetNetworkOwner"@.len() == 15 && "IsClient"@.len() == 8 && "IsServer"@.len() == 8
        && "GetAsync"@.len() == 8 && "PostAsync"@.len() == 9 && "JSONEncode"@.len() == 10
        && "JSONDecode"@.len() == 10);
    assert("GetChildren"@[3] == 'C' && "GetFullName"@[3] == 'F');
    assert("GetDescendants"@[0] == 'G' && "FindFirstChild"@[0] == 'F');
    assert("GetService"@[3] == 'S' && "GetPlayers"@[3] == 'P' && "JSONEncode"@[4] == 'E'
        && "JSONDecode"@[4] == 'D' && "GetService"@[4] == 'e' && "GetPlayers"@[4] == 'l'
        && "JSONEncode"@[0] == 'J' && "JSONDecode"@[0] == 'J' && "GetService"@[0] == 'G'
        && "GetPlayers"@[0] == 'G');
    assert("SetNetworkOwner"@[0] == 'S' && "GetNetworkOwner"@[0] == 'G');
    assert("IsClient"@[2] == 'C' && "IsServer"@[2] == 'S' && "GetAsync"@[2] == 't');
}

/// Every instance has the common methods, and instances of a class have those of their class besides;
/// there are no others.
pub proof fn law_methods(class_name: Text, key: Text, method: Method)
    ensures
        method_named(class_name, key) == Some(method) <==> (exists|k: int|
            0 <= k < common_methods().len() && #[trigger] common_methods()[k] == (key, method)) || (exists|
            k: int,
        |
            0 <= k < special_methods().len() && #[trigger] special_methods()[k] == (
                class_name,
                key,
                method,
            )),
{
    lemma_method_names();
    let common = common_methods();
    let special = special_methods();
    let found = method_named(class_name, key);
    if found == Some(method) {
        if method is GetChildren {
            assert(common[0] == (key, method));
        } else if method is GetDescendants {
            assert(common[1] == (key, method));
        } else if method is FindFirstChild {
            assert(common[2] == (key, method));
        } else if method is WaitForChild {
            assert(common[3] == (key, method));
        } else if method is IsA {
            assert(common[4] == (key, method));
        } else if method is GetFullName {
            assert(common[5] == (key, method));
        } else if method is GetService {
            assert(common[6] == (key, method));
        } else if method is GetPropertyChangedSignal {
            assert(common[7] == (key, method));
        } else if method is Destroy {
            assert(common[8] == (key, method));
        } else if method is Clone {
            assert(common[9] == (key, method));
        } else if method is ClearAllChildren {
            assert(common[10] == (key, method));
        } else if method is GetPlayers {
            assert(special[0] == (class_name, key, method));
        } else if method is LoadCharacter {
            assert(special[1] == (class_name, key, method));
        } else if method is SetNetworkOwner {
            assert(special[2] == (class_name, key, method));
        } else if method is GetNetworkOwner {
            assert(special[3] == (class_name, key, method));
        } else if method is IsClient {
            assert(special[4] == (class_name, key, method));
        } else if method is IsServer {
            assert(special[5] == (class_name, key, method));
        } else if method is GetAsync {
            assert(special[6] == (class_name, key, method));
        } else if method is PostAsync {
            assert(special[7] == (class_name, key, method));
        } else if method is JsonEncode {
            assert(special[8] == (class_name, key, method));
        } else {
            assert(special[9] == (class_name, key, method));
        }
    }
    if exists|k: int| 0 <= k < common.len() && #[trigger] common[k] == (key, method) {
        let k = choose|k: int| 0 <= k < common.len() && #[trigger] common[k] == (key, method);
        lemma_common_method(class_name, k);
    }
    if exists|k: int| 0 <= k < special.len() && #[trigger] special[k] == (class_name, key, method) {
        let k = choose|k: int|
            0 <= k < special.len() && #[trigger] special[k] == (class_name, key, method);
        lemma_special_method(k);
    }
}

proof fn lemma_common_method(class_name: Text, k: int)
    requires
        0 <= k < common_methods().len(),
    ensures
        method_named(class_name, common_methods()[k].0) == Some(common_methods()[k].1),
{
    lemma_method_names();
    let c = common_methods();
    assert(c[0].0 == "GetChildren"@ && c[1].0 == "GetDescendants"@ && c[2].0 == "FindFirstChild"@
        && c[3].0 == "WaitForChild"@ && c[4].0 == "IsA"@ && c[5].0 == "GetFullName"@ && c[6].0
        == "GetService"@ && c[7].0 == "GetPropertyChangedSignal"@ && c[8].0 == "Destroy"@ && c[9].0
        == "Clone"@ && c[10].0 == "ClearAllChildren"@);
}

proof fn lemma_special_method(k: int)
    requires
        0 <= k < special_methods().len(),
    ensures
        method_named(special_methods()[k].0, special_methods()[k].1) == Some(special_methods()[k].2),
{
    lemma_method_names();
    let c = common_methods();
    let s = special_methods();
    assert(c[0].0 == "GetChildren"@ && c[1].0 == "GetDescendants"@ && c[2].0 == "FindFirstChild"@
        && c[3].0 == "WaitForChild"@ && c[4].0 == "IsA"@ && c[5].0 == "GetFullName"@ && c[6].0
        == "GetService"@ && c[7].0 == "GetPropertyChangedSignal"@ && c[8].0 == "Destroy"@ && c[9].0
        == "Clone"@ && c[10].0 == "ClearAllChildren"@);
    assert(s[0].1 == "GetPlayers"@ && s[1].1 == "LoadCharacter"@ && s[2].1 == "SetNetworkOwner"@
        && s[3].1 == "GetNetworkOwner"@ && s[4].1 == "IsClient"@ && s[5].1 == "IsServer"@ && s[6].1
        == "GetAsync"@ && s[7].1 == "PostAsync"@ && s[8].1 == "JSONEncode"@ && s[9].1 == "JSONDecode"@);
}

/// Looking for a child by its name finds one that has it: a child of the instance, or where everything
/// below is looked at, one from which the way up leads to the instance. It finds nothing only where
/// there is none.
pub proof fn law_children_are_found(rt: RuntimeView, i: usize, name: Text, recursive: bool, c: usize)
    requires
        rt.wf(),
        moves::consistent(rt.instances),
        i < rt.instances.len(),
        c < rt.instances.len(),
    ensures
        ({
            let suits = |c: usize|
                rt.instances[c as int].name == name && (if recursive {
                    c != i && tree::lineage(instance::ups_of(rt.instances), c).contains(i)
                } else {
                    rt.instances[c as int].parent == Some(i)
                });
            match child_outcome(rt, i, Some(name), recursive) {
                Ok(Some(found)) => found < rt.instances.len() && suits(found),
                Ok(None) => !suits(c),
                Err(_) => false,
            }
        }),
{
    let kids = instance::kids_of(rt.instances);
    let children = rt.instances[i as int].children;
    let below = tree::descendants(kids, i);
    let list = if recursive {
        below
    } else {
        children
    };
    laws::law_first_named(rt.instances, list, name);
    assert(kids[i as int] == children);
    tree::lemma_subtree_range(kids, i);
    let whole = tree::subtree(kids, i);
    assert(whole =~= seq![i] + below);
    match runtime::first_named(rt.instances, list, name) {
        Some(found) => {
            let k = choose|k: int| 0 <= k < list.len() && #[trigger] list[k] == found;
            if recursive {
                assert(whole[k + 1] == found);
                assert(found < rt.instances.len());
                assert(whole.contains(found));
                moves::law_below_is_where_the_way_up_leads(rt, i, found);
                assert(below.contains(found));
                tree::law_nothing_lies_below_itself(kids, i);
            } else {
                assert(kids[i as int][k] == found);
            }
        },
        None => {
            if recursive {
                moves::law_below_is_where_the_way_up_leads(rt, i, c);
                if c != i && whole.contains(c) {
                    let k = choose|k: int| 0 <= k < whole.len() && whole[k] == c;
                    assert(below[k - 1] == c);
                    assert(list[k - 1] == c);
                }
            } else if rt.instances[c as int].parent == Some(i) {
                assert(children.contains(c));
                let k = choose|k: int| 0 <= k < children.len() && children[k] == c;
                assert(list[k] == c);
            }
        },
    }
}

/// Only the server gives parts away, and only to players or to nobody. The part is then the player's,
/// and nothing else changes; where it is refused, nothing changes.
pub proof fn law_owners_are_given_by_the_server(rt: RuntimeView, i: usize, owner: LuaView)
    requires
        i < rt.instances.len(),
        owner matches LuaView::Instance(player) ==> player < rt.instances.len(),
    ensures
        ({
            let (after, result) = owner_outcome(rt, i, owner);
            let named = match owner {
                LuaView::Nil => Some(None::<Text>),
                LuaView::Instance(p) => if rt.instances[p as int].class_name == "Player"@ {
                    Some(Some(rt.instances[p as int].name))
                } else {
                    None
                },
                _ => None,
            };
            &&& result is Ok <==> rt.mode == RuntimeMode::Server && rt.instances[i as int].class_name
                == "Part"@ && named is Some
            &&& result is Err ==> after == rt
            &&& result is Ok ==> {
                &&& after.instances[i as int] == (InstanceView {
                    network_owner_name: named->Some_0,
                    ..rt.instances[i as int]
                })
                &&& after.instances.len() == rt.instances.len()
                &&& forall|j: int|
                    0 <= j < rt.instances.len() && j != i ==> #[trigger] after.instances[j]
                        == rt.instances[j]
                &&& after == (RuntimeView { instances: after.instances, ..rt })
            }
        }),
{
}

/// A script can be required where it is a module, and nothing else can. Services are found from the top
/// of the tree alone.
pub proof fn law_what_can_be_asked_for(rt: RuntimeView, target: LuaView, i: usize, name: Text)
    ensures
        require_outcome(rt, target) matches Ok(m) ==> target == LuaView::Instance(m),
        require_outcome(rt, target) is Ok <==> (target matches LuaView::Instance(m)
            && rt.instances[m as int].class_name == "ModuleScript"@),
        service_outcome(rt, i, name) is Ok <==> rt.instances[i as int].class_name == "DataModel"@
            && rt.services.contains_key(text::lower(name)),
        service_outcome(rt, i, name) matches Ok(found) ==> found == rt.services[text::lower(name)],
{
}

/// The code of a script is what its `Source` was last set to.
pub proof fn law_source_is_what_was_set(rt: RuntimeView, i: usize, source: Text)
    requires
        rt.wf(),
        i < rt.instances.len(),
        runtime::set_property_outcome(rt, i, "Source"@, ValueView::String(source)).2 is Ok,
    ensures
        source_of(
            runtime::set_property_outcome(rt, i, "Source"@, ValueView::String(source)).0.instances[i as int],
        ) == source,
{
    reveal_strlit("Source");
    reveal_strlit("Name");
    reveal_strlit("ClassName");
    reveal_strlit("Anchored");
    reveal_strlit("CharacterAutoLoads");
    assert("Source"@.len() == 6 && "Name"@.len() == 4 && "ClassName"@.len() == 9 && "Anchored"@.len() == 8
        && "CharacterAutoLoads"@.len() == 18);
    laws::law_setting_stores(rt, i, "Source"@, ValueView::String(source));
}

/// A script goes by the path of its file in messages, and by its full name where it comes from no file.
pub proof fn law_messages_name_the_file(rt: RuntimeView, i: usize)
    ensures
        match rt.instances[i as int].script_path {
            Some(path) => chunk_name_of(rt, i) == path,
            None => chunk_name_of(rt, i) == instance::full_name_of(rt.instances, i),
        },
{
}

/// The events of an instance that is alive are found under their names.
pub proof fn law_events_are_found(rt: RuntimeView, i: usize, k: int)
    requires
        i < rt.instances.len(),
        !rt.instances[i as int].destroyed,
        rt.instances[i as int].events.len() <= usize::MAX,
        0 <= k < rt.instances[i as int].events.len(),
        ({
            let name = rt.instances[i as int].events[k].name;
            laws::common_events().contains(name) || name == "Touched"@ || name == "TouchEnded"@ || name
                == "PlayerAdded"@ || name == "PlayerRemoving"@
        }),
    ensures
        ({
            let events = rt.instances[i as int].events;
            index_outcome(rt, i, events[k].name) matches Ok(MemberView::Signal(found)) && found.instance == i
                && (found.slot matches SignalSlot::Event(e) && e < events.len() && events[e as int].name
                == events[k].name)
        }),
{
    let events = rt.instances[i as int].events;
    let name = events[k].name;
    let common = laws::common_events();
    reveal_strlit("Name");
    reveal_strlit("ClassName");
    reveal_strlit("Parent");
    reveal_strlit("LocalPlayer");
    reveal_strlit("AncestryChanged");
    reveal_strlit("Changed");
    reveal_strlit("ChildAdded");
    reveal_strlit("ChildRemoved");
    reveal_strlit("DescendantAdded");
    reveal_strlit("DescendantRemoving");
    reveal_strlit("Destroying");
    reveal_strlit("Touched");
    reveal_strlit("TouchEnded");
    reveal_strlit("PlayerAdded");
    reveal_strlit("PlayerRemoving");
    assert("Name"@.len() == 4 && "ClassName"@.len() == 9 && "Parent"@.len() == 6
        && "LocalPlayer"@.len() == 11 && "LocalPlayer"@[0] == 'L');
    assert("AncestryChanged"@.len() == 15 && "Changed"@.len() == 7 && "ChildAdded"@.len() == 10
        && "ChildRemoved"@.len() == 12 && "DescendantAdded"@.len() == 15 && "DescendantRemoving"@.len() == 18
        && "Destroying"@.len() == 10 && "Touched"@.len() == 7 && "TouchEnded"@.len() == 10
        && "PlayerAdded"@.len() == 11 && "PlayerAdded"@[0] == 'P' && "PlayerRemoving"@.len() == 14);
    if common.contains(name) {
        let j = choose|j: int| 0 <= j < common.len() && common[j] == name;
        assert(common[0] == "AncestryChanged"@ && common[1] == "Changed"@ && common[2] == "ChildAdded"@
            && common[3] == "ChildRemoved"@ && common[4] == "DescendantAdded"@ && common[5]
            == "DescendantRemoving"@ && common[6] == "Destroying"@);
    }
    instance::lemma_event_at(events, name);
    assert(is_event_name(name));
}

} // verus!
