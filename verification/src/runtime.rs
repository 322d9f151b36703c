//! The runtime: all instances, the services among them, and the operations that change them.
//!
//! Listeners of signals run outside the library and may call back into it. An operation that fires
//! signals on its way is therefore offered in steps: each step changes the runtime and says which
//! signals fire before the next step is taken.

use vstd::prelude::*;
use vstd::string::*;

use crate::error::{self, Error, failure};
use crate::instance::{
    self, Instance, InstanceView, PropertyKind, PropertySignalView, PropertyValue, ValueView,
};
use crate::project::copy_opt_text;
use crate::signal::{
    self, ArgView, ConnectionHandle, Listener, Signal, SignalArg, SignalRef, SignalSlot,
    SignalView,
};
use crate::text::{self, Text, concat3, lowered, text_eq};
use crate::tree;

verus! {

/// Which side of the connection the runtime stands for.
#[derive(Clone, Copy, Debug, PartialEq, Eq, Structural)]
pub enum RuntimeMode {
    Server,
    Client,
}

/// A service with the name by which it is found, in lower case.
#[derive(Debug)]
struct Service {
    key: String,
    instance: usize,
}

/// The runtime. It keeps every instance that was made in it.
#[derive(Debug)]
pub struct Runtime {
    next_id: u64,
    mode: RuntimeMode,
    data_model: usize,
    services: Vec<Service>,
    local_player: Option<usize>,
    instances: Vec<Instance>,
}

/// The content of a [`Runtime`].
#[verifier::ext_equal]
pub struct RuntimeView {
    pub next_id: u64,
    pub mode: RuntimeMode,
    pub data_model: usize,
    pub services: Map<Text, usize>,
    pub local_player: Option<usize>,
    pub instances: Seq<InstanceView>,
}

/// The services by name; of two with the same name the later one counts.
spec fn service_map(list: Seq<Service>) -> Map<Text, usize>
    decreases list.len(),
{
    if list.len() == 0 {
        Map::empty()
    } else {
        service_map(list.drop_last()).insert(list.last().key@, list.last().instance)
    }
}

impl View for Runtime {
    type V = RuntimeView;

    closed spec fn view(&self) -> RuntimeView {
        RuntimeView {
            next_id: self.next_id,
            mode: self.mode,
            data_model: self.data_model,
            services: service_map(self.services@),
            local_player: self.local_player,
            instances: text::views(self.instances@),
        }
    }
}

// ---------------------------------------------------------------------------------------------
// What always holds
// ---------------------------------------------------------------------------------------------

/// Whether a part is anchored. Other instances pass.
pub open spec fn stays_anchored(instance: InstanceView) -> bool {
    instance.class_name == "Part"@ ==> instance.properties.contains_key("Anchored"@)
        && instance.properties["Anchored"@] == ValueView::Bool(true)
}

/// Whether characters are not loaded by themselves.
pub open spec fn loads_no_characters(instance: InstanceView) -> bool {
    &&& instance.class_name == "Players"@
    &&& instance.properties.contains_key("CharacterAutoLoads"@)
    &&& instance.properties["CharacterAutoLoads"@] == ValueView::Bool(false)
}

impl RuntimeView {
    /// Whether positions are in range, walks through the tree end, signals are well-formed and
    /// parts are anchored.
    pub open spec fn sound(&self) -> bool {
        &&& instance::tree_wf(self.instances)
        &&& self.data_model < self.instances.len()
        &&& self.local_player matches Some(i) ==> i < self.instances.len()
        &&& forall|key: Text| #[trigger]
            self.services.contains_key(key) ==> self.services[key] < self.instances.len()
        &&& forall|i: int|
            0 <= i < self.instances.len() ==> (#[trigger] self.instances[i]).wf() && stays_anchored(
                self.instances[i],
            )
    }

    /// Whether on a client the service `Players` loads no characters.
    pub open spec fn client_ready(&self) -> bool {
        self.mode == RuntimeMode::Client && self.services.contains_key("players"@)
            ==> loads_no_characters(self.instances[self.services["players"@] as int])
    }

    /// What holds of every runtime.
    pub open spec fn wf(&self) -> bool {
        self.sound() && self.client_ready()
    }
}

/// The runtime with other instances.
pub open spec fn with_instances(rt: RuntimeView, instances: Seq<InstanceView>) -> RuntimeView {
    RuntimeView { instances, ..rt }
}

/// Whether a change of an instance touches neither the tree nor what must be kept.
pub open spec fn harmless(before: InstanceView, after: InstanceView) -> bool {
    &&& after.children == before.children
    &&& after.parent == before.parent
    &&& after.class_name == before.class_name
    &&& after.wf()
    &&& stays_anchored(after)
    &&& loads_no_characters(before) ==> loads_no_characters(after)
}

/// Harmless changes keep the runtime well-formed.
pub proof fn lemma_harmless(rt: RuntimeView, instances: Seq<InstanceView>)
    requires
        rt.sound(),
        instances.len() == rt.instances.len(),
        forall|i: int| 0 <= i < instances.len() ==> harmless(rt.instances[i], #[trigger] instances[i]),
    ensures
        with_instances(rt, instances).sound(),
        rt.wf() ==> with_instances(rt, instances).wf(),
{
    let after = with_instances(rt, instances);
    assert(instance::kids_of(instances) =~= instance::kids_of(rt.instances)) by {
        assert forall|i: int| 0 <= i < instances.len() implies instance::kids_of(instances)[i] == instance::kids_of(
            rt.instances,
        )[i] by {
            assert(harmless(rt.instances[i], instances[i]));
        }
    }
    assert(instance::ups_of(instances) =~= instance::ups_of(rt.instances)) by {
        assert forall|i: int| 0 <= i < instances.len() implies instance::ups_of(instances)[i] == instance::ups_of(
            rt.instances,
        )[i] by {
            assert(harmless(rt.instances[i], instances[i]));
        }
    }
    assert forall|i: int| 0 <= i < after.instances.len() implies (
    #[trigger] after.instances[i]).wf() && stays_anchored(after.instances[i]) by {
        assert(harmless(rt.instances[i], instances[i]));
    }
    if rt.mode == RuntimeMode::Client && rt.services.contains_key("players"@) {
        let k = rt.services["players"@] as int;
        assert(harmless(rt.instances[k], instances[k]));
    }
}

// ---------------------------------------------------------------------------------------------
// Adding instances
// ---------------------------------------------------------------------------------------------

/// The runtime with one more instance, outside the tree.
pub open spec fn with_new(rt: RuntimeView, instance: InstanceView) -> RuntimeView {
    RuntimeView {
        next_id: (rt.next_id + 1) as u64,
        instances: rt.instances.push(instance),
        ..rt
    }
}

/// The runtime with one more instance, which is the last child of an earlier one.
pub open spec fn with_child(rt: RuntimeView, instance: InstanceView, parent: usize) -> RuntimeView {
    let position = rt.instances.len() as usize;
    let above = rt.instances[parent as int];
    RuntimeView {
        next_id: (rt.next_id + 1) as u64,
        instances: rt.instances.push(InstanceView { parent: Some(parent), ..instance }).update(
            parent as int,
            InstanceView { children: above.children.push(position), ..above },
        ),
        ..rt
    }
}

/// Whether an instance may be added: nothing is below or above it, and it is sound in itself.
pub open spec fn addable(instance: InstanceView) -> bool {
    &&& instance.children.len() == 0
    &&& instance.parent is None
    &&& instance.wf()
    &&& stays_anchored(instance)
}

/// Adding an instance keeps the runtime well-formed.
pub proof fn lemma_with_new(rt: RuntimeView, instance: InstanceView)
    requires
        rt.sound(),
        addable(instance),
        rt.instances.len() < usize::MAX,
    ensures
        with_new(rt, instance).sound(),
        rt.wf() ==> with_new(rt, instance).wf(),
{
    let after = with_new(rt, instance);
    tree::lemma_push_acyclic(instance::kids_of(rt.instances));
    tree::lemma_push_rooted(instance::ups_of(rt.instances));
    assert(instance.children =~= Seq::empty());
    assert(instance::kids_of(after.instances) =~= instance::kids_of(rt.instances).push(Seq::empty()));
    assert(instance::ups_of(after.instances) =~= instance::ups_of(rt.instances).push(None));
    assert forall|i: int| 0 <= i < after.instances.len() implies (
    #[trigger] after.instances[i]).wf() && stays_anchored(after.instances[i]) by {
        if i < rt.instances.len() {
            assert(after.instances[i] == rt.instances[i]);
        }
    }
}

proof fn lemma_with_child(rt: RuntimeView, instance: InstanceView, parent: usize)
    requires
        rt.sound(),
        addable(instance),
        parent < rt.instances.len(),
        rt.instances.len() < usize::MAX,
    ensures
        with_child(rt, instance, parent).sound(),
        rt.wf() ==> with_child(rt, instance, parent).wf(),
{
    let after = with_child(rt, instance, parent);
    let position = rt.instances.len() as usize;
    let kids = instance::kids_of(rt.instances);
    let ups = instance::ups_of(rt.instances);
    assert(instance.children =~= Seq::empty());
    tree::lemma_grow_acyclic(kids, parent);
    tree::lemma_grow_rooted(ups, parent);
    assert(instance::kids_of(after.instances) =~= kids.push(Seq::empty()).update(
        parent as int,
        kids[parent as int].push(position),
    ));
    assert(instance::ups_of(after.instances) =~= ups.push(Some(parent)));
    assert forall|i: int| 0 <= i < after.instances.len() implies (
    #[trigger] after.instances[i]).wf() && stays_anchored(after.instances[i]) by {
        if i < rt.instances.len() {
            assert(rt.instances[i].wf() && stays_anchored(rt.instances[i]));
        }
    }
    if rt.mode == RuntimeMode::Client && rt.services.contains_key("players"@) {
        let k = rt.services["players"@] as int;
        assert(after.instances[k].class_name == rt.instances[k].class_name);
        assert(after.instances[k].properties == rt.instances[k].properties);
    }
}

/// A new instance may be added.
pub proof fn lemma_new_instance_addable(id: u64, class_name: Text, name: Text, is_service: bool)
    ensures
        addable(instance::new_instance(id, class_name, name, is_service)),
{
    let instance = instance::new_instance(id, class_name, name, is_service);
    if class_name == "Part"@ {
        instance::lemma_part_properties();
    }
    assert forall|i: int| 0 <= i < instance.events.len() implies (
    #[trigger] instance.events[i]).wf() by {
        assert(instance.events[i] == signal::new_signal(instance::event_names(class_name)[i]));
    }
}

impl Runtime {
    /// Which side of the connection the runtime stands for.
    pub fn mode(&self) -> (r: RuntimeMode)
        ensures
            r == self@.mode,
    {
        self.mode
    }

    /// The top of the tree.
    pub fn data_model(&self) -> (r: usize)
        ensures
            r == self@.data_model,
    {
        self.data_model
    }

    /// The player of a client.
    pub fn local_player(&self) -> (r: Option<usize>)
        ensures
            r == self@.local_player,
    {
        self.local_player
    }

    /// The number that the next instance gets.
    pub fn next_id(&self) -> (r: u64)
        ensures
            r == self@.next_id,
    {
        self.next_id
    }

    /// How many instances there are.
    pub fn count(&self) -> (r: usize)
        ensures
            r == self@.instances.len(),
    {
        self.instances.len()
    }

    /// An instance.
    pub fn instance(&self, instance: usize) -> (r: &Instance)
        requires
            instance < self@.instances.len(),
        ensures
            r@ == self@.instances[instance as int],
    {
        &self.instances[instance]
    }

    /// Adds an instance outside the tree.
    fn add_instance(&mut self, instance: Instance) -> (r: usize)
        requires
            old(self)@.sound(),
            addable(instance@),
            old(self)@.next_id < u64::MAX,
            old(self)@.instances.len() < usize::MAX,
        ensures
            final(self)@.sound(),
            old(self)@.wf() ==> final(self)@.wf(),
            r == old(self)@.instances.len(),
            final(self)@ == with_new(old(self)@, instance@),
    {
        let ghost before = self@;
        let position: usize = self.instances.len();
        self.next_id = self.next_id + 1;
        proof {
            text::lemma_views_push(self.instances@, instance);
            lemma_with_new(before, instance@);
        }
        self.instances.push(instance);
        assert(self@ =~= with_new(before, instance@));
        position
    }

    /// Adds an instance as the last child of an earlier one.
    fn add_child(&mut self, mut instance: Instance, parent: usize) -> (r: usize)
        requires
            old(self)@.sound(),
            addable(instance@),
            parent < old(self)@.instances.len(),
            old(self)@.next_id < u64::MAX,
            old(self)@.instances.len() < usize::MAX,
        ensures
            final(self)@.sound(),
            old(self)@.wf() ==> final(self)@.wf(),
            r == old(self)@.instances.len(),
            final(self)@ == with_child(old(self)@, instance@, parent),
    {
        let ghost before = self@;
        let ghost leaf = instance@;
        let position: usize = self.instances.len();
        self.next_id = self.next_id + 1;
        instance.parent = Some(parent);
        proof {
            text::lemma_views_push(self.instances@, instance);
            lemma_with_child(before, leaf, parent);
        }
        self.instances.push(instance);
        let ghost grown = self.instances@;
        self.instances[parent].children.push(position);
        assert(self@.instances =~= with_child(before, leaf, parent).instances) by {
            let target = with_child(before, leaf, parent).instances;
            assert forall|i: int| 0 <= i < target.len() implies self@.instances[i] == target[i] by {
                assert(self@.instances[i] == self.instances@[i]@);
                if i == parent {
                    assert(self.instances@[i]@ =~= target[i]);
                } else {
                    assert(self.instances@[i] == grown[i]);
                    if i < before.instances.len() {
                        assert(grown[i]@ == before.instances[i]);
                    } else {
                        assert(instance@ =~= target[i]);
                    }
                }
            }
        }
        position
    }
}

// ---------------------------------------------------------------------------------------------
// Starting
// ---------------------------------------------------------------------------------------------

/// The names of the services, which are also their classes.
pub open spec fn default_services() -> Seq<Text> {
    seq![
        "Workspace"@,
        "ReplicatedStorage"@,
        "ServerStorage"@,
        "ServerScriptService"@,
        "Lighting"@,
        "Players"@,
        "RunService"@,
        "HttpService"@,
        "TweenService"@,
    ]
}

/// Whether a service can be seen. Clients do not see what is the server's own.
pub open spec fn visible(mode: RuntimeMode, name: Text) -> bool {
    !(mode == RuntimeMode::Client && (name == "ServerStorage"@ || name == "ServerScriptService"@))
}

/// A runtime without services.
pub open spec fn bare_runtime(mode: RuntimeMode) -> RuntimeView {
    RuntimeView {
        next_id: 2,
        mode,
        data_model: 0,
        services: Map::empty(),
        local_player: None,
        instances: seq![instance::new_instance(1, "DataModel"@, "game"@, false)],
    }
}

/// The runtime with one more service, where it can be seen.
pub open spec fn with_service(rt: RuntimeView, name: Text) -> RuntimeView {
    if visible(rt.mode, name) {
        let grown = with_child(rt, instance::new_instance(rt.next_id, name, name, true), rt.data_model);
        RuntimeView {
            services: rt.services.insert(text::lower(name), rt.instances.len() as usize),
            ..grown
        }
    } else {
        rt
    }
}

/// The runtime with the given services, where they can be seen.
pub open spec fn with_services(rt: RuntimeView, names: Seq<Text>) -> RuntimeView
    decreases names.len(),
{
    if names.len() == 0 {
        rt
    } else {
        with_service(with_services(rt, names.drop_last()), names.last())
    }
}

/// The runtime with one instance replaced.
pub open spec fn with_instance(rt: RuntimeView, i: usize, instance: InstanceView) -> RuntimeView {
    RuntimeView { instances: rt.instances.update(i as int, instance), ..rt }
}

/// The runtime as the mode wants it: a client loads no characters and has a player of its own.
pub open spec fn configured(rt: RuntimeView) -> RuntimeView {
    if rt.mode == RuntimeMode::Client && rt.services.contains_key("players"@) {
        let players = rt.services["players"@];
        let quiet = with_instance(
            rt,
            players,
            instance::with_property(
                rt.instances[players as int],
                "CharacterAutoLoads"@,
                ValueView::Bool(false),
            ),
        );
        let player = instance::with_property(
            instance::new_instance(rt.next_id, "Player"@, "LocalPlayer"@, false),
            "DisplayName"@,
            ValueView::String("LocalPlayer"@),
        );
        RuntimeView {
            local_player: Some(rt.instances.len() as usize),
            ..with_child(quiet, player, players)
        }
    } else {
        rt
    }
}

/// A new runtime.
pub open spec fn new_runtime(mode: RuntimeMode) -> RuntimeView {
    configured(with_services(bare_runtime(mode), default_services()))
}

/// Whether the service `Players` is as it began.
spec fn players_new(rt: RuntimeView) -> bool {
    rt.services.contains_key("players"@) ==> {
        let players = rt.instances[rt.services["players"@] as int];
        &&& players.class_name == "Players"@
        &&& players.properties == instance::initial_properties("Players"@)
    }
}

proof fn lemma_players_name(name: Text)
    requires
        default_services().contains(name),
        text::lower(name) == "players"@,
    ensures
        name == "Players"@,
{
    reveal_strlit("players");
    reveal_strlit("Workspace");
    reveal_strlit("ReplicatedStorage");
    reveal_strlit("ServerStorage");
    reveal_strlit("ServerScriptService");
    reveal_strlit("Lighting");
    reveal_strlit("Players");
    reveal_strlit("RunService");
    reveal_strlit("HttpService");
    reveal_strlit("TweenService");
    assert(text::lower(name).len() == name.len());
    assert("players"@.len() == 7);
    assert("Workspace"@.len() == 9);
    assert("ReplicatedStorage"@.len() == 17);
    assert("ServerStorage"@.len() == 13);
    assert("ServerScriptService"@.len() == 19);
    assert("Lighting"@.len() == 8);
    assert("RunService"@.len() == 10);
    assert("HttpService"@.len() == 11);
    assert("TweenService"@.len() == 12);
}

proof fn lemma_players_quiet(players: InstanceView)
    requires
        players.class_name == "Players"@,
        players.properties == instance::initial_properties("Players"@),
    ensures
        loads_no_characters(
            instance::with_property(players, "CharacterAutoLoads"@, ValueView::Bool(false)),
        ),
{
    reveal_strlit("Workspace");
    reveal_strlit("Players");
    reveal_strlit("CharacterAutoLoads");
    reveal_strlit("Archivable");
    reveal_strlit("Name");
    reveal_strlit("ClassName");
    assert("Workspace"@.len() == 9);
    assert("Players"@.len() == 7);
    assert("CharacterAutoLoads"@.len() == 18);
    assert("Archivable"@.len() == 10);
    assert("Name"@.len() == 4);
    assert("ClassName"@.len() == 9);
}

proof fn lemma_service_push(list: Seq<Service>, service: Service)
    ensures
        service_map(list.push(service)) == service_map(list).insert(service.key@, service.instance),
{
    assert(list.push(service).drop_last() =~= list);
}

impl Runtime {
    /// A new runtime.
    pub fn new(mode: RuntimeMode) -> (r: Runtime)
        ensures
            r@.wf(),
            r@ == new_runtime(mode),
    {
        let root = Instance::new(1, "DataModel", "game", false);
        let mut instances: Vec<Instance> = Vec::new();
        instances.push(root);
        let mut runtime = Runtime {
            next_id: 2,
            mode,
            data_model: 0,
            services: Vec::new(),
            local_player: None,
            instances,
        };
        proof {
            assert(runtime@ =~= bare_runtime(mode));
            lemma_bare_sound(mode);
        }
        let names: Vec<&'static str> =
            vec![
                "Workspace",
                "ReplicatedStorage",
                "ServerStorage",
                "ServerScriptService",
                "Lighting",
                "Players",
                "RunService",
                "HttpService",
                "TweenService",
            ];
        let ghost texts = default_services();
        assert(names@.map_values(|s: &'static str| s@) =~= texts);
        let mut i: usize = 0;
        assert(texts.take(0) =~= Seq::empty());
        while i < names.len()
            invariant
                i <= names@.len(),
                names@.len() == 9,
                texts == default_services(),
                texts == names@.map_values(|s: &'static str| s@),
                runtime@.sound(),
                runtime@.mode == mode,
                runtime@ == with_services(bare_runtime(mode), texts.take(i as int)),
                runtime@.instances.len() <= 1 + i,
                runtime@.next_id <= 2 + i,
                players_new(runtime@),
            decreases names@.len() - i,
        {
            let name = names[i];
            assert(texts[i as int] == name@);
            assert(texts.take(i + 1).drop_last() =~= texts.take(i as int));
            assert(texts.take(i + 1).last() == name@);
            let ghost before = runtime@;
            if runtime.is_service_visible(name) {
                proof {
                    lemma_new_instance_addable(before.next_id, name@, name@, true);
                }
                let service = Instance::new(runtime.next_id, name, name, true);
                let data_model: usize = runtime.data_model;
                let position = runtime.add_child(service, data_model);
                let ghost grown = runtime@;
                let entry = Service { key: lowered(name), instance: position };
                proof {
                    lemma_service_push(runtime.services@, entry);
                }
                runtime.services.push(entry);
                proof {
                    assert(runtime@ =~= with_service(before, name@));
                    if text::lower(name@) == "players"@ {
                        assert(texts.contains(name@)) by {
                            assert(texts[i as int] == name@);
                        }
                        lemma_players_name(name@);
                    }
                    assert forall|key: Text| #[trigger] runtime@.services.contains_key(key) implies
                        runtime@.services[key] < runtime@.instances.len() by {
                        if key != text::lower(name@) {
                            assert(grown.services.contains_key(key));
                        }
                    }
                }
            }
            i += 1;
        }
        assert(texts.take(i as int) =~= texts);
        runtime.configure_mode_defaults();
        runtime
    }

    /// Whether a service can be seen.
    pub fn is_service_visible(&self, name: &str) -> (r: bool)
        ensures
            r == visible(self@.mode, name@),
    {
        !(self.mode == RuntimeMode::Client && (text_eq(name, "ServerStorage") || text_eq(
            name,
            "ServerScriptService",
        )))
    }

    /// The service with the given key.
    fn service_with_key(&self, key: &str) -> (r: Option<usize>)
        ensures
            match r {
                Some(i) => self@.services.contains_key(key@) && self@.services[key@] == i,
                None => !self@.services.contains_key(key@),
            },
    {
        let ghost all = self.services@;
        let mut i: usize = self.services.len();
        assert(all.take(i as int) =~= all);
        while i > 0
            invariant
                i <= self.services@.len(),
                all == self.services@,
                service_map(all).contains_key(key@) == service_map(
                    all.take(i as int),
                ).contains_key(key@),
                service_map(all).contains_key(key@) ==> service_map(all)[key@] == service_map(
                    all.take(i as int),
                )[key@],
            decreases i,
        {
            i -= 1;
            assert(all.take(i + 1).drop_last() =~= all.take(i as int));
            assert(all.take(i + 1).last() == all[i as int]);
            if text_eq(self.services[i].key.as_str(), key) {
                return Some(self.services[i].instance);
            }
        }
        None
    }

    /// The service with the given name, in whatever letter case.
    pub fn get_service(&self, name: &str) -> (r: Result<usize, Error>)
        ensures
            position_view(r) == service_named(self@, name@),
    {
        match self.service_with_key(lowered(name).as_str()) {
            Some(service) => Ok(service),
            None => Err(failure(concat3("Unknown service '", name, "'").as_str())),
        }
    }

    /// Sets the runtime up as the mode wants it.
    fn configure_mode_defaults(&mut self)
        requires
            old(self)@.sound(),
            players_new(old(self)@),
            old(self)@.next_id < u64::MAX,
            old(self)@.instances.len() < usize::MAX,
        ensures
            final(self)@.wf(),
            final(self)@ == configured(old(self)@),
    {
        if self.mode != RuntimeMode::Client {
            return ;
        }
        let ghost before = self@;
        let players = match self.service_with_key("players") {
            Some(service) => service,
            None => {
                return ;
            },
        };
        let _ = self.instances[players].set_property(
            "CharacterAutoLoads",
            PropertyValue::Bool(false),
        );
        let ghost quiet = with_instance(
            before,
            players,
            instance::with_property(
                before.instances[players as int],
                "CharacterAutoLoads"@,
                ValueView::Bool(false),
            ),
        );
        proof {
            assert(self@ =~= quiet);
            lemma_players_quiet(before.instances[players as int]);
            assert(stays_anchored(quiet.instances[players as int])) by {
                reveal_strlit("Part");
                reveal_strlit("Players");
                assert("Part"@.len() == 4);
                assert("Players"@.len() == 7);
            }
            lemma_harmless(before, quiet.instances);
            lemma_local_player_addable(before.next_id);
        }
        let mut player = Instance::new(self.next_id, "Player", "LocalPlayer", false);
        let _ = player.set_property(
            "DisplayName",
            PropertyValue::String("LocalPlayer".to_owned()),
        );
        let position = self.add_child(player, players);
        self.local_player = Some(position);
        assert(self@ =~= configured(before));
    }
}

impl Default for Runtime {
    /// A new runtime of a server.
    fn default() -> (r: Runtime)
        ensures
            r@.wf(),
            r@ == new_runtime(RuntimeMode::Server),
    {
        Runtime::new(RuntimeMode::Server)
    }
}

/// A position or an error, by its views.
pub open spec fn position_view(r: Result<usize, Error>) -> Result<usize, Text> {
    match r {
        Ok(position) => Ok(position),
        Err(error) => Err(error@),
    }
}

/// The service with the given name, in whatever letter case.
pub open spec fn service_named(rt: RuntimeView, name: Text) -> Result<usize, Text> {
    if rt.services.contains_key(text::lower(name)) {
        Ok(rt.services[text::lower(name)])
    } else {
        Err("Unknown service '"@ + name + "'"@)
    }
}

proof fn lemma_bare_sound(mode: RuntimeMode)
    ensures
        bare_runtime(mode).sound(),
{
    let rt = bare_runtime(mode);
    lemma_new_instance_addable(1, "DataModel"@, "game"@, false);
    let kids = instance::kids_of(rt.instances);
    let ups = instance::ups_of(rt.instances);
    assert(kids[0] =~= Seq::empty());
    let rank = |i: int| 0nat;
    assert(tree::ranked(kids, rank));
    assert(tree::up_lists(ups)[0] =~= Seq::empty());
    assert(tree::ranked(tree::up_lists(ups), rank));
}

proof fn lemma_local_player_addable(id: u64)
    ensures
        addable(
            instance::with_property(
                instance::new_instance(id, "Player"@, "LocalPlayer"@, false),
                "DisplayName"@,
                ValueView::String("LocalPlayer"@),
            ),
        ),
{
    lemma_new_instance_addable(id, "Player"@, "LocalPlayer"@, false);
    reveal_strlit("Part");
    reveal_strlit("Player");
    assert("Part"@.len() == 4);
    assert("Player"@.len() == 6);
}

// ---------------------------------------------------------------------------------------------
// Instances by themselves
// ---------------------------------------------------------------------------------------------

/// The first of the given instances that has the given name.
pub open spec fn first_named(nodes: Seq<InstanceView>, list: Seq<usize>, name: Text) -> Option<
    usize,
>
    decreases list.len(),
{
    if list.len() == 0 {
        None
    } else if nodes[list[0] as int].name == name {
        Some(list[0])
    } else {
        first_named(nodes, list.drop_first(), name)
    }
}

/// The first of the given instances that is a player with the given name.
pub open spec fn first_player(nodes: Seq<InstanceView>, list: Seq<usize>, name: Text) -> Option<
    usize,
>
    decreases list.len(),
{
    if list.len() == 0 {
        None
    } else if nodes[list[0] as int].class_name == "Player"@ && nodes[list[0] as int].name == name {
        Some(list[0])
    } else {
        first_player(nodes, list.drop_first(), name)
    }
}

/// The player with the given name.
pub open spec fn player_named(rt: RuntimeView, name: Text) -> Option<usize> {
    match service_named(rt, "Players"@) {
        Ok(players) => first_player(
            rt.instances,
            rt.instances[players as int].children,
            name,
        ),
        Err(_) => None,
    }
}

/// The instance that a script makes. What a client makes is the client's own.
pub open spec fn made_instance(rt: RuntimeView, class_name: Text) -> InstanceView {
    InstanceView {
        client_authoritative: rt.mode == RuntimeMode::Client,
        ..instance::new_instance(rt.next_id, class_name, class_name, false)
    }
}

/// The runtime with an instance and everything below it marked as the client's own or not.
pub open spec fn with_authority(rt: RuntimeView, i: usize, value: bool) -> RuntimeView {
    let marked = tree::subtree(instance::kids_of(rt.instances), i);
    RuntimeView {
        instances: Seq::new(
            rt.instances.len(),
            |k: int|
                if marked.contains(k as usize) {
                    InstanceView { client_authoritative: value, ..rt.instances[k] }
                } else {
                    rt.instances[k]
                },
        ),
        ..rt
    }
}

/// The instance and everything below it, as a list.
fn with_descendants(instances: &Vec<Instance>, i: usize) -> (r: Vec<usize>)
    requires
        instance::tree_wf(text::views(instances@)),
        i < instances@.len(),
    ensures
        r@ == tree::subtree(instance::kids_of(text::views(instances@)), i),
{
    let mut below = Instance::all_descendants(instances, i);
    let mut out: Vec<usize> = Vec::new();
    out.push(i);
    out.append(&mut below);
    assert(out@ =~= tree::subtree(instance::kids_of(text::views(instances@)), i));
    out
}

impl Runtime {
    /// Makes an instance of the given class, named after it, outside the tree.
    pub fn create_instance(&mut self, class_name: &str) -> (r: usize)
        requires
            old(self)@.wf(),
            old(self)@.next_id < u64::MAX,
            old(self)@.instances.len() < usize::MAX,
        ensures
            final(self)@.wf(),
            r == old(self)@.instances.len(),
            final(self)@ == with_new(old(self)@, made_instance(old(self)@, class_name@)),
    {
        let ghost before = self@;
        let mut instance = Instance::new(self.next_id, class_name, class_name, false);
        if self.mode == RuntimeMode::Client {
            instance.client_authoritative = true;
        }
        proof {
            lemma_new_instance_addable(before.next_id, class_name@, class_name@, false);
            assert(instance@ =~= made_instance(before, class_name@));
        }
        self.add_instance(instance)
    }

    /// Everything below an instance, each instance before the ones below it.
    pub fn all_descendants(&self, instance: usize) -> (r: Vec<usize>)
        requires
            self@.wf(),
            instance < self@.instances.len(),
        ensures
            r@ == tree::descendants(instance::kids_of(self@.instances), instance),
    {
        Instance::all_descendants(&self.instances, instance)
    }

    /// An instance and everything below it.
    pub fn subtree(&self, instance: usize) -> (r: Vec<usize>)
        requires
            self@.wf(),
            instance < self@.instances.len(),
        ensures
            r@ == tree::subtree(instance::kids_of(self@.instances), instance),
    {
        with_descendants(&self.instances, instance)
    }

    /// The names from the top of the tree down to an instance, with dots between them.
    pub fn full_name(&self, instance: usize) -> (r: String)
        requires
            self@.wf(),
            instance < self@.instances.len(),
        ensures
            r@ == instance::full_name_of(self@.instances, instance),
    {
        Instance::full_name(&self.instances, instance)
    }

    /// Lets a player move a part, or nobody.
    pub fn set_network_owner(&mut self, instance: usize, owner_name: Option<String>) -> (r: Result<
        (),
        Error,
    >)
        requires
            old(self)@.wf(),
            instance < old(self)@.instances.len(),
        ensures
            final(self)@.wf(),
            ({
                let part = old(self)@.instances[instance as int];
                if part.class_name == "Part"@ {
                    &&& r is Ok
                    &&& final(self)@ == with_instance(
                        old(self)@,
                        instance,
                        InstanceView { network_owner_name: text::opt_view(owner_name), ..part },
                    )
                } else {
                    &&& error::unit_view(r) == Err::<(), Text>(
                        "SetNetworkOwner is only available on Part"@,
                    )
                    &&& final(self)@ == old(self)@
                }
            }),
    {
        if !text_eq(self.instances[instance].class_name.as_str(), "Part") {
            return Err(failure("SetNetworkOwner is only available on Part"));
        }
        let ghost before = self@;
        self.instances[instance].network_owner_name = owner_name;
        proof {
            let part = InstanceView {
                network_owner_name: text::opt_view(owner_name),
                ..before.instances[instance as int]
            };
            assert(self.instances@[instance as int]@ =~= part);
            assert(self@ =~= with_instance(before, instance, part));
            lemma_harmless(before, self@.instances);
            assert(self@ =~= with_instances(before, self@.instances));
        }
        Ok(())
    }

    /// The name of the player who moves a part.
    pub fn get_network_owner_name(&self, instance: usize) -> (r: Option<String>)
        requires
            instance < self@.instances.len(),
        ensures
            text::opt_view(r) == self@.instances[instance as int].network_owner_name,
    {
        copy_opt_text(&self.instances[instance].network_owner_name)
    }

    /// The first of the given instances that has the given name.
    pub fn find_named(&self, list: &Vec<usize>, name: &str) -> (r: Option<usize>)
        requires
            forall|k: int| 0 <= k < list@.len() ==> #[trigger] list@[k] < self@.instances.len(),
        ensures
            r == first_named(self@.instances, list@, name@),
    {
        let mut i: usize = 0;
        assert(list@.skip(0) =~= list@);
        while i < list.len()
            invariant
                i <= list@.len(),
                forall|k: int| 0 <= k < list@.len() ==> #[trigger] list@[k] < self@.instances.len(),
                first_named(self@.instances, list@, name@) == first_named(
                    self@.instances,
                    list@.skip(i as int),
                    name@,
                ),
            decreases list@.len() - i,
        {
            let at = list[i];
            assert(list@[i as int] < self@.instances.len());
            assert(list@.skip(i as int)[0] == at);
            assert(list@.skip(i as int).drop_first() =~= list@.skip(i + 1));
            if text_eq(self.instances[at].name.as_str(), name) {
                return Some(at);
            }
            i += 1;
        }
        None
    }

    /// The player with the given name.
    pub fn find_player_by_name(&self, name: &str) -> (r: Option<usize>)
        requires
            self@.wf(),
        ensures
            r == player_named(self@, name@),
    {
        let players = match self.get_service("Players") {
            Ok(players) => players,
            Err(_) => {
                return None;
            },
        };
        let ghost list = self@.instances[players as int].children;
        let mut i: usize = 0;
        assert(list.skip(0) =~= list);
        assert(list == self.instances@[players as int].children@);
        while i < self.instances[players].children.len()
            invariant
                players < self@.instances.len(),
                i <= list.len(),
                self@.wf(),
                list == self@.instances[players as int].children,
                list == self.instances@[players as int].children@,
                service_named(self@, "Players"@) == Ok::<usize, Text>(players),
                player_named(self@, name@) == first_player(
                    self@.instances,
                    list.skip(i as int),
                    name@,
                ),
            decreases list.len() - i,
        {
            let at = self.instances[players].children[i];
            assert(instance::kids_of(self@.instances)[players as int][i as int] == at);
            assert(at < self@.instances.len());
            assert(list.skip(i as int)[0] == at);
            assert(list.skip(i as int).drop_first() =~= list.skip(i + 1));
            if text_eq(self.instances[at].class_name.as_str(), "Player") && text_eq(
                self.instances[at].name.as_str(),
                name,
            ) {
                return Some(at);
            }
            i += 1;
        }
        None
    }

    /// Marks an instance and everything below it as the client's own or not.
    fn set_client_authoritative_recursive(&mut self, instance: usize, value: bool)
        requires
            old(self)@.wf(),
            instance < old(self)@.instances.len(),
        ensures
            final(self)@.wf(),
            final(self)@ == with_authority(old(self)@, instance, value),
    {
        let ghost before = self@;
        let ghost nodes = before.instances;
        let all = with_descendants(&self.instances, instance);
        proof {
            tree::lemma_subtree_range(instance::kids_of(nodes), instance);
        }
        let mut i: usize = 0;
        while i < all.len()
            invariant
                i <= all@.len(),
                nodes == before.instances,
                nodes.len() <= usize::MAX,
                all@ == tree::subtree(instance::kids_of(nodes), instance),
                forall|k: int| 0 <= k < all@.len() ==> #[trigger] all@[k] < nodes.len(),
                self@ == with_instances(before, self@.instances),
                self@.instances.len() == nodes.len(),
                forall|k: int|
                    0 <= k < nodes.len() ==> #[trigger] self@.instances[k] == (if all@.take(
                        i as int,
                    ).contains(k as usize) {
                        InstanceView { client_authoritative: value, ..nodes[k] }
                    } else {
                        nodes[k]
                    }),
            decreases all@.len() - i,
        {
            let at = all[i];
            assert(all@[i as int] < nodes.len());
            let ghost held = self.instances@;
            let ghost seen = self@.instances;
            self.instances[at].client_authoritative = value;
            proof {
                assert(self@ =~= with_instances(before, self@.instances));
                assert forall|k: int| 0 <= k < nodes.len() implies #[trigger] self@.instances[k]
                    == (if all@.take(i + 1).contains(k as usize) {
                    InstanceView { client_authoritative: value, ..nodes[k] }
                } else {
                    nodes[k]
                }) by {
                    assert(self@.instances[k] == self.instances@[k]@);
                    assert(seen[k] == held[k]@);
                    lemma_take_contains(all@, i as int, k as usize);
                    if k == at {
                        assert(self.instances@[k]@ =~= (InstanceView {
                            client_authoritative: value,
                            ..nodes[k]
                        }));
                    } else {
                        assert(self.instances@[k] == held[k]);
                    }
                }
            }
            i += 1;
        }
        proof {
            assert(all@.take(i as int) =~= all@);
            assert(self@.instances =~= with_authority(before, instance, value).instances);
            lemma_harmless(before, self@.instances);
        }
    }

    /// Marks an instance and everything below it as known to the server.
    pub fn mark_replicated_instance(&mut self, instance: usize)
        requires
            old(self)@.wf(),
            instance < old(self)@.instances.len(),
        ensures
            final(self)@.wf(),
            final(self)@ == with_authority(old(self)@, instance, false),
    {
        self.set_client_authoritative_recursive(instance, false);
    }

    /// Remembers which file a script came from.
    pub fn set_script_path(&mut self, instance: usize, path: Option<String>)
        requires
            old(self)@.wf(),
            instance < old(self)@.instances.len(),
        ensures
            final(self)@.wf(),
            final(self)@ == with_instance(
                old(self)@,
                instance,
                InstanceView {
                    script_path: text::opt_view(path),
                    ..old(self)@.instances[instance as int]
                },
            ),
    {
        let ghost before = self@;
        self.instances[instance].script_path = path;
        proof {
            let changed = InstanceView {
                script_path: text::opt_view(path),
                ..before.instances[instance as int]
            };
            assert(self.instances@[instance as int]@ =~= changed);
            assert(self@ =~= with_instance(before, instance, changed));
            lemma_harmless(before, self@.instances);
            assert(self@ =~= with_instances(before, self@.instances));
        }
    }
}

proof fn lemma_take_contains(list: Seq<usize>, i: int, x: usize)
    requires
        0 <= i < list.len(),
    ensures
        list.take(i + 1).contains(x) == (list.take(i).contains(x) || list[i] == x),
{
    if list.take(i).contains(x) {
        let k = choose|k: int| 0 <= k < i && list.take(i)[k] == x;
        assert(list.take(i + 1)[k] == x);
    }
    if list[i] == x {
        assert(list.take(i + 1)[i] == x);
    }
    let more = list.take(i + 1);
    if more.contains(x) {
        let k = choose|k: int| 0 <= k < more.len() && more[k] == x;
        if k < i {
            assert(list.take(i)[k] == x);
        }
    }
}

// ---------------------------------------------------------------------------------------------
// Signals
// ---------------------------------------------------------------------------------------------

/// A signal that fires, with what its listeners are told.
#[derive(Debug)]
pub struct Firing {
    pub signal: SignalRef,
    pub args: Vec<SignalArg>,
}

/// The content of a [`Firing`].
#[verifier::ext_equal]
pub struct FiringView {
    pub signal: SignalRef,
    pub args: Seq<ArgView>,
}

impl View for Firing {
    type V = FiringView;

    open spec fn view(&self) -> FiringView {
        FiringView { signal: self.signal, args: text::views(self.args@) }
    }
}

/// Whether there is such a signal.
pub open spec fn valid_signal(rt: RuntimeView, signal: SignalRef) -> bool {
    &&& signal.instance < rt.instances.len()
    &&& match signal.slot {
        SignalSlot::Event(k) => k < rt.instances[signal.instance as int].events.len(),
        SignalSlot::Property(k) => k
            < rt.instances[signal.instance as int].property_signals.len(),
    }
}

/// A signal of the runtime.
pub open spec fn signal_of(rt: RuntimeView, signal: SignalRef) -> SignalView {
    let instance = rt.instances[signal.instance as int];
    match signal.slot {
        SignalSlot::Event(k) => instance.events[k as int],
        SignalSlot::Property(k) => instance.property_signals[k as int].signal,
    }
}

/// The runtime with a signal replaced.
pub open spec fn with_signal(rt: RuntimeView, signal: SignalRef, view: SignalView) -> RuntimeView {
    let instance = rt.instances[signal.instance as int];
    let changed = match signal.slot {
        SignalSlot::Event(k) => InstanceView {
            events: instance.events.update(k as int, view),
            ..instance
        },
        SignalSlot::Property(k) => InstanceView {
            property_signals: instance.property_signals.update(
                k as int,
                PropertySignalView { signal: view, ..instance.property_signals[k as int] },
            ),
            ..instance
        },
    };
    with_instance(rt, signal.instance, changed)
}

proof fn lemma_with_signal(rt: RuntimeView, signal: SignalRef, view: SignalView)
    requires
        rt.wf(),
        valid_signal(rt, signal),
        view.wf(),
    ensures
        with_signal(rt, signal, view).wf(),
{
    let after = with_signal(rt, signal, view);
    let i = signal.instance as int;
    let old_instance = rt.instances[i];
    let new_instance = after.instances[i];
    assert forall|k: int| 0 <= k < new_instance.events.len() implies (
    #[trigger] new_instance.events[k]).wf() by {
        assert(old_instance.wf());
        if new_instance.events[k] != view {
            assert(new_instance.events[k] == old_instance.events[k]);
        }
    }
    assert forall|k: int| 0 <= k < new_instance.property_signals.len() implies (
    #[trigger] new_instance.property_signals[k]).signal.wf() by {
        assert(old_instance.wf());
        if new_instance.property_signals[k].signal != view {
            assert(new_instance.property_signals[k] == old_instance.property_signals[k]);
        }
    }
    lemma_harmless(rt, after.instances);
    assert(after =~= with_instances(rt, after.instances));
}

impl Runtime {
    /// The event of an instance with the given name.
    pub fn find_event(&self, instance: usize, name: &str) -> (r: Option<SignalRef>)
        requires
            instance < self@.instances.len(),
        ensures
            r == event_ref(self@, instance, name@),
            r matches Some(signal) ==> valid_signal(self@, signal),
    {
        match self.instances[instance].find_event(name) {
            Some(k) => Some(SignalRef { instance, slot: SignalSlot::Event(k) }),
            None => None,
        }
    }

    /// The signal for changes of a property, which is made where there is none yet.
    pub fn ensure_property_signal(&mut self, instance: usize, property_name: &str) -> (r: SignalRef)
        requires
            old(self)@.wf(),
            instance < old(self)@.instances.len(),
        ensures
            final(self)@.wf(),
            r == (SignalRef {
                instance,
                slot: SignalSlot::Property(
                    instance::property_signal_at(
                        old(self)@.instances[instance as int].property_signals,
                        property_name@,
                    ) as usize,
                ),
            }),
            valid_signal(final(self)@, r),
            final(self)@ == with_instance(
                old(self)@,
                instance,
                instance::with_property_signal(old(self)@.instances[instance as int], property_name@),
            ),
    {
        let ghost before = self@;
        assert(self.instances@[instance as int]@ == before.instances[instance as int]);
        let k = self.instances[instance].ensure_property_signal(property_name);
        proof {
            let changed = instance::with_property_signal(
                before.instances[instance as int],
                property_name@,
            );
            assert(self.instances@[instance as int]@ == changed);
            assert(self@ =~= with_instance(before, instance, changed));
            lemma_harmless(before, self@.instances);
            assert(self@ =~= with_instances(before, self@.instances));
        }
        SignalRef { instance, slot: SignalSlot::Property(k) }
    }

    /// A signal.
    pub fn signal(&self, signal: SignalRef) -> (r: &Signal)
        requires
            valid_signal(self@, signal),
        ensures
            r@ == signal_of(self@, signal),
    {
        match signal.slot {
            SignalSlot::Event(k) => &self.instances[signal.instance].events[k],
            SignalSlot::Property(k) => &self.instances[signal.instance].property_signals[k].signal,
        }
    }

    /// Connects a callback to a signal.
    pub fn connect(&mut self, signal: SignalRef, callback: u64, once: bool) -> (r: ConnectionHandle)
        requires
            old(self)@.wf(),
            valid_signal(old(self)@, signal),
            signal_of(old(self)@, signal).next_connection_id < u64::MAX,
        ensures
            final(self)@.wf(),
            r == (ConnectionHandle {
                signal,
                id: signal_of(old(self)@, signal).next_connection_id,
            }),
            final(self)@ == with_signal(
                old(self)@,
                signal,
                signal::connected(signal_of(old(self)@, signal), callback, once),
            ),
    {
        let ghost before = self@;
        let ghost target = signal::connected(signal_of(before, signal), callback, once);
        let i = signal.instance;
        assert(self.instances@[i as int]@ == before.instances[i as int]);
        assert(before.instances[i as int].wf());
        let id = match signal.slot {
            SignalSlot::Event(k) => {
                assert(self.instances@[i as int].events@[k as int]@
                    == before.instances[i as int].events[k as int]);
                self.instances[i].events[k].connect(callback, once)
            },
            SignalSlot::Property(k) => {
                assert(self.instances@[i as int].property_signals@[k as int]@
                    == before.instances[i as int].property_signals[k as int]);
                self.instances[i].property_signals[k].signal.connect(callback, once)
            },
        };
        proof {
            let after = with_signal(before, signal, target);
            assert(self.instances@[i as int]@ =~= after.instances[i as int]);
            assert(self@ =~= after);
            signal::lemma_connected_wf(signal_of(before, signal), callback, once);
            lemma_with_signal(before, signal, target);
        }
        ConnectionHandle { signal, id }
    }

    /// Ends a connection. The result is its callback, where the connection was still there.
    pub fn disconnect(&mut self, connection: ConnectionHandle) -> (r: Option<u64>)
        requires
            old(self)@.wf(),
            valid_signal(old(self)@, connection.signal),
        ensures
            final(self)@.wf(),
            ({
                let signal = signal_of(old(self)@, connection.signal);
                let k = signal::listener_at(signal.listeners, connection.id);
                &&& final(self)@ == with_signal(
                    old(self)@,
                    connection.signal,
                    SignalView {
                        listeners: signal::without_listener(signal.listeners, connection.id),
                        ..signal
                    },
                )
                &&& r == (if k < signal.listeners.len() {
                    Some(signal.listeners[k as int].callback)
                } else {
                    None::<u64>
                })
            }),
    {
        let ghost before = self@;
        let signal = connection.signal;
        let i = signal.instance;
        assert(self.instances@[i as int]@ == before.instances[i as int]);
        assert(before.instances[i as int].wf());
        let r = match signal.slot {
            SignalSlot::Event(k) => {
                assert(self.instances@[i as int].events@[k as int]@
                    == before.instances[i as int].events[k as int]);
                self.instances[i].events[k].disconnect(connection.id)
            },
            SignalSlot::Property(k) => {
                assert(self.instances@[i as int].property_signals@[k as int]@
                    == before.instances[i as int].property_signals[k as int]);
                self.instances[i].property_signals[k].signal.disconnect(connection.id)
            },
        };
        proof {
            let old_signal = signal_of(before, signal);
            let target = SignalView {
                listeners: signal::without_listener(old_signal.listeners, connection.id),
                ..old_signal
            };
            let after = with_signal(before, signal, target);
            assert(signal_of(self@, signal) == target);
            assert(target.wf());
            assert(self.instances@[i as int]@ =~= after.instances[i as int]);
            assert(self@ =~= after);
            lemma_with_signal(before, signal, target);
        }
        r
    }

    /// Whether a connection is still there.
    pub fn is_connected(&self, connection: ConnectionHandle) -> (r: bool)
        requires
            valid_signal(self@, connection.signal),
        ensures
            r == exists|i: int|
                0 <= i < signal_of(self@, connection.signal).listeners.len() && (
                #[trigger] signal_of(self@, connection.signal).listeners[i]).id == connection.id,
    {
        self.signal(connection.signal).is_connected(connection.id)
    }

    /// Takes away those of the calls that were to be made once, after they were all made. The result
    /// lists the callbacks of the connections that this ended.
    pub fn settle(&mut self, signal: SignalRef, calls: &Vec<Listener>) -> (r: Vec<u64>)
        requires
            old(self)@.wf(),
            valid_signal(old(self)@, signal),
        ensures
            final(self)@.wf(),
            final(self)@ == with_signal(
                old(self)@,
                signal,
                SignalView {
                    listeners: signal::settled(signal_of(old(self)@, signal).listeners, calls@),
                    ..signal_of(old(self)@, signal)
                },
            ),
            r@ == signal::released(signal_of(old(self)@, signal).listeners, calls@),
    {
        let ghost before = self@;
        let i = signal.instance;
        assert(self.instances@[i as int]@ == before.instances[i as int]);
        assert(before.instances[i as int].wf());
        let r = match signal.slot {
            SignalSlot::Event(k) => {
                assert(self.instances@[i as int].events@[k as int]@
                    == before.instances[i as int].events[k as int]);
                self.instances[i].events[k].settle(calls)
            },
            SignalSlot::Property(k) => {
                assert(self.instances@[i as int].property_signals@[k as int]@
                    == before.instances[i as int].property_signals[k as int]);
                self.instances[i].property_signals[k].signal.settle(calls)
            },
        };
        proof {
            let old_signal = signal_of(before, signal);
            let target = SignalView {
                listeners: signal::settled(old_signal.listeners, calls@),
                ..old_signal
            };
            let after = with_signal(before, signal, target);
            assert(signal_of(self@, signal) == target);
            assert(target.wf());
            assert(self.instances@[i as int]@ =~= after.instances[i as int]);
            assert(self@ =~= after);
            lemma_with_signal(before, signal, target);
        }
        r
    }
}

/// The event of an instance with the given name.
pub open spec fn event_ref(rt: RuntimeView, i: usize, name: Text) -> Option<SignalRef> {
    let events = rt.instances[i as int].events;
    if instance::event_at(events, name) < events.len() {
        Some(SignalRef { instance: i, slot: SignalSlot::Event(instance::event_at(events, name) as usize) })
    } else {
        None
    }
}

/// The firing of an event, where the instance has it.
pub open spec fn event_firing(
    rt: RuntimeView,
    i: usize,
    name: Text,
    args: Seq<ArgView>,
) -> Seq<FiringView> {
    match event_ref(rt, i, name) {
        Some(signal) => seq![FiringView { signal, args }],
        None => Seq::empty(),
    }
}

/// The firing of the signal for changes of a property, where the instance has one.
pub open spec fn own_firing(rt: RuntimeView, i: usize, property: Text) -> Seq<FiringView> {
    let signals = rt.instances[i as int].property_signals;
    let k = instance::property_signal_at(signals, property);
    if k < signals.len() {
        seq![
            FiringView {
                signal: SignalRef { instance: i, slot: SignalSlot::Property(k as usize) },
                args: Seq::empty(),
            },
        ]
    } else {
        Seq::empty()
    }
}

/// What fires when a property has changed.
pub open spec fn changed_firings(rt: RuntimeView, i: usize, property: Text) -> Seq<FiringView> {
    event_firing(rt, i, "Changed"@, seq![ArgView::String(property)]) + own_firing(rt, i, property)
}

impl Runtime {
    /// The firing of an event, where the instance has it.
    pub fn event_firing(&self, instance: usize, name: &str, args: Vec<SignalArg>) -> (r: Vec<
        Firing,
    >)
        requires
            instance < self@.instances.len(),
        ensures
            text::views(r@) == event_firing(self@, instance, name@, text::views(args@)),
    {
        let mut out: Vec<Firing> = Vec::new();
        match self.find_event(instance, name) {
            Some(signal) => {
                out.push(Firing { signal, args });
                assert(text::views(out@) =~= seq![FiringView { signal, args: text::views(args@) }]);
            },
            None => {
                assert(text::views(out@) =~= Seq::empty());
            },
        }
        out
    }

    /// The firing of the event for changes of any property.
    pub fn changed_firing(&self, instance: usize, property_name: &str) -> (r: Vec<Firing>)
        requires
            instance < self@.instances.len(),
        ensures
            text::views(r@) == event_firing(
                self@,
                instance,
                "Changed"@,
                seq![ArgView::String(property_name@)],
            ),
    {
        let mut args: Vec<SignalArg> = Vec::new();
        args.push(SignalArg::String(property_name.to_owned()));
        assert(text::views(args@) =~= seq![ArgView::String(property_name@)]);
        self.event_firing(instance, "Changed", args)
    }

    /// The firing of the signal for changes of a property, where the instance has one.
    pub fn own_firing(&self, instance: usize, property_name: &str) -> (r: Vec<Firing>)
        requires
            instance < self@.instances.len(),
        ensures
            text::views(r@) == own_firing(self@, instance, property_name@),
    {
        let mut out: Vec<Firing> = Vec::new();
        match self.instances[instance].find_property_signal(property_name) {
            Some(k) => {
                let signal = SignalRef { instance, slot: SignalSlot::Property(k) };
                let firing = Firing { signal, args: Vec::new() };
                assert(text::views(firing.args@) =~= Seq::empty());
                out.push(firing);
                assert(text::views(out@) =~= own_firing(self@, instance, property_name@));
            },
            None => {
                assert(text::views(out@) =~= Seq::empty());
            },
        }
        out
    }

    /// What fires when a property has changed and nothing intervenes.
    pub fn fire_property_changed(&self, instance: usize, property_name: &str) -> (r: Vec<Firing>)
        requires
            instance < self@.instances.len(),
        ensures
            text::views(r@) == changed_firings(self@, instance, property_name@),
    {
        let mut out = self.changed_firing(instance, property_name);
        let mut own = self.own_firing(instance, property_name);
        let ghost a = out@;
        let ghost b = own@;
        out.append(&mut own);
        assert(text::views(out@) =~= text::views(a) + text::views(b));
        out
    }
}

// ---------------------------------------------------------------------------------------------
// Setting properties
// ---------------------------------------------------------------------------------------------

/// Whether the rules for a client's `Players` service apply to setting a property.
pub open spec fn forces_no_characters(rt: RuntimeView, i: usize, name: Text) -> bool {
    rt.instances[i as int].class_name == "Players"@ && name == "CharacterAutoLoads"@ && rt.mode
        == RuntimeMode::Client
}

/// The value that a property gets where a script sets it to `value`: a client loads no characters,
/// and parts stay anchored.
pub open spec fn allowed_value(
    rt: RuntimeView,
    i: usize,
    name: Text,
    value: ValueView,
) -> ValueView {
    if forces_no_characters(rt, i, name) {
        ValueView::Bool(false)
    } else if rt.instances[i as int].class_name == "Part"@ && name == "Anchored"@ && value
        == ValueView::Bool(false) {
        ValueView::Bool(true)
    } else {
        value
    }
}

/// Whether the client's player moves a part.
pub open spec fn owned_by_client(rt: RuntimeView, i: usize) -> bool {
    match (rt.instances[i as int].network_owner_name, rt.local_player) {
        (Some(owner), Some(player)) => owner == rt.instances[player as int].name,
        _ => false,
    }
}

/// The warning that a client's change of a part stays with the client, where it does.
pub open spec fn ownership_warning(rt: RuntimeView, i: usize, name: Text) -> Seq<Text> {
    if rt.mode == RuntimeMode::Client && !rt.instances[i as int].client_authoritative
        && !owned_by_client(rt, i) {
        seq![
            "[roblox-env warning] Client changed "@ + instance::full_name_of(rt.instances, i) + "."@ + name
                + " locally, but the change would not replicate because LocalPlayer does not own that part."@,
        ]
    } else {
        Seq::empty()
    }
}

/// The warning that setting a property of a part has not the effect that it has elsewhere.
pub open spec fn effect_warning(
    rt: RuntimeView,
    i: usize,
    name: Text,
    value: ValueView,
) -> Seq<Text> {
    if name == "Anchored"@ && value == ValueView::Bool(false) {
        seq![
            "[roblox-env warning] "@ + instance::full_name_of(rt.instances, i)
                + " requested Anchored = false, but physics is disabled so it remains true."@,
        ]
    } else if name == "CanCollide"@ && value == ValueView::Bool(true) {
        seq![
            "[roblox-env warning] "@ + instance::full_name_of(rt.instances, i)
                + " enabled CanCollide = true, but collision simulation is not implemented."@,
        ]
    } else {
        Seq::empty()
    }
}

/// The warnings that setting a property brings.
pub open spec fn policy_warnings(
    rt: RuntimeView,
    i: usize,
    name: Text,
    value: ValueView,
) -> Seq<Text> {
    if forces_no_characters(rt, i, name) {
        if instance::same_value(value, ValueView::Bool(false)) {
            Seq::empty()
        } else {
            seq![
                "[roblox-env warning] Players.CharacterAutoLoads is forced to false in emulate-client mode."@,
            ]
        }
    } else if rt.instances[i as int].class_name == "Part"@ {
        ownership_warning(rt, i, name) + effect_warning(rt, i, name, value)
    } else {
        Seq::empty()
    }
}

/// What comes of a script setting a property: the runtime, the warnings, and whether the value was
/// another one before or why the property cannot be set.
pub open spec fn set_property_outcome(
    rt: RuntimeView,
    i: usize,
    name: Text,
    value: ValueView,
) -> (RuntimeView, Seq<Text>, Result<bool, Text>) {
    let before = rt.instances[i as int];
    let allowed = allowed_value(rt, i, name, value);
    match instance::alive_check(before) {
        Err(message) => (rt, Seq::empty(), Err(message)),
        Ok(()) => (
            with_instance(rt, i, instance::with_property(before, name, allowed)),
            policy_warnings(rt, i, name, value),
            instance::set_outcome(before, name, allowed),
        ),
    }
}

/// What comes of storing a property: the warnings, and whether the value was another one before or
/// why the property cannot be set.
#[derive(Debug)]
pub(crate) struct StoreOutcome {
    pub warnings: Vec<String>,
    pub result: Result<bool, Error>,
}

/// What fires when a script sets a property and nothing intervenes: where the value was another one
/// before, the event for changes of any property and then the signal for changes of this one, and
/// otherwise nothing.
pub open spec fn property_firings(
    rt: RuntimeView,
    i: usize,
    name: Text,
    value: ValueView,
) -> Seq<FiringView> {
    let (after, _, result) = set_property_outcome(rt, i, name, value);
    if result == Ok::<bool, Text>(true) {
        changed_firings(after, i, name)
    } else {
        Seq::empty()
    }
}

/// What comes of setting a property: the warnings, what fires, and whether the value was another one
/// before or why the property cannot be set.
#[derive(Debug)]
pub struct PropertyOutcome {
    pub warnings: Vec<String>,
    pub firings: Vec<Firing>,
    pub result: Result<bool, Error>,
}

/// What is to be told next of a property that was set.
#[derive(Clone, Copy, Debug, PartialEq, Eq, Structural)]
pub enum PropertyStage {
    /// Next is the event for changes of any property.
    Changed,
    /// Next is the signal for changes of this property.
    OwnSignal,
    Done,
}

/// A property that was set.
#[derive(Debug)]
pub struct PropertyChange {
    pub instance: usize,
    pub property: String,
    pub stage: PropertyStage,
}

/// The content of a [`PropertyChange`].
#[verifier::ext_equal]
pub struct PropertyChangeView {
    pub instance: usize,
    pub property: Text,
    pub stage: PropertyStage,
}

impl View for PropertyChange {
    type V = PropertyChangeView;

    open spec fn view(&self) -> PropertyChangeView {
        PropertyChangeView {
            instance: self.instance,
            property: self.property@,
            stage: self.stage,
        }
    }
}

/// What comes of beginning to set a property: the warnings, and what is to be told or why the
/// property cannot be set.
#[derive(Debug)]
pub struct PropertyStart {
    pub warnings: Vec<String>,
    pub change: Result<PropertyChange, Error>,
}

/// A property that was set or an error, by their views.
pub open spec fn change_view(r: Result<PropertyChange, Error>) -> Result<PropertyChangeView, Text> {
    match r {
        Ok(change) => Ok(change@),
        Err(error) => Err(error@),
    }
}

/// What is to be told of a property that was set: nothing where it has the value that it had.
pub open spec fn change_begun(i: usize, name: Text, result: Result<bool, Text>) -> Result<
    PropertyChangeView,
    Text,
> {
    match result {
        Ok(changed) => Ok(
            PropertyChangeView {
                instance: i,
                property: name,
                stage: if changed {
                    PropertyStage::Changed
                } else {
                    PropertyStage::Done
                },
            },
        ),
        Err(message) => Err(message),
    }
}

/// One step of telling of a property that was set: what is told next, and what fires before that.
pub open spec fn property_step(rt: RuntimeView, change: PropertyChangeView) -> (
    PropertyStage,
    Seq<FiringView>,
) {
    match change.stage {
        PropertyStage::Changed => (
            PropertyStage::OwnSignal,
            event_firing(
                rt,
                change.instance,
                "Changed"@,
                seq![ArgView::String(change.property)],
            ),
        ),
        PropertyStage::OwnSignal => (
            PropertyStage::Done,
            own_firing(rt, change.instance, change.property),
        ),
        PropertyStage::Done => (PropertyStage::Done, Seq::empty()),
    }
}

/// Setting a property keeps the runtime well-formed.
pub proof fn lemma_set_property_wf(rt: RuntimeView, i: usize, name: Text, value: ValueView)
    requires
        rt.wf(),
        i < rt.instances.len(),
    ensures
        with_instance(
            rt,
            i,
            instance::with_property(rt.instances[i as int], name, allowed_value(rt, i, name, value)),
        ).wf(),
{
    let before = rt.instances[i as int];
    let allowed = allowed_value(rt, i, name, value);
    let after = instance::with_property(before, name, allowed);
    assert(before.wf() && stays_anchored(before));
    assert(after.wf());
    if before.class_name == "Part"@ && name == "Anchored"@ {
        lemma_kind_anchored();
        reveal_strlit("Part");
        reveal_strlit("Players");
        assert("Part"@.len() == 4);
        assert("Players"@.len() == 7);
        assert(!(allowed is Bool) ==> after == before);
        assert(allowed is Bool ==> allowed == ValueView::Bool(true));
        assert(stays_anchored(after));
    }
    let target = with_instance(rt, i, after);
    if loads_no_characters(before) && rt.mode == RuntimeMode::Client {
        assert(loads_no_characters(after));
    }
    lemma_replace(rt, i, after);
}

/// Replacing an instance keeps the runtime well-formed where the tree is not touched and what must
/// be kept is kept.
proof fn lemma_replace(rt: RuntimeView, i: usize, after: InstanceView)
    requires
        rt.wf(),
        i < rt.instances.len(),
        after.children == rt.instances[i as int].children,
        after.parent == rt.instances[i as int].parent,
        after.class_name == rt.instances[i as int].class_name,
        after.wf(),
        stays_anchored(after),
        rt.mode == RuntimeMode::Client && loads_no_characters(rt.instances[i as int])
            ==> loads_no_characters(after),
    ensures
        with_instance(rt, i, after).wf(),
{
    let target = with_instance(rt, i, after);
    assert(instance::kids_of(target.instances) =~= instance::kids_of(rt.instances));
    assert(instance::ups_of(target.instances) =~= instance::ups_of(rt.instances));
    assert forall|k: int| 0 <= k < target.instances.len() implies (
    #[trigger] target.instances[k]).wf() && stays_anchored(target.instances[k]) by {
        if k != i {
            assert(target.instances[k] == rt.instances[k]);
        }
    }
}

proof fn lemma_kind_anchored()
    ensures
        instance::kind_for("Part"@, "Anchored"@) == Some(PropertyKind::Bool),
        "Anchored"@ != "Name"@,
        "Anchored"@ != "ClassName"@,
{
    reveal_strlit("Anchored");
    reveal_strlit("Archivable");
    reveal_strlit("Name");
    reveal_strlit("ClassName");
    reveal_strlit("Part");
    reveal_strlit("Players");
    reveal_strlit("Player");
    reveal_strlit("HttpService");
    reveal_strlit("Script");
    reveal_strlit("LocalScript");
    reveal_strlit("ModuleScript");
    reveal_strlit("StringValue");
    reveal_strlit("Workspace");
    assert("Anchored"@.len() == 8);
    assert("Archivable"@.len() == 10);
    assert("Name"@.len() == 4);
    assert("ClassName"@.len() == 9);
    assert("Part"@.len() == 4);
    assert("Players"@.len() == 7);
    assert("Player"@.len() == 6);
    assert("HttpService"@.len() == 11);
    assert("Script"@.len() == 6);
    assert("LocalScript"@.len() == 11);
    assert("ModuleScript"@.len() == 12);
    assert("StringValue"@.len() == 11);
    assert("Workspace"@.len() == 9);
}

impl Runtime {
    /// Whether the client's player moves a part.
    fn is_owned_by_client(&self, instance: usize) -> (r: bool)
        requires
            self@.wf(),
            instance < self@.instances.len(),
        ensures
            r == owned_by_client(self@, instance),
    {
        match (&self.instances[instance].network_owner_name, self.local_player) {
            (Some(owner), Some(player)) => text_eq(
                owner.as_str(),
                self.instances[player].name.as_str(),
            ),
            _ => false,
        }
    }

    /// The value that a property gets where a script sets it, and the warnings that this brings.
    fn apply_property_policy(&self, instance: usize, property_name: &str, value: PropertyValue) -> (
    r: (PropertyValue, Vec<String>))
        requires
            self@.wf(),
            instance < self@.instances.len(),
        ensures
            r.0@ == allowed_value(self@, instance, property_name@, value@),
            text::views(r.1@) == policy_warnings(self@, instance, property_name@, value@),
    {
        let mut warnings: Vec<String> = Vec::new();
        assert(text::views(warnings@) =~= Seq::empty());
        let class_name = self.instances[instance].class_name.as_str();
        if text_eq(class_name, "Players") && text_eq(property_name, "CharacterAutoLoads")
            && self.mode == RuntimeMode::Client {
            if !value.equals(&PropertyValue::Bool(false)) {
                warnings.push(
                    "[roblox-env warning] Players.CharacterAutoLoads is forced to false in emulate-client mode.".to_owned(),
                );
                assert(text::views(warnings@) =~= policy_warnings(
                    self@,
                    instance,
                    property_name@,
                    value@,
                ));
            }
            return (PropertyValue::Bool(false), warnings);
        }
        if !text_eq(class_name, "Part") {
            return (value, warnings);
        }
        if self.mode == RuntimeMode::Client && !self.instances[instance].client_authoritative
            && !self.is_owned_by_client(instance) {
            let mut warning = concat3(
                "[roblox-env warning] Client changed ",
                Instance::full_name(&self.instances, instance).as_str(),
                ".",
            );
            warning.append(property_name);
            warning.append(
                " locally, but the change would not replicate because LocalPlayer does not own that part.",
            );
            warnings.push(warning);
        }
        let ghost first = ownership_warning(self@, instance, property_name@);
        assert(text::views(warnings@) =~= first);
        let ghost listed = warnings@;
        if text_eq(property_name, "Anchored") {
            if let PropertyValue::Bool(false) = value {
                let warning = concat3(
                    "[roblox-env warning] ",
                    Instance::full_name(&self.instances, instance).as_str(),
                    " requested Anchored = false, but physics is disabled so it remains true.",
                );
                proof {
                    text::lemma_views_push(listed, warning);
                }
                warnings.push(warning);
                assert(text::views(warnings@) =~= first + effect_warning(
                    self@,
                    instance,
                    property_name@,
                    value@,
                ));
                return (PropertyValue::Bool(true), warnings);
            }
        }
        proof {
            reveal_strlit("Anchored");
            reveal_strlit("CanCollide");
            assert("Anchored"@.len() == 8);
            assert("CanCollide"@.len() == 10);
        }
        if text_eq(property_name, "CanCollide") {
            if let PropertyValue::Bool(true) = value {
                let warning = concat3(
                    "[roblox-env warning] ",
                    Instance::full_name(&self.instances, instance).as_str(),
                    " enabled CanCollide = true, but collision simulation is not implemented.",
                );
                proof {
                    text::lemma_views_push(listed, warning);
                }
                warnings.push(warning);
            }
        }
        assert(text::views(warnings@) =~= first + effect_warning(
            self@,
            instance,
            property_name@,
            value@,
        ));
        (value, warnings)
    }

    /// Stores a property as a script does. Nothing is told of it.
    pub(crate) fn store_property(
        &mut self,
        instance: usize,
        property_name: &str,
        value: PropertyValue,
    ) -> (r: StoreOutcome)
        requires
            old(self)@.wf(),
            instance < old(self)@.instances.len(),
        ensures
            final(self)@.wf(),
            final(self)@.instances.len() == old(self)@.instances.len(),
            (final(self)@, text::views(r.warnings@), error::flag_view(r.result)) == set_property_outcome(
                old(self)@,
                instance,
                property_name@,
                value@,
            ),
    {
        let ghost before = self@;
        if let Err(error) = self.instances[instance].assert_alive() {
            let warnings: Vec<String> = Vec::new();
            assert(text::views(warnings@) =~= Seq::empty());
            return StoreOutcome { warnings, result: Err(error) };
        }
        proof {
            lemma_set_property_wf(before, instance, property_name@, value@);
        }
        let (value, warnings) = self.apply_property_policy(instance, property_name, value);
        let ghost held = self.instances@;
        assert(held[instance as int]@ == before.instances[instance as int]);
        let result = self.instances[instance].set_property(property_name, value);
        proof {
            let changed = instance::with_property(
                before.instances[instance as int],
                property_name@,
                value@,
            );
            assert(self.instances@[instance as int]@ == changed);
            assert(self@ =~= with_instance(before, instance, changed));
        }
        StoreOutcome { warnings, result }
    }

    /// Begins to set a property as a script does: the property has its new value, and what is to be
    /// told of it is left to [`Runtime::step_set_property`].
    pub fn begin_set_property(
        &mut self,
        instance: usize,
        property_name: &str,
        value: PropertyValue,
    ) -> (r: PropertyStart)
        requires
            old(self)@.wf(),
            instance < old(self)@.instances.len(),
        ensures
            final(self)@.wf(),
            final(self)@.instances.len() == old(self)@.instances.len(),
            ({
                let outcome = set_property_outcome(old(self)@, instance, property_name@, value@);
                &&& final(self)@ == outcome.0
                &&& text::views(r.warnings@) == outcome.1
                &&& change_view(r.change) == change_begun(instance, property_name@, outcome.2)
            }),
    {
        let outcome = self.store_property(instance, property_name, value);
        let change = match outcome.result {
            Ok(changed) => Ok(
                PropertyChange {
                    instance,
                    property: property_name.to_owned(),
                    stage: if changed {
                        PropertyStage::Changed
                    } else {
                        PropertyStage::Done
                    },
                },
            ),
            Err(error) => Err(error),
        };
        PropertyStart { warnings: outcome.warnings, change }
    }

    /// Takes one step of telling of a property that was set. What the result lists fires before the
    /// next step is taken.
    pub fn step_set_property(&self, change: &mut PropertyChange) -> (r: Vec<Firing>)
        requires
            old(change).instance < self@.instances.len(),
        ensures
            ({
                let step = property_step(self@, old(change)@);
                &&& final(change)@ == (PropertyChangeView { stage: step.0, ..old(change)@ })
                &&& text::views(r@) == step.1
            }),
    {
        match change.stage {
            PropertyStage::Changed => {
                change.stage = PropertyStage::OwnSignal;
                self.changed_firing(change.instance, change.property.as_str())
            },
            PropertyStage::OwnSignal => {
                change.stage = PropertyStage::Done;
                self.own_firing(change.instance, change.property.as_str())
            },
            PropertyStage::Done => {
                let out: Vec<Firing> = Vec::new();
                assert(text::views(out@) =~= Seq::empty());
                out
            },
        }
    }

    /// Sets a property as a script does, where nothing intervenes. The result lists what fires.
    pub fn set_property(
        &mut self,
        instance: usize,
        property_name: &str,
        value: PropertyValue,
    ) -> (r: PropertyOutcome)
        requires
            old(self)@.wf(),
            instance < old(self)@.instances.len(),
        ensures
            final(self)@.wf(),
            final(self)@.instances.len() == old(self)@.instances.len(),
            (final(self)@, text::views(r.warnings@), error::flag_view(r.result)) == set_property_outcome(
                old(self)@,
                instance,
                property_name@,
                value@,
            ),
            text::views(r.firings@) == property_firings(
                old(self)@,
                instance,
                property_name@,
                value@,
            ),
    {
        let start = self.begin_set_property(instance, property_name, value);
        let mut firings: Vec<Firing> = Vec::new();
        assert(text::views(firings@) =~= Seq::empty());
        match start.change {
            Ok(mut change) => {
                let changed = change.stage == PropertyStage::Changed;
                if changed {
                    firings = self.step_set_property(&mut change);
                    let ghost first = firings@;
                    let mut own = self.step_set_property(&mut change);
                    let ghost second = own@;
                    firings.append(&mut own);
                    assert(text::views(firings@) =~= text::views(first) + text::views(second));
                }
                PropertyOutcome { warnings: start.warnings, firings, result: Ok(changed) }
            },
            Err(error) => PropertyOutcome {
                warnings: start.warnings,
                firings,
                result: Err(error),
            },
        }
    }
}

// ---------------------------------------------------------------------------------------------
// Copying
// ---------------------------------------------------------------------------------------------

/// The copy of one instance. What a client copies is the client's own.
pub open spec fn clone_leaf(rt: RuntimeView, source: usize) -> InstanceView {
    let from = rt.instances[source as int];
    InstanceView {
        client_authoritative: rt.mode == RuntimeMode::Client || from.client_authoritative,
        ..instance::shallow_clone(from, rt.next_id)
    }
}

/// The runtime with copies of an instance and of what lies at most `depth` levels below it, each
/// copy made before the copies below it.
pub open spec fn clone_node(
    rt: RuntimeView,
    source: usize,
    parent: Option<usize>,
    depth: nat,
) -> RuntimeView
    decreases depth, 1nat, 0nat,
{
    let position = rt.instances.len() as usize;
    let leaf = clone_leaf(rt, source);
    let grown = match parent {
        Some(p) => with_child(rt, leaf, p),
        None => with_new(rt, leaf),
    };
    if depth == 0 {
        grown
    } else {
        clone_list(grown, rt.instances[source as int].children, position, (depth - 1) as nat)
    }
}

/// The runtime with copies of the given instances below `parent`.
pub open spec fn clone_list(
    rt: RuntimeView,
    list: Seq<usize>,
    parent: usize,
    depth: nat,
) -> RuntimeView
    decreases depth, 2nat, list.len(),
{
    if list.len() == 0 {
        rt
    } else {
        clone_node(clone_list(rt, list.drop_last(), parent, depth), list.last(), Some(parent), depth)
    }
}

/// The runtime with copies of an instance and of everything below it.
pub open spec fn with_clone(rt: RuntimeView, source: usize) -> RuntimeView {
    clone_node(rt, source, None, rt.instances.len())
}

/// Whether the instances of `rt` are still what they were.
pub open spec fn extends(later: RuntimeView, rt: RuntimeView) -> bool {
    &&& later.instances.len() >= rt.instances.len()
    &&& later.mode == rt.mode
    &&& forall|k: int|
        0 <= k < rt.instances.len() ==> #[trigger] later.instances[k] == rt.instances[k]
}

proof fn lemma_list_below_take(kids: Seq<Seq<usize>>, list: Seq<usize>, k: int, depth: nat)
    requires
        0 <= k <= list.len(),
    ensures
        tree::list_below(kids, list.take(k), depth).len() <= tree::list_below(kids, list, depth).len(),
    decreases list.len() - k,
{
    if k == list.len() {
        assert(list.take(k) =~= list);
    } else {
        lemma_list_below_take(kids, list, k + 1, depth);
        assert(list.take(k + 1).drop_last() =~= list.take(k));
    }
}

proof fn lemma_clone_leaf_addable(rt: RuntimeView, source: usize)
    requires
        rt.wf(),
        source < rt.instances.len(),
    ensures
        addable(clone_leaf(rt, source)),
{
    let from = rt.instances[source as int];
    let leaf = clone_leaf(rt, source);
    assert(stays_anchored(from));
    assert forall|k: int| 0 <= k < leaf.events.len() implies (#[trigger] leaf.events[k]).wf() by {
        assert(leaf.events[k] == signal::new_signal(from.events[k].name));
    }
}

impl Runtime {
    /// Copies an instance and everything below it, to stand below `parent` where there is one.
    fn clone_below(
        &mut self,
        source: usize,
        parent: Option<usize>,
        Ghost(start): Ghost<RuntimeView>,
        Ghost(rank): Ghost<spec_fn(int) -> nat>,
        Ghost(depth): Ghost<nat>,
    ) -> (r: usize)
        requires
            old(self)@.wf(),
            start.wf(),
            extends(old(self)@, start),
            tree::ranked(instance::kids_of(start.instances), rank),
            source < start.instances.len(),
            rank(source as int) <= depth,
            parent matches Some(p) ==> start.instances.len() <= p < old(self)@.instances.len(),
            old(self)@.next_id + tree::node_below(instance::kids_of(start.instances), source, depth).len()
                <= u64::MAX,
            old(self)@.instances.len() + tree::node_below(
                instance::kids_of(start.instances),
                source,
                depth,
            ).len() <= usize::MAX,
        ensures
            final(self)@.wf(),
            extends(final(self)@, start),
            final(self)@.next_id == old(self)@.next_id + tree::node_below(
                instance::kids_of(start.instances),
                source,
                depth,
            ).len(),
            final(self)@.instances.len() == old(self)@.instances.len() + tree::node_below(
                instance::kids_of(start.instances),
                source,
                depth,
            ).len(),
            r == old(self)@.instances.len(),
            final(self)@ == clone_node(old(self)@, source, parent, depth),
        decreases rank(source as int),
    {
        let ghost before = self@;
        let ghost kids = instance::kids_of(start.instances);
        let ghost list = kids[source as int];
        let ghost under = if depth == 0 {
            0
        } else {
            tree::list_below(kids, list, (depth - 1) as nat).len()
        };
        assert(tree::node_below(kids, source, depth).len() == 1 + under);
        assert(before.instances[source as int] == start.instances[source as int]);
        let mut leaf = self.instances[source].clone_shallow(self.next_id);
        if self.mode == RuntimeMode::Client {
            leaf.client_authoritative = true;
        }
        proof {
            assert(leaf@ =~= clone_leaf(before, source));
            lemma_clone_leaf_addable(before, source);
        }
        let position = match parent {
            Some(p) => self.add_child(leaf, p),
            None => self.add_instance(leaf),
        };
        let ghost grown = self@;
        assert(extends(grown, start));
        assert(list == start.instances[source as int].children);
        assert(list == self@.instances[source as int].children);
        proof {
            if list.len() > 0 {
                assert(rank(kids[source as int][0] as int) < rank(source as int));
            }
        }
        let count: usize = self.instances[source].children.len();
        let mut k: usize = 0;
        assert(list.take(0) =~= Seq::empty());
        while k < count
            invariant
                k <= count,
                count == list.len(),
                self@.wf(),
                start.wf(),
                extends(self@, start),
                kids == instance::kids_of(start.instances),
                tree::ranked(kids, rank),
                source < start.instances.len(),
                list == kids[source as int],
                list == start.instances[source as int].children,
                rank(source as int) <= depth,
                start.instances.len() <= position < self@.instances.len(),
                grown.instances.len() == before.instances.len() + 1,
                grown.next_id == before.next_id + 1,
                before.next_id + 1 + under <= u64::MAX,
                before.instances.len() + 1 + under <= usize::MAX,
                count > 0 ==> depth > 0 && under == tree::list_below(
                    kids,
                    list,
                    (depth - 1) as nat,
                ).len(),
                k > 0 ==> self@.next_id == grown.next_id + tree::list_below(
                    kids,
                    list.take(k as int),
                    (depth - 1) as nat,
                ).len(),
                k > 0 ==> self@.instances.len() == grown.instances.len() + tree::list_below(
                    kids,
                    list.take(k as int),
                    (depth - 1) as nat,
                ).len(),
                k > 0 ==> self@ == clone_list(
                    grown,
                    list.take(k as int),
                    position,
                    (depth - 1) as nat,
                ),
                k == 0 ==> self@ == grown,
            decreases count - k,
        {
            let ghost d = (depth - 1) as nat;
            assert(self@.instances[source as int] == start.instances[source as int]);
            assert(self.instances@[source as int].children@ == list);
            let child = self.instances[source].children[k];
            assert(kids[source as int][k as int] == child);
            assert(rank(kids[source as int][k as int] as int) < rank(source as int));
            assert(child < kids.len());
            proof {
                assert(list.take(k + 1).drop_last() =~= list.take(k as int));
                assert(list.take(k + 1).last() == child);
                lemma_list_below_take(kids, list, k + 1, d);
                assert(tree::list_below(kids, list.take(k + 1), d) == tree::list_below(
                    kids,
                    list.take(k as int),
                    d,
                ) + tree::node_below(kids, child, d));
                if k == 0 {
                    assert(list.take(0) =~= Seq::empty());
                }
            }
            let _ = self.clone_below(child, Some(position), Ghost(start), Ghost(rank), Ghost(d));
            k += 1;
        }
        proof {
            assert(list.take(count as int) =~= list);
            if count == 0 {
                assert(list =~= Seq::empty());
            }
        }
        position
    }

    /// Copies an instance and everything below it. The result is the copy, outside the tree.
    pub fn clone_instance_tree(&mut self, source: usize) -> (r: usize)
        requires
            old(self)@.wf(),
            source < old(self)@.instances.len(),
            old(self)@.next_id + tree::subtree(instance::kids_of(old(self)@.instances), source).len() <= u64::MAX,
            old(self)@.instances.len() + tree::subtree(instance::kids_of(old(self)@.instances), source).len()
                <= usize::MAX,
        ensures
            final(self)@.wf(),
            r == old(self)@.instances.len(),
            final(self)@ == with_clone(old(self)@, source),
    {
        let ghost start = self@;
        let ghost kids = instance::kids_of(start.instances);
        let ghost rank = tree::lemma_small_rank(kids);
        proof {
            tree::lemma_subtree_unfold(kids, source);
            assert(rank(source as int) < kids.len());
        }
        self.clone_below(source, None, Ghost(start), Ghost(rank), Ghost(start.instances.len()))
    }
}

// ---------------------------------------------------------------------------------------------
// Changing the tree
// ---------------------------------------------------------------------------------------------

/// The test for all instances but one.
pub open spec fn all_but(child: usize) -> spec_fn(usize) -> bool {
    |i: usize| i != child
}

/// The runtime with an instance no longer among the children of another.
pub open spec fn detached(rt: RuntimeView, parent: usize, child: usize) -> RuntimeView {
    let above = rt.instances[parent as int];
    with_instance(
        rt,
        parent,
        InstanceView { children: above.children.filter(all_but(child)), ..above },
    )
}

/// The runtime with an instance put below another one, or below none.
pub open spec fn placed(rt: RuntimeView, child: usize, parent: Option<usize>) -> RuntimeView {
    let moved = with_instance(
        rt,
        child,
        InstanceView { parent, ..rt.instances[child as int] },
    );
    match parent {
        Some(p) => {
            let above = moved.instances[p as int];
            with_instance(
                moved,
                p,
                InstanceView { children: above.children.push(child), ..above },
            )
        },
        None => moved,
    }
}

/// Whether putting an instance below another one would make a circle.
pub open spec fn clashes(rt: RuntimeView, child: usize, parent: usize) -> bool {
    ||| tree::subtree(instance::kids_of(rt.instances), child).contains(parent)
    ||| tree::lineage(instance::ups_of(rt.instances), parent).contains(child)
}

/// The runtime with the given instances destroyed: they lose their children and their parents.
pub open spec fn buried(rt: RuntimeView, list: Seq<usize>) -> RuntimeView {
    RuntimeView {
        instances: Seq::new(
            rt.instances.len(),
            |k: int|
                if list.contains(k as usize) {
                    InstanceView {
                        children: Seq::empty(),
                        parent: None,
                        destroyed: true,
                        ..rt.instances[k]
                    }
                } else {
                    rt.instances[k]
                },
        ),
        ..rt
    }
}

/// Whether an instance differs from what it was in its place in the tree alone, or in being
/// destroyed.
spec fn same_otherwise(before: InstanceView, after: InstanceView) -> bool {
    after == (InstanceView {
        children: after.children,
        parent: after.parent,
        destroyed: after.destroyed,
        ..before
    })
}

proof fn lemma_moved(rt: RuntimeView, instances: Seq<InstanceView>)
    requires
        rt.wf(),
        instances.len() == rt.instances.len(),
        forall|i: int|
            0 <= i < instances.len() ==> same_otherwise(rt.instances[i], #[trigger] instances[i]),
        instance::tree_wf(instances),
    ensures
        with_instances(rt, instances).wf(),
{
    let after = with_instances(rt, instances);
    assert forall|i: int| 0 <= i < after.instances.len() implies (
    #[trigger] after.instances[i]).wf() && stays_anchored(after.instances[i]) by {
        assert(same_otherwise(rt.instances[i], instances[i]));
        assert(rt.instances[i].wf() && stays_anchored(rt.instances[i]));
    }
    if rt.mode == RuntimeMode::Client && rt.services.contains_key("players"@) {
        let k = rt.services["players"@] as int;
        assert(same_otherwise(rt.instances[k], instances[k]));
    }
}

proof fn lemma_filter_within(list: Seq<usize>, child: usize)
    ensures
        forall|k: int|
            0 <= k < list.filter(all_but(child)).len() ==> list.contains(
                #[trigger] list.filter(all_but(child))[k],
            ),
    decreases list.len(),
{
    reveal(Seq::filter);
    if list.len() > 0 {
        let init = list.drop_last();
        lemma_filter_within(init, child);
        let part = init.filter(all_but(child));
        let whole = list.filter(all_but(child));
        assert(whole == part || whole == part.push(list.last()));
        assert forall|k: int| 0 <= k < whole.len() implies list.contains(#[trigger] whole[k]) by {
            if k < part.len() {
                assert(whole[k] == part[k]);
                assert(init.contains(part[k]));
                let j = choose|j: int| 0 <= j < init.len() && init[j] == part[k];
                assert(list[j] == part[k]);
            } else {
                assert(list[list.len() - 1] == whole[k]);
            }
        }
    }
}

/// Taking an instance from the children of another keeps the runtime well-formed.
pub proof fn lemma_detached_wf(rt: RuntimeView, parent: usize, child: usize)
    requires
        rt.wf(),
        parent < rt.instances.len(),
    ensures
        detached(rt, parent, child).wf(),
        tree::fewer(instance::kids_of(detached(rt, parent, child).instances), instance::kids_of(rt.instances)),
        instance::ups_of(detached(rt, parent, child).instances) == instance::ups_of(rt.instances),
{
    let after = detached(rt, parent, child);
    let kids = instance::kids_of(rt.instances);
    let less = instance::kids_of(after.instances);
    lemma_filter_within(rt.instances[parent as int].children, child);
    assert forall|i: int, k: int| 0 <= i < less.len() && 0 <= k < less[i].len() implies kids[i].contains(
        #[trigger] less[i][k],
    ) by {
        if i != parent {
            assert(less[i] == kids[i]);
            assert(kids[i][k] == less[i][k]);
        }
    }
    tree::lemma_fewer_acyclic(less, kids);
    assert(instance::ups_of(after.instances) =~= instance::ups_of(rt.instances));
    lemma_moved(rt, after.instances);
    assert(after =~= with_instances(rt, after.instances));
}

/// Putting an instance below another one keeps the runtime well-formed where it makes no circle.
pub proof fn lemma_placed_wf(rt: RuntimeView, child: usize, parent: Option<usize>)
    requires
        rt.wf(),
        child < rt.instances.len(),
        parent matches Some(p) ==> p < rt.instances.len() && !clashes(rt, child, p),
    ensures
        placed(rt, child, parent).wf(),
{
    let after = placed(rt, child, parent);
    let kids = instance::kids_of(rt.instances);
    let ups = instance::ups_of(rt.instances);
    tree::lemma_move_rooted(ups, child, parent);
    match parent {
        Some(p) => {
            tree::lemma_reach(kids, child, child);
            assert(p != child);
            tree::lemma_attach_acyclic(kids, p, child);
            assert(instance::kids_of(after.instances) =~= kids.update(p as int, kids[p as int].push(child)));
        },
        None => {
            assert(instance::kids_of(after.instances) =~= kids);
        },
    }
    assert(instance::ups_of(after.instances) =~= ups.update(child as int, parent));
    lemma_moved(rt, after.instances);
    assert(after =~= with_instances(rt, after.instances));
}

/// Instances that are taken out for good leave the rest as it has to be.
pub proof fn lemma_buried_wf(rt: RuntimeView, list: Seq<usize>)
    requires
        rt.wf(),
    ensures
        buried(rt, list).wf(),
{
    let after = buried(rt, list);
    let kids = instance::kids_of(rt.instances);
    let less = instance::kids_of(after.instances);
    assert forall|i: int, k: int| 0 <= i < less.len() && 0 <= k < less[i].len() implies kids[i].contains(
        #[trigger] less[i][k],
    ) by {
        assert(less[i] == kids[i]);
        assert(kids[i][k] == less[i][k]);
    }
    tree::lemma_fewer_acyclic(less, kids);
    let lists = tree::up_lists(instance::ups_of(rt.instances));
    let cut = tree::up_lists(instance::ups_of(after.instances));
    assert forall|i: int, k: int| 0 <= i < cut.len() && 0 <= k < cut[i].len() implies lists[i].contains(
        #[trigger] cut[i][k],
    ) by {
        assert(cut[i] == lists[i]);
        assert(lists[i][k] == cut[i][k]);
    }
    tree::lemma_fewer_acyclic(cut, lists);
    lemma_moved(rt, after.instances);
    assert(after =~= with_instances(rt, after.instances));
}

impl Runtime {
    /// Takes an instance from the children of another.
    pub(crate) fn detach_child(&mut self, parent: usize, child: usize)
        requires
            old(self)@.wf(),
            parent < old(self)@.instances.len(),
        ensures
            final(self)@.wf(),
            final(self)@ == detached(old(self)@, parent, child),
    {
        let ghost before = self@;
        let ghost list = self.instances@[parent as int].children@;
        let mut kept: Vec<usize> = Vec::new();
        let mut i: usize = 0;
        proof {
            reveal(Seq::filter);
            assert(list.take(0) =~= Seq::empty());
            assert(kept@ =~= list.take(0).filter(all_but(child)));
        }
        while i < self.instances[parent].children.len()
            invariant
                parent < self.instances@.len(),
                i <= list.len(),
                list == self.instances@[parent as int].children@,
                kept@ == list.take(i as int).filter(all_but(child)),
            decreases list.len() - i,
        {
            let at = self.instances[parent].children[i];
            proof {
                reveal(Seq::filter);
                assert(list.take(i + 1).drop_last() =~= list.take(i as int));
                assert(list.take(i + 1).last() == at);
            }
            if at != child {
                kept.push(at);
            }
            i += 1;
        }
        assert(list.take(i as int) =~= list);
        self.instances[parent].children = kept;
        proof {
            let after = detached(before, parent, child);
            assert(self.instances@[parent as int]@ =~= after.instances[parent as int]);
            assert(self@ =~= after);
            lemma_detached_wf(before, parent, child);
        }
    }

    /// Whether putting an instance below another one would make a circle.
    pub(crate) fn would_clash(&self, child: usize, parent: usize) -> (r: bool)
        requires
            self@.wf(),
            child < self@.instances.len(),
            parent < self@.instances.len(),
        ensures
            r == clashes(self@, child, parent),
    {
        let below = with_descendants(&self.instances, child);
        if list_contains(&below, parent) {
            return true;
        }
        let ghost ups = instance::ups_of(self@.instances);
        let ghost line = tree::lineage(ups, parent);
        let mut cursor: Option<usize> = Some(parent);
        let ghost mut left = line;
        while cursor.is_some()
            invariant
                self@.wf(),
                ups == instance::ups_of(self@.instances),
                !tree::subtree(instance::kids_of(self@.instances), child).contains(parent),
                line == tree::lineage(ups, parent),
                line.contains(child) == left.contains(child),
                match cursor {
                    Some(at) => at < self@.instances.len() && left == tree::lineage(ups, at),
                    None => left.len() == 0,
                },
            decreases left.len(),
        {
            let at: usize = cursor.unwrap();
            proof {
                tree::lemma_lineage(ups, at);
                assert(left[0] == at);
            }
            if at == child {
                return true;
            }
            cursor = self.instances[at].parent;
            proof {
                let rest = left.skip(1);
                assert(left =~= seq![at] + rest);
                tree::lemma_contains_append(seq![at], rest, child);
                assert(!seq![at].contains(child));
                match ups[at as int] {
                    Some(up) => {
                        assert(rest =~= tree::lineage(ups, up));
                    },
                    None => {
                        assert(rest =~= Seq::empty());
                    },
                }
                left = rest;
            }
        }
        false
    }

    /// Puts an instance below another one, or below none.
    pub(crate) fn place_child(&mut self, child: usize, parent: Option<usize>)
        requires
            old(self)@.wf(),
            child < old(self)@.instances.len(),
            parent matches Some(p) ==> p < old(self)@.instances.len() && !clashes(
                old(self)@,
                child,
                p,
            ),
        ensures
            final(self)@.wf(),
            final(self)@ == placed(old(self)@, child, parent),
    {
        let ghost before = self@;
        self.instances[child].parent = parent;
        let ghost moved = with_instance(
            before,
            child,
            InstanceView { parent, ..before.instances[child as int] },
        );
        assert(self.instances@[child as int]@ =~= moved.instances[child as int]);
        assert(self@ =~= moved);
        if let Some(p) = parent {
            self.instances[p].children.push(child);
            proof {
                let after = placed(before, child, parent);
                assert(self.instances@[p as int]@ =~= after.instances[p as int]);
                assert(self@ =~= after);
            }
        }
        proof {
            lemma_placed_wf(before, child, parent);
        }
    }

    /// Destroys the given instances.
    pub(crate) fn bury(&mut self, list: &Vec<usize>)
        requires
            old(self)@.wf(),
            forall|k: int|
                0 <= k < list@.len() ==> #[trigger] list@[k] < old(self)@.instances.len(),
        ensures
            final(self)@.wf(),
            final(self)@ == buried(old(self)@, list@),
    {
        let ghost before = self@;
        let ghost nodes = before.instances;
        let mut i: usize = 0;
        while i < list.len()
            invariant
                i <= list@.len(),
                nodes == before.instances,
                nodes.len() <= usize::MAX,
                forall|k: int| 0 <= k < list@.len() ==> #[trigger] list@[k] < nodes.len(),
                self@ == with_instances(before, self@.instances),
                self@.instances.len() == nodes.len(),
                forall|k: int|
                    0 <= k < nodes.len() ==> #[trigger] self@.instances[k] == buried(
                        before,
                        list@.take(i as int),
                    ).instances[k],
            decreases list@.len() - i,
        {
            let at = list[i];
            assert(list@[i as int] < nodes.len());
            let ghost held = self.instances@;
            let ghost seen = self@.instances;
            self.instances[at].children = Vec::new();
            self.instances[at].parent = None;
            self.instances[at].destroyed = true;
            proof {
                assert(self@ =~= with_instances(before, self@.instances));
                assert forall|k: int| 0 <= k < nodes.len() implies #[trigger] self@.instances[k]
                    == buried(before, list@.take(i + 1)).instances[k] by {
                    assert(self@.instances[k] == self.instances@[k]@);
                    assert(seen[k] == held[k]@);
                    lemma_take_contains(list@, i as int, k as usize);
                    if k == at {
                        assert(self.instances@[k]@ =~= buried(
                            before,
                            list@.take(i + 1),
                        ).instances[k]);
                    } else {
                        assert(self.instances@[k] == held[k]);
                    }
                }
            }
            i += 1;
        }
        proof {
            assert(list@.take(i as int) =~= list@);
            assert(self@.instances =~= buried(before, list@).instances);
            lemma_buried_wf(before, list@);
        }
    }
}

/// Whether a position is in a list.
pub(crate) fn list_contains(list: &Vec<usize>, x: usize) -> (r: bool)
    ensures
        r == list@.contains(x),
{
    let mut i: usize = 0;
    while i < list.len()
        invariant
            i <= list@.len(),
            forall|k: int| 0 <= k < i ==> list@[k] != x,
        decreases list@.len() - i,
    {
        if list[i] == x {
            return true;
        }
        i += 1;
    }
    false
}

} // verus!
