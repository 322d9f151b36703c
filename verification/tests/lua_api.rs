use roblox_luau_env::RuntimeMode;
use roblox_luau_env::console::{
    ConsoleEntry, ConsoleTable, ConsoleValue, OpaqueKind, console_location,
    format_console_output_line, integer_to_text, sanitize_debug_source, value_to_console_string,
    values_to_console_string,
};
use roblox_luau_env::instance::PropertyValue;
use roblox_luau_env::loader::instantiate_layout;
use roblox_luau_env::lua_api::{
    Assignment, ConnectionMember, LuaValue, Member, Method, ModuleCache, assert_http_enabled,
    assign_instance, connection_member, find_first_child, get_network_owner, get_players,
    get_service, index_instance, instance_to_string, load_character_error, lookup_instance_member,
    lua_value_to_property, require_target, script_chunk_name, script_source, set_network_owner,
    should_auto_run_class, signal_member, value_to_instance, wait_warning,
};
use roblox_luau_env::math::{Number, Vector3};
use roblox_luau_env::project::{LoadedProject, ProjectFile};
use roblox_luau_env::runtime::Runtime;

fn file(path: &str, source: &str) -> ProjectFile {
    ProjectFile { relative_path: path.to_string(), bytes: source.as_bytes().to_vec() }
}

fn text(s: &str) -> LuaValue {
    LuaValue::String(s.to_string())
}

fn service(runtime: &Runtime, name: &str) -> usize {
    get_service(runtime, runtime.data_model(), name).expect("service")
}

/// Assigns to a member of an instance, as a script does.
fn assign(runtime: &mut Runtime, instance: usize, key: &str, value: LuaValue) -> Vec<String> {
    match assign_instance(runtime, instance, key, &value).expect("assignment") {
        Assignment::Parent(parent) => {
            runtime.set_parent(instance, parent).expect("parent");
            Vec::new()
        }
        Assignment::Property(value) => {
            let outcome = runtime.set_property(instance, key, value);
            outcome.result.expect("property");
            outcome.warnings
        }
    }
}

fn property(runtime: &Runtime, instance: usize, key: &str) -> PropertyValue {
    match index_instance(runtime, instance, key).expect("member") {
        Member::Property(value) => value,
        other => panic!("expected a property, found {other:?}"),
    }
}

fn member(runtime: &Runtime, instance: usize, key: &str) -> usize {
    match index_instance(runtime, instance, key).expect("member") {
        Member::Instance(found) => found,
        other => panic!("expected an instance, found {other:?}"),
    }
}

fn class_of(runtime: &Runtime, instance: usize) -> String {
    match index_instance(runtime, instance, "ClassName").expect("class") {
        Member::Text(name) => name,
        Member::Property(PropertyValue::String(name)) => name,
        other => panic!("expected a class name, found {other:?}"),
    }
}

#[test]
fn parts_stay_anchored_when_lua_tries_to_disable_them() {
    let mut env = Runtime::new(RuntimeMode::Server);
    let part = env.create_instance("Part");
    let warnings = assign(&mut env, part, "Anchored", LuaValue::Boolean(false));
    assert!(property(&env, part, "Anchored") == PropertyValue::Bool(true));
    assert_eq!(
        warnings,
        vec![
            "[roblox-env warning] Part requested Anchored = false, but physics is disabled so it remains true."
                .to_string()
        ]
    );
}

#[test]
fn game_get_service_returns_workspace() {
    let env = Runtime::new(RuntimeMode::Server);
    let ws = service(&env, "Workspace");
    assert_eq!(class_of(&env, ws), "Workspace");
}

#[test]
fn client_mode_disables_character_auto_loads() {
    let env = Runtime::new(RuntimeMode::Client);
    let players = service(&env, "Players");
    assert!(property(&env, players, "CharacterAutoLoads") == PropertyValue::Bool(false));
    let player = member(&env, players, "LocalPlayer");
    assert_eq!(class_of(&env, player), "Player");
}

#[test]
fn client_cannot_access_server_only_services() {
    let env = Runtime::new(RuntimeMode::Client);
    let game = env.data_model();
    assert!(get_service(&env, game, "ServerStorage").is_err());
    assert!(get_service(&env, game, "ServerScriptService").is_err());
    assert!(matches!(index_instance(&env, game, "ServerStorage"), Ok(Member::Nil)));
    assert!(matches!(index_instance(&env, game, "ServerScriptService"), Ok(Member::Nil)));
    assert!(lookup_instance_member(&env, game, "ServerStorage").is_none());
    assert!(lookup_instance_member(&env, game, "ServerScriptService").is_none());
}

#[test]
fn project_loader_runs_server_scripts_and_leaves_modules_requirable() {
    let mut env = Runtime::new(RuntimeMode::Server);
    let project = LoadedProject {
        files: vec![
            file(
                "Workspace/Boot.server.luau",
                r#"
                        local answer = require(script.Parent.Answer)
                        local part = Instance.new("Part")
                        part.Name = answer.Name
                        part.Parent = workspace
                    "#,
            ),
            file("Workspace/Answer.luau", r#"return { Name = "LoadedFromModule" }"#),
        ],
    };

    let layout = project.layout().expect("layout");
    let report = instantiate_layout(&mut env, &layout);
    assert!(report.result.is_ok());
    let workspace = service(&env, "Workspace");

    // The script that runs by itself.
    assert_eq!(report.auto_run.len(), 1);
    let script = report.auto_run[0];
    assert_eq!(env.instance(script).name, "Boot");
    assert!(script_source(env.instance(script)).contains("require(script.Parent.Answer)"));

    // What the script does.
    let parent = member(&env, script, "Parent");
    let answer = member(&env, parent, "Answer");
    assert_eq!(require_target(&env, &LuaValue::Instance(answer)).expect("module"), answer);
    let part = env.create_instance("Part");
    assign(&mut env, part, "Name", text("LoadedFromModule"));
    assign(&mut env, part, "Parent", LuaValue::Instance(workspace));

    assert_eq!(
        find_first_child(&env, workspace, Some("LoadedFromModule"), false).expect("child"),
        Some(part)
    );
}

#[test]
fn init_module_owns_its_folder_children() {
    let mut env = Runtime::new(RuntimeMode::Server);
    let project = LoadedProject {
        files: vec![
            file("ReplicatedStorage/Foo/init.luau", r#"return { Value = 7 }"#),
            file("ReplicatedStorage/Foo/Child.luau", r#"return 12"#),
        ],
    };

    let layout = project.layout().expect("layout");
    assert!(instantiate_layout(&mut env, &layout).result.is_ok());
    let storage = service(&env, "ReplicatedStorage");
    let foo = member(&env, storage, "Foo");
    assert_eq!(class_of(&env, foo), "ModuleScript");
    let child = member(&env, foo, "Child");
    assert_eq!(class_of(&env, child), "ModuleScript");
    let module = require_target(&env, &LuaValue::Instance(foo)).expect("module");
    assert_eq!(script_source(env.instance(module)), "return { Value = 7 }");
}

#[test]
fn only_server_can_set_network_owner() {
    let mut server = Runtime::new(RuntimeMode::Server);
    let players = service(&server, "Players");
    let player = server.create_instance("Player");
    assign(&mut server, player, "Name", text("Owner"));
    assign(&mut server, player, "Parent", LuaValue::Instance(players));
    let part = server.create_instance("Part");
    assert!(set_network_owner(&mut server, part, &LuaValue::Instance(player)).is_ok());
    assert_eq!(get_network_owner(&server, part), Some(player));

    let mut client = Runtime::new(RuntimeMode::Client);
    let part = client.create_instance("Part");
    let local = client.local_player().expect("player");
    let error = set_network_owner(&mut client, part, &LuaValue::Instance(local)).unwrap_err();
    assert_eq!(error.message(), "SetNetworkOwner can only be called by the server");
}

#[test]
fn console_formatter_pretty_prints_tables() {
    let tables = vec![
        ConsoleTable {
            entries: vec![
                ConsoleEntry::Pair(
                    ConsoleValue::Text("name".to_string()),
                    ConsoleValue::Text("demo".to_string()),
                ),
                ConsoleEntry::Pair(ConsoleValue::Text("nested".to_string()), ConsoleValue::Table(1)),
            ],
        },
        ConsoleTable {
            entries: vec![ConsoleEntry::Pair(
                ConsoleValue::Text("value".to_string()),
                ConsoleValue::Integer(5),
            )],
        },
    ];
    let formatted = value_to_console_string(&tables, &ConsoleValue::Table(0));
    assert!(formatted.contains('\n'));
    assert!(formatted.contains("  [\"name\"] = demo"));
    assert!(formatted.contains("  [\"nested\"] = {\n"));
    assert!(formatted.contains("    [\"value\"] = 5"));
}

#[test]
fn tables_that_hold_themselves_end() {
    let tables = vec![
        ConsoleTable {
            entries: vec![ConsoleEntry::Pair(ConsoleValue::Integer(1), ConsoleValue::Table(0))],
        },
        ConsoleTable { entries: Vec::new() },
    ];
    let shown = value_to_console_string(&tables, &ConsoleValue::Table(0));
    assert!(shown.starts_with('{'));
    assert!(shown.ends_with('}'));
    assert!(shown.contains("[1] = "));
    assert_eq!(value_to_console_string(&tables, &ConsoleValue::Table(1)), "{}");
}

#[test]
fn plain_values_on_the_console() {
    let tables = Vec::new();
    let shown = values_to_console_string(
        &tables,
        &vec![
            ConsoleValue::Nil,
            ConsoleValue::Boolean(true),
            ConsoleValue::Integer(i64::MIN),
            ConsoleValue::Number("1.5".to_string()),
            ConsoleValue::Text("x".to_string()),
            ConsoleValue::Opaque(OpaqueKind::Function),
        ],
    );
    assert_eq!(shown, "nil\ttrue\t-9223372036854775808\t1.5\tx\t<function>");
    assert_eq!(integer_to_text(-40), "-40");
    assert_eq!(integer_to_text(0), "0");
}

#[test]
fn console_lines_name_their_place() {
    assert_eq!(sanitize_debug_source("@Workspace/Boot.server.luau"), "Workspace/Boot.server.luau");
    assert_eq!(sanitize_debug_source("[string \"boot\"]"), "boot");
    assert_eq!(console_location(Some("boot"), None, Some(12)), "boot:12:1");
    assert_eq!(console_location(None, Some("@a"), None), "a:0:1");
    assert_eq!(console_location(None, None, None), "<unknown>:0:1");
    assert_eq!(
        format_console_output_line("10:00:00", Some("boot:12:1"), "hello", false),
        "[10:00:00] hello: boot:12:1"
    );
    assert_eq!(
        format_console_output_line("10:00:00", None, "hello", true),
        "[10:00:00] [warn] hello: <unknown>:0:1"
    );
}

#[test]
fn members_of_instances() {
    let mut env = Runtime::new(RuntimeMode::Server);
    let game = env.data_model();
    let workspace = service(&env, "Workspace");
    assert_eq!(member(&env, game, "Workspace"), workspace);
    assert_eq!(member(&env, workspace, "Parent"), game);
    assert!(matches!(
        index_instance(&env, workspace, "GetChildren"),
        Ok(Member::Method(Method::GetChildren))
    ));
    assert!(matches!(index_instance(&env, workspace, "ChildAdded"), Ok(Member::Signal(_))));
    assert!(matches!(index_instance(&env, workspace, "NoSuchThing"), Ok(Member::Nil)));
    assert_eq!(instance_to_string(&env, game), "DataModel \"game\"");
    let part = env.create_instance("Part");
    assert!(matches!(index_instance(&env, part, "Parent"), Ok(Member::Nil)));
}

#[test]
fn values_become_properties_or_fail() {
    assert!(matches!(
        lua_value_to_property(&LuaValue::Boolean(true)),
        Ok(PropertyValue::Bool(true))
    ));
    assert!(matches!(lua_value_to_property(&text("x")), Ok(PropertyValue::String(_))));
    assert!(matches!(
        lua_value_to_property(&LuaValue::Vector3(Vector3::zero())),
        Ok(PropertyValue::Vector3(_))
    ));
    assert!(matches!(
        lua_value_to_property(&LuaValue::Number(Number { bits: 2.5f64.to_bits() })),
        Ok(PropertyValue::Number(n)) if n.bits == 2.5f64.to_bits()
    ));
    assert!(lua_value_to_property(&LuaValue::Other).is_err());
    assert!(matches!(value_to_instance(&LuaValue::Nil), Ok(None)));
    assert!(matches!(value_to_instance(&LuaValue::Instance(3)), Ok(Some(3))));
    assert!(value_to_instance(&LuaValue::Boolean(true)).is_err());
}

#[test]
fn children_are_found_by_name() {
    let mut env = Runtime::new(RuntimeMode::Server);
    let workspace = service(&env, "Workspace");
    let folder = env.create_instance("Folder");
    let part = env.create_instance("Part");
    env.set_parent(folder, Some(workspace)).expect("parent");
    env.set_parent(part, Some(folder)).expect("parent");
    assert_eq!(find_first_child(&env, workspace, Some("Part"), false).expect("found"), None);
    assert_eq!(find_first_child(&env, workspace, Some("Part"), true).expect("found"), Some(part));
    assert_eq!(
        find_first_child(&env, workspace, None, true).unwrap_err().message(),
        "FindFirstChild expects a name"
    );
    assert!(wait_warning(None).is_some());
    assert!(wait_warning(Some(part)).is_none());
}

#[test]
fn services_and_players() {
    let server = Runtime::new(RuntimeMode::Server);
    let players = service(&server, "players");
    assert_eq!(players, service(&server, "Players"));
    assert!(get_players(&server, players).is_empty());
    assert_eq!(
        get_service(&server, players, "Workspace").unwrap_err().message(),
        "GetService is only available on the DataModel in this environment"
    );
    assert_eq!(
        get_service(&server, server.data_model(), "Nope").unwrap_err().message(),
        "Unknown service 'Nope'"
    );
    let client = Runtime::new(RuntimeMode::Client);
    let players = service(&client, "Players");
    assert_eq!(get_players(&client, players), vec![client.local_player().expect("player")]);
    assert_eq!(
        load_character_error(RuntimeMode::Client).message(),
        "LoadCharacter is disabled in emulate-client mode"
    );
    assert_eq!(
        load_character_error(RuntimeMode::Server).message(),
        "LoadCharacter is not implemented yet"
    );
}

#[test]
fn owners_must_be_players_and_owned_things_parts() {
    let mut env = Runtime::new(RuntimeMode::Server);
    let part = env.create_instance("Part");
    let folder = env.create_instance("Folder");
    let player = env.create_instance("Player");
    assert_eq!(
        set_network_owner(&mut env, part, &LuaValue::Instance(folder)).unwrap_err().message(),
        "SetNetworkOwner expects a Player or nil"
    );
    assert_eq!(
        set_network_owner(&mut env, folder, &LuaValue::Instance(player)).unwrap_err().message(),
        "SetNetworkOwner is only available on Part"
    );
    assert!(set_network_owner(&mut env, part, &LuaValue::Instance(player)).is_ok());
    assert_eq!(env.get_network_owner_name(part), Some("Player".to_string()));
    // The player is not in the game.
    assert_eq!(get_network_owner(&env, part), None);
    assert!(set_network_owner(&mut env, part, &LuaValue::Nil).is_ok());
    assert_eq!(env.get_network_owner_name(part), None);
}

#[test]
fn http_can_be_switched_off() {
    let mut env = Runtime::new(RuntimeMode::Server);
    let http = service(&env, "HttpService");
    assert!(assert_http_enabled(env.instance(http)).is_ok());
    assign(&mut env, http, "HttpEnabled", LuaValue::Boolean(false));
    assert_eq!(
        assert_http_enabled(env.instance(http)).unwrap_err().message(),
        "HttpService is disabled"
    );
}

#[test]
fn signals_and_connections_have_members() {
    assert_eq!(signal_member("Connect"), Some(false));
    assert_eq!(signal_member("Once"), Some(true));
    assert_eq!(signal_member("Fire"), None);
    let mut env = Runtime::new(RuntimeMode::Server);
    let workspace = service(&env, "Workspace");
    let signal = env.find_event(workspace, "ChildAdded").expect("event");
    let connection = env.connect(signal, 7, false);
    assert_eq!(connection_member(&env, connection, "Connected"), ConnectionMember::Connected(true));
    assert_eq!(connection_member(&env, connection, "Disconnect"), ConnectionMember::Disconnect);
    assert_eq!(connection_member(&env, connection, "Other"), ConnectionMember::Nil);
    assert_eq!(env.disconnect(connection), Some(7));
    assert_eq!(
        connection_member(&env, connection, "Connected"),
        ConnectionMember::Connected(false)
    );
}

#[test]
fn scripts_run_where_they_belong() {
    assert!(should_auto_run_class(RuntimeMode::Server, "Script"));
    assert!(!should_auto_run_class(RuntimeMode::Server, "LocalScript"));
    assert!(should_auto_run_class(RuntimeMode::Client, "LocalScript"));
    assert!(!should_auto_run_class(RuntimeMode::Client, "Script"));
    assert!(!should_auto_run_class(RuntimeMode::Server, "ModuleScript"));
}

#[test]
fn only_modules_are_required() {
    let mut env = Runtime::new(RuntimeMode::Server);
    let script = env.create_instance("Script");
    for target in vec![LuaValue::Instance(script), LuaValue::Nil, LuaValue::Other] {
        assert_eq!(
            require_target(&env, &target).unwrap_err().message(),
            "require currently expects a ModuleScript instance"
        );
    }
    let workspace = service(&env, "Workspace");
    env.set_parent(script, Some(workspace)).expect("parent");
    assert_eq!(script_chunk_name(&env, script), env.full_name(script));
    env.set_script_path(script, Some("Workspace/a.luau".to_string()));
    assert_eq!(script_chunk_name(&env, script), "Workspace/a.luau");
}

#[test]
fn modules_are_remembered() {
    let mut cache = ModuleCache::new();
    assert_eq!(cache.get(4), None);
    cache.insert(4, 11);
    cache.insert(5, 12);
    cache.insert(4, 13);
    assert_eq!(cache.get(4), Some(13));
    assert_eq!(cache.get(5), Some(12));
}
