use roblox_luau_env::RuntimeMode;
use roblox_luau_env::instance::{
    Instance, PropertyKind, PropertyValue, default_events, default_properties, is_a_class,
    property_kind, validate_property_kind,
};
use roblox_luau_env::loader::{LoadAction, Loader, instantiate_layout, plan_layout};
use roblox_luau_env::math::{Color3, Number, Vector3};
use roblox_luau_env::moves::DestroyStage;
use roblox_luau_env::project::{LoadedProject, ProjectFile};
use roblox_luau_env::runtime::{Firing, PropertyStage, Runtime};
use roblox_luau_env::signal::{Signal, SignalArg};

fn number(value: f64) -> Number {
    Number { bits: value.to_bits() }
}

fn workspace(runtime: &Runtime) -> usize {
    runtime.get_service("Workspace").expect("workspace")
}

fn event_names(runtime: &Runtime, firings: &[Firing]) -> Vec<(String, String)> {
    firings
        .iter()
        .map(|firing| {
            (
                runtime.instance(firing.signal.instance).name.clone(),
                runtime.signal(firing.signal).name(),
            )
        })
        .collect()
}

#[test]
fn services_of_a_server_and_of_a_client() {
    let names = vec![
        "Workspace",
        "ReplicatedStorage",
        "ServerStorage",
        "ServerScriptService",
        "Lighting",
        "Players",
        "RunService",
        "HttpService",
        "TweenService",
    ];
    let server = Runtime::new(RuntimeMode::Server);
    let client = Runtime::new(RuntimeMode::Client);
    for name in names {
        let at = server.get_service(name).expect("service");
        assert_eq!(server.instance(at).class_name, name);
        assert_eq!(server.instance(at).get_parent(), Some(server.data_model()));
        assert!(server.instance(at).is_service);
        let hidden = name == "ServerStorage" || name == "ServerScriptService";
        assert_eq!(client.get_service(name).is_err(), hidden);
        assert_eq!(client.is_service_visible(name), !hidden);
        assert!(server.is_service_visible(name));
    }
    assert_eq!(server.local_player(), None);
    assert_eq!(server.count(), 10);
    assert_eq!(server.next_id(), 11);
    let player = client.local_player().expect("player");
    assert_eq!(client.instance(player).name, "LocalPlayer");
    assert_eq!(client.find_player_by_name("LocalPlayer"), Some(player));
    assert_eq!(client.mode(), RuntimeMode::Client);
}

#[test]
fn moving_and_refusing_to_move() {
    let mut runtime = Runtime::new(RuntimeMode::Server);
    let ws = workspace(&runtime);
    let a = runtime.create_instance("Folder");
    let b = runtime.create_instance("Folder");
    let first = runtime.set_parent(a, Some(ws)).expect("move");
    assert!(event_names(&runtime, &first)
        .contains(&("Workspace".to_string(), "ChildAdded".to_string())));
    runtime.set_parent(b, Some(a)).expect("move");
    assert_eq!(runtime.children(ws), vec![a]);
    assert_eq!(runtime.all_descendants(ws), vec![a, b]);
    assert_eq!(runtime.subtree(a), vec![a, b]);
    assert_eq!(
        runtime.set_parent(a, Some(a)).unwrap_err().message(),
        "Cannot parent an instance to itself"
    );
    assert_eq!(
        runtime.set_parent(a, Some(b)).unwrap_err().message(),
        "Cannot parent an instance to one of its descendants"
    );
    assert_eq!(runtime.children(ws), vec![a]);
    assert!(runtime.set_parent(a, Some(ws)).expect("same parent").is_empty());
    let left = runtime.set_parent(a, None).expect("move");
    assert!(event_names(&runtime, &left)
        .contains(&("Workspace".to_string(), "ChildRemoved".to_string())));
    assert_eq!(runtime.instance(a).get_parent(), None);
    assert!(runtime.children(ws).is_empty());
}

#[test]
fn destroyed_instances_are_out_of_the_tree() {
    let mut runtime = Runtime::new(RuntimeMode::Server);
    let ws = workspace(&runtime);
    let a = runtime.create_instance("Folder");
    let b = runtime.create_instance("Part");
    runtime.set_parent(a, Some(ws)).expect("move");
    runtime.set_parent(b, Some(a)).expect("move");
    runtime.destroy_instance(a);
    for gone in vec![a, b] {
        assert!(runtime.instance(gone).destroyed);
        assert_eq!(runtime.instance(gone).get_parent(), None);
        assert!(runtime.children(gone).is_empty());
        assert!(runtime.instance(gone).assert_alive().is_err());
    }
    assert!(runtime.children(ws).is_empty());
    assert!(runtime.destroy_instance(a).is_empty());
    assert!(runtime.set_parent(a, Some(ws)).is_err());
    assert!(runtime.set_property(b, "Name", PropertyValue::String("x".to_string())).result.is_err());
    assert_eq!(runtime.instance(b).name, "Part");
}

#[test]
fn clearing_destroys_all_children() {
    let mut runtime = Runtime::new(RuntimeMode::Server);
    let ws = workspace(&runtime);
    let a = runtime.create_instance("Folder");
    let b = runtime.create_instance("Folder");
    runtime.set_parent(a, Some(ws)).expect("move");
    runtime.set_parent(b, Some(ws)).expect("move");
    runtime.clear_all_children(ws);
    assert!(runtime.children(ws).is_empty());
    assert!(runtime.instance(a).destroyed && runtime.instance(b).destroyed);
    assert!(!runtime.instance(ws).destroyed);
}

#[test]
fn copies_have_the_same_shape() {
    let mut runtime = Runtime::new(RuntimeMode::Server);
    let ws = workspace(&runtime);
    let a = runtime.create_instance("Folder");
    let b = runtime.create_instance("Part");
    let c = runtime.create_instance("Part");
    runtime.set_parent(a, Some(ws)).expect("move");
    runtime.set_parent(b, Some(a)).expect("move");
    runtime.set_parent(c, Some(b)).expect("move");
    runtime.set_property(c, "Name", PropertyValue::String("Leaf".to_string())).result.expect("name");
    let before = runtime.count();
    let copy = runtime.clone_instance_tree(a);
    assert_eq!(copy, before);
    assert_eq!(runtime.count(), before + 3);
    assert_eq!(runtime.instance(copy).get_parent(), None);
    assert_eq!(runtime.all_descendants(copy), vec![copy + 1, copy + 2]);
    assert_eq!(runtime.instance(copy + 2).name, "Leaf");
    assert_eq!(runtime.instance(copy + 2).class_name, "Part");
    assert_eq!(runtime.instance(copy + 2).get_parent(), Some(copy + 1));
    assert_eq!(runtime.all_descendants(ws), vec![a, b, c]);
    assert_ne!(runtime.instance(copy).id, runtime.instance(a).id);
}

#[test]
fn clients_own_what_they_make_and_are_warned_otherwise() {
    let mut runtime = Runtime::new(RuntimeMode::Client);
    let ws = workspace(&runtime);
    let part = runtime.create_instance("Part");
    runtime.set_parent(part, Some(ws)).expect("move");
    let own = runtime.set_property(part, "Transparency", PropertyValue::Number(number(0.5)));
    assert!(own.warnings.is_empty());
    runtime.mark_replicated_instance(part);
    let foreign = runtime.set_property(part, "Transparency", PropertyValue::Number(number(0.25)));
    assert_eq!(foreign.warnings.len(), 1);
    assert!(foreign.warnings[0].starts_with("[roblox-env warning] Client changed "));
    assert!(foreign.result.expect("set"));
    runtime.set_network_owner(part, Some("LocalPlayer".to_string())).expect("owner");
    let owned = runtime.set_property(part, "Transparency", PropertyValue::Number(number(0.75)));
    assert!(owned.warnings.is_empty());
    let collide = runtime.set_property(part, "CanCollide", PropertyValue::Bool(true));
    assert_eq!(collide.warnings.len(), 1);
    assert!(collide.warnings[0].contains("enabled CanCollide = true"));
    let players = runtime.get_service("Players").expect("players");
    let forced = runtime.set_property(players, "CharacterAutoLoads", PropertyValue::Bool(true));
    assert_eq!(
        forced.warnings,
        vec![
            "[roblox-env warning] Players.CharacterAutoLoads is forced to false in emulate-client mode."
                .to_string()
        ]
    );
    assert!(
        runtime.instance(players).get_property("CharacterAutoLoads")
            == Some(PropertyValue::Bool(false))
    );
}

#[test]
fn properties_are_checked() {
    let mut part = Instance::new(1, "Part", "Part", false);
    assert!(part.set_property("Transparency", PropertyValue::Number(number(0.5))).expect("set"));
    assert!(!part.set_property("Transparency", PropertyValue::Number(number(0.5))).expect("same"));
    assert_eq!(
        part.set_property("Anchored", PropertyValue::Number(number(1.0))).unwrap_err().message(),
        "Expected property type Bool, got Number"
    );
    assert_eq!(
        part.set_property("Nope", PropertyValue::Bool(true)).unwrap_err().message(),
        "Unknown property 'Nope' on Part"
    );
    assert_eq!(
        part.set_property("ClassName", PropertyValue::String("x".to_string())).unwrap_err().message(),
        "ClassName is read-only"
    );
    assert_eq!(
        part.set_property("Name", PropertyValue::Bool(true)).unwrap_err().message(),
        "Name must be a string"
    );
    assert_eq!(property_kind("Part", "Size"), Some(PropertyKind::Vector3));
    assert_eq!(property_kind("Part", "Color"), Some(PropertyKind::Color3));
    assert_eq!(property_kind("Folder", "Size"), None);
    assert!(validate_property_kind(PropertyKind::Bool, &PropertyValue::Bool(false)).is_ok());
    assert!(validate_property_kind(
        PropertyKind::String,
        &PropertyValue::BinaryString(vec![0xff])
    )
    .is_ok());
}

#[test]
fn classes_have_ancestors_events_and_properties() {
    assert!(is_a_class("Part", "Part"));
    assert!(is_a_class("Part", "Instance"));
    assert!(is_a_class("LocalScript", "Instance"));
    assert!(!is_a_class("Folder", "Part"));
    assert!(default_events("Part").contains(&"Touched"));
    assert!(default_events("Folder").contains(&"ChildAdded"));
    let part = default_properties("Part");
    let size = part.iter().find(|property| property.name == "Size").expect("size");
    assert!(
        size.value
            == PropertyValue::Vector3(Vector3::new(number(4.0), number(1.0), number(2.0)))
    );
    let color = part.iter().find(|property| property.name == "Color").expect("color");
    assert!(color.value == PropertyValue::Color3(Color3::gray()));
    let player = default_properties("Player");
    let id = player.iter().find(|property| property.name == "UserId").expect("id");
    assert!(id.value == PropertyValue::Number(number(1.0)));
    let data = default_properties("StringValue");
    let value = data.iter().find(|property| property.name == "Value").expect("value");
    assert!(value.value == PropertyValue::BinaryString(Vec::new()));
}

#[test]
fn numbers_are_compared_as_numbers() {
    assert!(number(0.0) == number(-0.0));
    assert!(number(f64::NAN) != number(f64::NAN));
    assert!(number(1.5) == number(1.5));
    assert!(number(f64::MAX).finite());
    assert!(!number(f64::INFINITY).finite());
    assert!(!number(f64::NAN).finite());
    let values = vec![
        0.0, -0.0, 0.5, 1.0, 1.5, 2.0, 3.0, -1.0, 4503599627370497.0, 9007199254740993.0, 1e300,
        f64::NAN, f64::INFINITY, 1e-300, 18446744073709551616.0, 9223372036854775808.0,
    ];
    for value in values {
        let value: f64 = value;
        let expected = if value.fract() == 0.0 && value > 0.0 { Some(value as u64) } else { None };
        assert_eq!(number(value).as_index(), expected, "{value}");
    }
    let gray = Color3::gray();
    let level = f64::from(163.0f32 / 255.0f32);
    assert_eq!(gray.r.bits, gray.g.bits);
    assert!((f64::from_bits(gray.r.bits) - level).abs() < 1e-6);
    assert!(gray.channel("R").expect("red") == gray.r);
    assert!(gray.channel("X").is_none());
    let v = Vector3::new(number(1.0), number(2.0), number(3.0));
    assert!(v.coordinate("Y").expect("y") == number(2.0));
    assert!(v.coordinate("W").is_none());
    assert!(Vector3::default() == Vector3::zero());
}

#[test]
fn signals_call_once_or_always() {
    let mut signal = Signal::named("Changed");
    let always = signal.connect(10, false);
    let once = signal.connect(20, true);
    assert_ne!(always, once);
    let calls = signal.fire();
    assert_eq!(calls.iter().map(|call| call.callback).collect::<Vec<u64>>(), vec![10, 20]);
    assert_eq!(signal.settle(&calls), vec![20]);
    assert!(signal.is_connected(always));
    assert!(!signal.is_connected(once));
    assert_eq!(signal.fire().len(), 1);
    assert_eq!(signal.disconnect(always), Some(10));
    assert_eq!(signal.disconnect(always), None);
    let third = signal.connect(30, false);
    assert!(third > once);
    assert_eq!(
        signal.failure_report("boom"),
        "[roblox-env warning] signal 'Changed' callback failed: boom"
    );
}

#[test]
fn changes_are_announced() {
    let mut runtime = Runtime::new(RuntimeMode::Server);
    let ws = workspace(&runtime);
    let signal = runtime.ensure_property_signal(ws, "Name");
    let again = runtime.ensure_property_signal(ws, "Name");
    assert_eq!(signal, again);
    runtime.connect(signal, 1, true);
    let firings = runtime.fire_property_changed(ws, "Name");
    assert_eq!(firings.len(), 2);
    assert!(matches!(&firings[0].args[0], SignalArg::String(name) if name == "Name"));
    assert!(firings[1].args.is_empty());
    assert_eq!(firings[1].signal, signal);
    let calls = runtime.signal(signal).fire();
    assert_eq!(runtime.settle(signal, &calls), vec![1]);
    assert!(runtime.signal(signal).fire().is_empty());
}

#[test]
fn full_names_lead_from_the_top() {
    let mut runtime = Runtime::new(RuntimeMode::Server);
    let ws = workspace(&runtime);
    let part = runtime.create_instance("Part");
    assert_eq!(runtime.full_name(part), "Part");
    runtime.set_parent(part, Some(ws)).expect("move");
    assert!(runtime.full_name(part).ends_with("Workspace.Part"));
}

#[test]
fn loading_builds_the_tree_of_the_files() {
    let mut runtime = Runtime::new(RuntimeMode::Client);
    let project = LoadedProject {
        files: vec![
            ProjectFile {
                relative_path: "ExternalData/data/seed.csv".to_string(),
                bytes: vec![1, 0xff],
            },
            ProjectFile {
                relative_path: "ServerStorage/Hidden.luau".to_string(),
                bytes: b"return 1".to_vec(),
            },
            ProjectFile {
                relative_path: "Workspace/Boot.local.luau".to_string(),
                bytes: b"print(1)".to_vec(),
            },
        ],
    };
    let layout = project.layout().expect("layout");
    let report = instantiate_layout(&mut runtime, &layout);
    assert!(report.result.is_ok());
    let ws = workspace(&runtime);
    let boot = runtime.find_named(&runtime.children(ws), "Boot").expect("boot");
    assert_eq!(report.auto_run, vec![boot]);
    assert_eq!(runtime.instance(boot).class_name, "LocalScript");
    assert!(!runtime.instance(boot).client_authoritative);
    assert_eq!(
        runtime.instance(boot).script_path,
        Some("Workspace/Boot.local.luau".to_string())
    );
    let game = runtime.data_model();
    let folder = runtime.find_named(&runtime.children(game), "data").expect("folder");
    let seed = runtime.find_named(&runtime.children(folder), "seed.csv").expect("seed");
    assert!(
        runtime.instance(seed).get_property("Value")
            == Some(PropertyValue::BinaryString(vec![1, 0xff]))
    );
    assert_eq!(runtime.find_named(&runtime.all_descendants(game), "Hidden"), None);
}

#[test]
fn services_that_are_not_there_stop_the_loading() {
    let mut runtime = Runtime::new(RuntimeMode::Server);
    let project = LoadedProject {
        files: vec![
            ProjectFile {
                relative_path: "Lighting/a.luau".to_string(),
                bytes: Vec::new(),
            },
            ProjectFile {
                relative_path: "StarterPlayerScripts/b.local.luau".to_string(),
                bytes: Vec::new(),
            },
        ],
    };
    let layout = project.layout().expect("layout");
    let plan = plan_layout(&runtime, &layout);
    assert_eq!(plan.nodes.len(), 1);
    assert_eq!(plan.stop, Some("Unknown service 'StarterPlayer'".to_string()));
    let report = instantiate_layout(&mut runtime, &layout);
    assert_eq!(report.result.unwrap_err().message(), "Unknown service 'StarterPlayer'");
    let lighting = runtime.get_service("Lighting").expect("lighting");
    assert_eq!(runtime.children(lighting).len(), 1);
}

#[test]
fn loading_goes_step_by_step() {
    let mut runtime = Runtime::new(RuntimeMode::Server);
    let project = LoadedProject {
        files: vec![ProjectFile {
            relative_path: "Workspace/m.luau".to_string(),
            bytes: b"return 2".to_vec(),
        }],
    };
    let layout = project.layout().expect("layout");
    let mut loader = Loader::new(plan_layout(&runtime, &layout));
    let mut moves = 0;
    for _ in 0..20 {
        match loader.step(&mut runtime) {
            LoadAction::Report { warnings, .. } => assert!(warnings.is_empty()),
            LoadAction::Move { child, parent } => {
                moves += 1;
                runtime.set_parent(child, Some(parent)).expect("move");
            }
            LoadAction::Done => break,
            LoadAction::Fail { error, .. } => panic!("{}", error.message()),
        }
    }
    assert_eq!(moves, 1);
    assert_eq!(loader.left(), 0);
    assert!(loader.auto_run().is_empty());
    assert_eq!(runtime.children(workspace(&runtime)).len(), 1);
}

#[test]
fn listeners_may_change_the_tree_between_the_steps_of_a_move() {
    let mut runtime = Runtime::new(RuntimeMode::Server);
    let ws = workspace(&runtime);
    let a = runtime.create_instance("Folder");
    let b = runtime.create_instance("Folder");
    runtime.set_parent(a, Some(ws)).expect("move");
    let mut change = runtime.begin_set_parent(a, Some(b)).expect("begin").expect("a change");
    // A listener puts the new parent below the instance that is being moved.
    let mut interfered = false;
    let mut outcome = Ok(());
    for _ in 0..40 {
        match runtime.step_set_parent(&mut change) {
            Ok(_) => {
                if !interfered {
                    interfered = true;
                    runtime.set_parent(b, Some(a)).expect("move");
                }
            }
            Err(error) => {
                outcome = Err(error.message());
                break;
            }
        }
    }
    assert_eq!(
        outcome,
        Err("Cannot parent an instance to one of its descendants".to_string())
    );
    assert!(runtime.all_descendants(a).contains(&b));
    assert!(!runtime.all_descendants(b).contains(&a));
    // The refused instance has left its parent and stands nowhere.
    assert_eq!(runtime.instance(a).get_parent(), None);
    assert!(!runtime.children(ws).contains(&a));
}

#[test]
fn disabled_scripts_are_made_but_do_not_run() {
    let mut runtime = Runtime::new(RuntimeMode::Server);
    let project = LoadedProject {
        files: vec![
            ProjectFile {
                relative_path: "Workspace/Off.server.luau".to_string(),
                bytes: b"--!rle script-disable\nprint(1)".to_vec(),
            },
            ProjectFile {
                relative_path: "Workspace/On.server.luau".to_string(),
                bytes: b"print(2)".to_vec(),
            },
        ],
    };
    let layout = project.layout().expect("layout");
    let report = instantiate_layout(&mut runtime, &layout);
    assert!(report.result.is_ok());
    let children = runtime.children(workspace(&runtime));
    let off = runtime.find_named(&children, "Off").expect("off");
    let on = runtime.find_named(&children, "On").expect("on");
    assert_eq!(runtime.instance(off).class_name, "Script");
    assert_eq!(report.auto_run, vec![on]);
}

#[test]
fn setting_a_property_fires_where_it_changes() {
    let mut runtime = Runtime::new(RuntimeMode::Server);
    let part = runtime.create_instance("Part");
    let own = runtime.ensure_property_signal(part, "Transparency");
    let half = || PropertyValue::Number(number(0.5));

    let changed = runtime.set_property(part, "Transparency", half());
    assert_eq!(changed.result.expect("set"), true);
    assert_eq!(changed.firings.len(), 2);
    assert_eq!(runtime.signal(changed.firings[0].signal).name(), "Changed");
    assert!(matches!(
        &changed.firings[0].args[0],
        SignalArg::String(name) if name == "Transparency"
    ));
    assert_eq!(changed.firings[1].signal, own);
    assert!(changed.firings[1].args.is_empty());

    let same = runtime.set_property(part, "Transparency", half());
    assert_eq!(same.result.expect("same"), false);
    assert!(same.firings.is_empty());

    let anchored = runtime.set_property(part, "Anchored", PropertyValue::Bool(false));
    assert_eq!(anchored.result.expect("kept"), false);
    assert!(anchored.firings.is_empty());

    let wrong = runtime.set_property(part, "Transparency", PropertyValue::Bool(true));
    assert!(wrong.result.is_err());
    assert!(wrong.firings.is_empty());
}

#[test]
fn properties_are_told_of_step_by_step() {
    let mut runtime = Runtime::new(RuntimeMode::Server);
    let part = runtime.create_instance("Part");
    let value = PropertyValue::Number(number(0.25));
    let start = runtime.begin_set_property(part, "Transparency", value.clone());
    assert!(start.warnings.is_empty());
    let mut change = start.change.expect("change");
    assert_eq!(change.stage, PropertyStage::Changed);
    // A listener asks for the signal of the property when it hears of the change.
    let first = runtime.step_set_property(&mut change);
    assert_eq!(first.len(), 1);
    let own = runtime.ensure_property_signal(part, "Transparency");
    assert_eq!(change.stage, PropertyStage::OwnSignal);
    let second = runtime.step_set_property(&mut change);
    assert_eq!(second.len(), 1);
    assert_eq!(second[0].signal, own);
    assert_eq!(change.stage, PropertyStage::Done);
    assert!(runtime.step_set_property(&mut change).is_empty());

    let again = runtime.begin_set_property(part, "Transparency", value);
    assert_eq!(again.change.expect("change").stage, PropertyStage::Done);
}

#[test]
fn destroying_goes_step_by_step() {
    let make = || {
        let mut runtime = Runtime::new(RuntimeMode::Server);
        let ws = workspace(&runtime);
        let top = runtime.create_instance("Folder");
        let leaf = runtime.create_instance("Folder");
        runtime.set_parent(top, Some(ws)).expect("move");
        runtime.set_parent(leaf, Some(top)).expect("move");
        (runtime, top, leaf)
    };
    let (mut at_once, top, leaf) = make();
    let expected = at_once.destroy_instance(top);

    let (mut runtime, _, _) = make();
    let mut destruction = runtime.begin_destroy(top).expect("destruction");
    let mut fired = Vec::new();
    while !matches!(destruction.stage, DestroyStage::Done) {
        fired.append(&mut runtime.step_destroy(&mut destruction).expect("step"));
    }
    assert_eq!(event_names(&runtime, &fired), event_names(&at_once, &expected));
    assert_eq!(event_names(&runtime, &fired)[0].1, "Destroying");
    assert!(runtime.instance(top).destroyed && runtime.instance(leaf).destroyed);
    assert!(runtime.begin_destroy(top).is_none());

    // A listener destroys the instance while it is being destroyed.
    let (mut runtime, _, _) = make();
    let mut destruction = runtime.begin_destroy(top).expect("destruction");
    runtime.step_destroy(&mut destruction).expect("step");
    runtime.destroy_instance(top);
    runtime.step_destroy(&mut destruction).expect("step");
    assert_eq!(
        runtime.step_destroy(&mut destruction).unwrap_err().message(),
        "Folder has been destroyed"
    );
    assert!(matches!(destruction.stage, DestroyStage::Done));
}

#[test]
fn classes_are_ordered() {
    let classes = [
        "Instance", "Workspace", "WorldRoot", "Model", "PVInstance", "Part", "BasePart", "Folder",
        "StringValue", "ValueBase", "Players", "Service", "DataModel", "ServiceProvider", "Script",
        "ModuleScript", "LuaSourceContainer",
    ];
    for a in classes {
        assert!(is_a_class(a, a));
        assert!(is_a_class(a, "Instance"));
        for b in classes {
            assert!(a == b || !(is_a_class(a, b) && is_a_class(b, a)), "{a} {b}");
            for c in classes {
                assert!(!(is_a_class(a, b) && is_a_class(b, c)) || is_a_class(a, c), "{a} {b} {c}");
            }
        }
    }
    assert!(is_a_class("Workspace", "PVInstance"));
    assert!(!is_a_class("PVInstance", "Workspace"));
}

#[test]
fn declared_properties_have_defaults() {
    let classes = [
        "Folder", "Workspace", "Players", "Player", "HttpService", "Part", "Script", "LocalScript",
        "ModuleScript", "StringValue",
    ];
    let names = [
        "Archivable", "StreamingEnabled", "CharacterAutoLoads", "UserId", "DisplayName",
        "HttpEnabled", "Anchored", "CanCollide", "Position", "Size", "Color", "Transparency",
        "Material", "Source", "Value", "Name",
    ];
    for class in classes {
        let defaults = default_properties(class);
        for name in names {
            let found = defaults.iter().find(|property| property.name == name);
            match property_kind(class, name) {
                Some(kind) => {
                    let property = found.expect("default");
                    assert!(validate_property_kind(kind, &property.value).is_ok(), "{class} {name}");
                }
                None => assert!(found.is_none(), "{class} {name}"),
            }
        }
    }
}
