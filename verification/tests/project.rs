use roblox_luau_env::path::{
    extend_path, extension, file_name, file_stem, is_rleimg_path, normalize_rel_path, path_eq,
    path_segments,
};
use roblox_luau_env::project::{
    LoadedProject, ProjectFile, ProjectMount, ProjectNode, ScriptKind, check_project_path,
    classify_external_file, classify_script_file, parse_rle_directives,
};

fn file(path: &str, bytes: &[u8]) -> ProjectFile {
    ProjectFile { relative_path: path.to_string(), bytes: bytes.to_vec() }
}

fn project(files: Vec<ProjectFile>) -> LoadedProject {
    LoadedProject { files }
}

#[test]
fn directory_init_becomes_module_script_container() {
    let project = project(vec![
        file("ReplicatedStorage/Foo/init.luau", b"return {}"),
        file("ReplicatedStorage/Foo/Child.luau", b"return 123"),
    ]);

    let layout = project.layout().expect("layout");
    let ProjectMount::ServiceContents { children, .. } = &layout.top_level[0] else {
        panic!("expected service mount");
    };
    assert_eq!(children[0].class_name, "ModuleScript");
    assert_eq!(children[0].name, "Foo");
    assert_eq!(children[0].children[0].name, "Child");
    assert!(!children[0].auto_run);
}

#[test]
fn external_files_keep_raw_bytes_on_string_value_nodes() {
    let project = project(vec![file(
        "ExternalData/hello.elf",
        &[0x7f, 0x45, 0x4c, 0x46, 0x00, 0xff],
    )]);

    let layout = project.layout().expect("layout");
    let ProjectMount::DataModelChild(node) = &layout.top_level[0] else {
        panic!("expected top-level external file");
    };
    assert_eq!(node.class_name, "StringValue");
    assert_eq!(node.name, "hello.elf");
    assert!(node.source.is_none());
    assert!(!node.auto_run);
    assert_eq!(
        node.value.as_deref(),
        Some(&[0x7f, 0x45, 0x4c, 0x46, 0x00, 0xff][..])
    );
}

#[test]
fn script_disable_directive_turns_off_auto_run_for_server_scripts() {
    let project = project(vec![file(
        "ServerScriptService/Boot.server.luau",
        br#"
                    --!rle script-disable
                    print("boot")
                "#,
    )]);

    let layout = project.layout().expect("layout");
    let ProjectMount::ServiceContents { children, .. } = &layout.top_level[0] else {
        panic!("expected service mount");
    };
    assert_eq!(children[0].class_name, "Script");
    assert!(!children[0].auto_run);
}

#[test]
fn script_disable_directive_does_not_apply_to_modules() {
    let project = project(vec![file(
        "ReplicatedStorage/Foo.luau",
        br#"
                    --!rle script-disable
                    return 7
                "#,
    )]);

    let layout = project.layout().expect("layout");
    let ProjectMount::ServiceContents { children, .. } = &layout.top_level[0] else {
        panic!("expected service mount");
    };
    assert_eq!(children[0].class_name, "ModuleScript");
    assert!(!children[0].auto_run);
    assert_eq!(
        children[0].source.as_deref().unwrap_or(""),
        "\n                    --!rle script-disable\n                    return 7\n                "
    );
}

#[test]
fn client_legacy_and_local_suffixes_map_to_expected_classes() {
    let project = project(vec![
        file("Workspace/ClientBoot.client.luau", b"print('client')"),
        file("Workspace/LegacyBoot.legacy.luau", b"print('legacy')"),
        file("ReplicatedFirst/LocalBoot.local.luau", b"print('local')"),
    ]);

    let layout = project.layout().expect("layout");

    let workspace_children = layout
        .top_level
        .iter()
        .find_map(|mount| match mount {
            ProjectMount::ServiceContents { service_name, children }
                if service_name == "Workspace" =>
            {
                Some(children)
            }
            _ => None,
        })
        .expect("workspace");
    assert_eq!(workspace_children[0].class_name, "Script");
    assert_eq!(workspace_children[0].run_context.as_deref(), Some("Client"));
    assert_eq!(workspace_children[1].class_name, "Script");
    assert_eq!(workspace_children[1].run_context.as_deref(), Some("Legacy"));

    let replicated_first_children = layout
        .top_level
        .iter()
        .find_map(|mount| match mount {
            ProjectMount::ServiceContents { service_name, children }
                if service_name == "ReplicatedFirst" =>
            {
                Some(children)
            }
            _ => None,
        })
        .expect("replicated first");
    assert_eq!(replicated_first_children[0].class_name, "LocalScript");
    assert_eq!(replicated_first_children[0].run_context, None);
}

#[test]
fn top_level_starter_player_scripts_mounts_under_starter_player_service() {
    let project = project(vec![file("StarterPlayerScripts/Boot.local.luau", b"print('boot')")]);

    let layout = project.layout().expect("layout");
    let starter_player_children = layout
        .top_level
        .iter()
        .find_map(|mount| match mount {
            ProjectMount::ServiceContents { service_name, children }
                if service_name == "StarterPlayer" =>
            {
                Some(children)
            }
            _ => None,
        })
        .expect("starter player");

    assert_eq!(starter_player_children.len(), 1);
    assert_eq!(starter_player_children[0].name, "StarterPlayerScripts");
    assert_eq!(starter_player_children[0].class_name, "StarterPlayerScripts");
    assert_eq!(starter_player_children[0].children[0].class_name, "LocalScript");
}

#[test]
fn classes_and_contexts_of_script_kinds() {
    assert_eq!(ScriptKind::ModuleScript.class_name(), "ModuleScript");
    assert_eq!(ScriptKind::ServerScript.class_name(), "Script");
    assert_eq!(ScriptKind::ClientScript.class_name(), "Script");
    assert_eq!(ScriptKind::LegacyScript.class_name(), "Script");
    assert_eq!(ScriptKind::LocalScript.class_name(), "LocalScript");
    assert_eq!(ScriptKind::ModuleScript.run_context(), None);
    assert_eq!(ScriptKind::ServerScript.run_context(), Some("Server"));
    assert_eq!(ScriptKind::ClientScript.run_context(), Some("Client"));
    assert_eq!(ScriptKind::LegacyScript.run_context(), Some("Legacy"));
    assert_eq!(ScriptKind::LocalScript.run_context(), None);
}

#[test]
fn script_names_lose_their_endings() {
    let cases = vec![
        ("a/Boot.server.luau", ScriptKind::ServerScript, "Boot"),
        ("a/Boot.server.lua", ScriptKind::ServerScript, "Boot"),
        ("a/Boot.client.lua", ScriptKind::ClientScript, "Boot"),
        ("a/Boot.local.lua", ScriptKind::LocalScript, "Boot"),
        ("a/Boot.legacy.lua", ScriptKind::LegacyScript, "Boot"),
        ("a/Boot.lua", ScriptKind::ModuleScript, "Boot"),
        ("a/x.y.luau", ScriptKind::ModuleScript, "x.y"),
    ];
    for (path, kind, name) in cases {
        let script = classify_script_file(&file(path, b"x")).expect("text").expect("script");
        assert_eq!(script.kind, kind);
        assert_eq!(script.name, name);
        assert_eq!(script.container_path, vec!["a".to_string()]);
        assert_eq!(script.source, "x");
    }
    assert!(classify_script_file(&file("a/readme.txt", b"x")).expect("text").is_none());
}

#[test]
fn scripts_must_be_text() {
    let error = classify_script_file(&file("Workspace/Bad.luau", &[0xff, 0xfe])).unwrap_err();
    assert_eq!(
        error.message(),
        "Script Workspace/Bad.luau is not valid UTF-8: invalid utf-8 sequence of 1 bytes from index 0"
    );
    assert!(project(vec![file("Workspace/Bad.luau", &[0xff])]).layout().is_err());
}

#[test]
fn data_files_are_never_scripts() {
    let data = file("ExternalData/tools/run.server.luau", b"print(1)");
    assert!(classify_script_file(&data).expect("data").is_none());
    let found = classify_external_file(&data).expect("external");
    assert_eq!(found.name, "run.server.luau");
    assert_eq!(found.container_path, vec!["tools".to_string()]);
    assert_eq!(found.bytes, b"print(1)".to_vec());
    assert!(classify_external_file(&file("Workspace/a.txt", b"")).is_none());
}

#[test]
fn data_files_stand_in_folders_and_out_of_services() {
    let project = project(vec![
        file("ExternalData/Workspace/seed.csv", b"1,2"),
        file("ExternalData/data/seed.csv", b"3"),
        file("Workspace/Boot.server.luau", b""),
    ]);
    let layout = project.layout().expect("layout");
    let mut folders = Vec::new();
    for mount in &layout.top_level {
        match mount {
            ProjectMount::ServiceContents { service_name, children } => {
                assert_eq!(service_name, "Workspace");
                assert_eq!(children.len(), 1);
                assert_eq!(children[0].class_name, "Script");
            }
            ProjectMount::DataModelChild(node) => {
                assert_eq!(node.class_name, "Folder");
                assert_eq!(node.children[0].class_name, "StringValue");
                folders.push((node.name.clone(), node.children[0].value.clone()));
            }
        }
    }
    assert_eq!(
        folders,
        vec![
            ("Workspace".to_string(), Some(b"1,2".to_vec())),
            ("data".to_string(), Some(b"3".to_vec())),
        ]
    );
}

#[test]
fn a_directory_of_data_files_has_one_folder() {
    let project = project(vec![
        file("ExternalData/Foo/PlayerScripts/x.txt", b"x"),
        file("ExternalData/Foo/y.txt", b"y"),
    ]);
    let layout = project.layout().expect("layout");
    assert_eq!(layout.top_level.len(), 1);
    let ProjectMount::DataModelChild(foo) = &layout.top_level[0] else {
        panic!("expected a node below the data model");
    };
    assert_eq!((foo.name.as_str(), foo.class_name.as_str()), ("Foo", "Folder"));
    assert_eq!(foo.children.len(), 2);
    assert_eq!(foo.children[0].name, "PlayerScripts");
    assert_eq!(foo.children[0].class_name, "Folder");
    assert_eq!(foo.children[0].children[0].name, "x.txt");
    assert_eq!(foo.children[1].name, "y.txt");
}

fn shape(nodes: &[ProjectNode]) -> Vec<(String, String, usize)> {
    nodes
        .iter()
        .map(|node| (node.name.clone(), node.class_name.clone(), node.children.len()))
        .collect()
}

fn entry(name: &str, class_name: &str, children: usize) -> (String, String, usize) {
    (name.to_string(), class_name.to_string(), children)
}

#[test]
fn directories_of_data_files_are_folders_whatever_the_scripts() {
    let layout = project(vec![
        file("ExternalData/Lib/seed.csv", b"1"),
        file("ExternalData/Shared/Deep/d.txt", b"2"),
        file("ExternalData/Shared/seed.csv", b"3"),
        file("ExternalData/StarterPlayerScripts/s.txt", b"4"),
        file("Lib/Part.luau", b""),
        file("Lib/init.luau", b""),
        file("PlayerScripts/Boot.local.luau", b""),
        file("ExternalData/PlayerScripts/p.txt", b"5"),
        file("Shared/Deep/init.luau", b""),
        file("Shared/Part.luau", b""),
    ])
    .layout()
    .expect("layout");
    let mut nodes = Vec::new();
    for mount in &layout.top_level {
        match mount {
            ProjectMount::DataModelChild(node) => nodes.push(node.clone()),
            ProjectMount::ServiceContents { .. } => panic!("no scripts go below a service"),
        }
    }
    assert_eq!(
        shape(&nodes),
        vec![
            entry("Lib", "ModuleScript", 1),
            entry("Lib", "Folder", 1),
            entry("PlayerScripts", "PlayerScripts", 1),
            entry("PlayerScripts", "Folder", 1),
            entry("Shared", "Folder", 4),
            entry("StarterPlayerScripts", "Folder", 1),
        ]
    );
    assert_eq!(
        shape(&nodes[4].children),
        vec![
            entry("Deep", "ModuleScript", 0),
            entry("Deep", "Folder", 1),
            entry("Part", "ModuleScript", 0),
            entry("seed.csv", "StringValue", 0),
        ]
    );
}

/// How many nodes stand for the file at a path.
fn nodes_for(nodes: &[ProjectNode], path: &str) -> usize {
    nodes
        .iter()
        .map(|node| {
            let here = usize::from(node.script_path.as_deref() == Some(path));
            here + nodes_for(&node.children, path)
        })
        .sum()
}

#[test]
fn each_file_has_one_node() {
    let paths = [
        "ExternalData/Lib/seed.csv",
        "ExternalData/Workspace/seed.csv",
        "Lib/Part.luau",
        "StarterPlayerScripts/Boot.local.luau",
        "Top.server.luau",
        "Workspace/Lib/Part.luau",
    ];
    let mut files = vec![file("Lib/init.luau", b"return {}")];
    for path in paths {
        files.push(file(path, b"return 1"));
    }
    let layout = project(files).layout().expect("layout");
    for path in paths {
        let mut count = 0;
        for mount in &layout.top_level {
            count += match mount {
                ProjectMount::DataModelChild(node) => {
                    nodes_for(std::slice::from_ref(node), path)
                }
                ProjectMount::ServiceContents { children, .. } => nodes_for(children, path),
            };
        }
        assert_eq!(count, 1, "{path}");
    }
}

#[test]
fn nodes_are_sorted_by_name() {
    let project = project(vec![
        file("Workspace/b.luau", b""),
        file("Workspace/a/x.luau", b""),
        file("Workspace/C.luau", b""),
    ]);
    let layout = project.layout().expect("layout");
    let ProjectMount::ServiceContents { children, .. } = &layout.top_level[0] else {
        panic!("expected service mount");
    };
    let names: Vec<&str> = children.iter().map(|node| node.name.as_str()).collect();
    assert_eq!(names, vec!["C", "a", "b"]);
    assert_eq!(children[1].class_name, "Folder");
}

#[test]
fn other_folders_become_folders_below_the_data_model() {
    let project = project(vec![file("Shared/util.luau", b"return 1")]);
    let layout = project.layout().expect("layout");
    let ProjectMount::DataModelChild(node) = &layout.top_level[0] else {
        panic!("expected folder");
    };
    assert_eq!(node.name, "Shared");
    assert_eq!(node.class_name, "Folder");
    assert_eq!(node.children[0].name, "util");
}

#[test]
fn services_keep_their_init_modules() {
    let project = project(vec![file("Workspace/init.luau", b"return 1")]);
    let layout = project.layout().expect("layout");
    let ProjectMount::ServiceContents { children, .. } = &layout.top_level[0] else {
        panic!("expected service mount");
    };
    assert_eq!(children[0].name, "init");
    assert_eq!(children[0].class_name, "ModuleScript");
}

#[test]
fn files_are_loaded_in_the_order_of_their_paths() {
    let loaded = LoadedProject::from_files(vec![
        file("b/x", b"1"),
        file("a/z", b"2"),
        file("a.b/y", b"3"),
        file("a/y", b"4"),
    ]);
    let paths: Vec<&str> = loaded.files.iter().map(|file| file.relative_path.as_str()).collect();
    assert_eq!(paths, vec!["a/y", "a/z", "a.b/y", "b/x"]);
    assert!(LoadedProject::default().files.is_empty());
}

#[test]
fn order_of_paths_agrees_with_the_standard_library() {
    let paths = vec![
        "", "/", ".", "..", "a", "a/", "a/.", "./a", "a/b", "a//b", "a.b", "a-b", "/a", "../a", "b",
        "a/..", "é",
    ];
    for a in &paths {
        for b in &paths {
            let left = std::path::Path::new(a);
            let right = std::path::Path::new(b);
            assert_eq!(path_eq(a, b), left == right, "{a} {b}");
            assert_eq!(roblox_luau_env::path::path_at_most(a, b), left <= right, "{a} {b}");
            assert_eq!(
                extend_path(a, b),
                left.join(right).to_string_lossy().to_string(),
                "{a} {b}"
            );
        }
        let path = std::path::Path::new(a);
        assert_eq!(file_name(a), path.file_name().map(|part| part.to_string_lossy().to_string()), "{a}");
        assert_eq!(extension(a), path.extension().map(|part| part.to_string_lossy().to_string()), "{a}");
        assert_eq!(file_stem(a), path.file_stem().map(|part| part.to_string_lossy().to_string()), "{a}");
        let parts: Vec<String> = path
            .components()
            .map(|part| part.as_os_str().to_string_lossy().to_string())
            .collect();
        assert_eq!(path_segments(a), parts, "{a}");
        assert_eq!(path_segments(&normalize_rel_path(a)), parts, "{a}");
    }
}

#[test]
fn images_are_known_by_their_extension() {
    assert!(is_rleimg_path("a/b.rleimg"));
    assert!(is_rleimg_path("B.RleImg"));
    assert!(!is_rleimg_path("rleimg"));
    assert!(!is_rleimg_path("a.rleimg/b"));
}

#[test]
fn project_paths_must_be_directories() {
    assert!(check_project_path("p", true, true).is_ok());
    assert_eq!(
        check_project_path("p", false, false).unwrap_err().message(),
        "Project path does not exist: p"
    );
    assert_eq!(
        check_project_path("p", true, false).unwrap_err().message(),
        "Project path must be a directory: p"
    );
}

#[test]
fn directives_stand_at_the_head_of_a_script() {
    assert!(parse_rle_directives("--!rle script-disable\nprint(1)").script_disable);
    assert!(parse_rle_directives("-- note\n\n--!rle other, script-disable").script_disable);
    assert!(!parse_rle_directives("print(1)\n--!rle script-disable").script_disable);
    assert!(!parse_rle_directives("--!rle script-disabled").script_disable);
    assert!(!parse_rle_directives("").script_disable);
}
