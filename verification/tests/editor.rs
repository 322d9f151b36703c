use roblox_luau_env::editor::{
    CONSOLE_LINES, ConsoleStream, LogEntry, OpenProject, RunMode, SavePlan, default_script_template,
    log_line, upsert_project_file,
};
use roblox_luau_env::explorer::{
    ExplorerNodeKind, build_explorer, find_node_by_key, path_to_string, script_kind_name,
};
use roblox_luau_env::project::{LoadedProject, ProjectFile, ScriptKind};

fn file(path: &str, text: &str) -> ProjectFile {
    ProjectFile { relative_path: path.to_string(), bytes: text.as_bytes().to_vec() }
}

fn demo() -> LoadedProject {
    LoadedProject {
        files: vec![
            file("Lib/init.luau", "return {}"),
            file("Lib/part.luau", "return 1"),
            file("Shared/deep/a.luau", "return 2"),
            file("Workspace/Boot.server.luau", "print(1)"),
            file("Workspace/init.luau", "return 3"),
            file("top.luau", "return 4"),
        ],
    }
}

fn open() -> OpenProject {
    OpenProject::from_directory("/home/me/demo".to_string(), demo()).expect("project")
}

#[test]
fn the_explorer_shows_the_scripts() {
    let nodes = build_explorer(&demo()).expect("explorer");
    let titles: Vec<String> = nodes.iter().map(|node| node.tree_label()).collect();
    assert_eq!(
        titles,
        vec![
            "Lib [ModuleScript]".to_string(),
            "Shared [Folder]".to_string(),
            "Workspace [Service]".to_string(),
            "top [ModuleScript]".to_string(),
        ]
    );
    assert_eq!(nodes[0].key, "script:Lib/init.luau");
    assert_eq!(nodes[0].kind, ExplorerNodeKind::ModuleFolder);
    assert_eq!(nodes[0].children.len(), 1);
    assert_eq!(nodes[1].children[0].key, "folder:Shared/deep");
    assert_eq!(nodes[2].key, "service:Workspace");
    let inner: Vec<String> = nodes[2].children.iter().map(|node| node.tree_label()).collect();
    assert_eq!(inner, vec!["Boot [Script]".to_string(), "init [ModuleScript]".to_string()]);
    let found = find_node_by_key(&nodes, "script:Shared/deep/a.luau").expect("node");
    assert_eq!(found.title, "a");
    assert_eq!(found.container_path, vec!["Shared".to_string(), "deep".to_string()]);
    assert!(find_node_by_key(&nodes, "script:none").is_none());
    assert_eq!(path_to_string(&vec!["a".to_string(), "b".to_string()]), "a/b");
    assert_eq!(script_kind_name(ScriptKind::ServerScript), "Script");
    assert_eq!(script_kind_name(ScriptKind::LocalScript), "LocalScript");
}

#[test]
fn tabs_open_once_and_close_in_order() {
    let mut project = open();
    assert_eq!(project.title, "demo");
    assert_eq!(project.subtitle(), "Folder-backed: /home/me/demo");
    project.open_tab("top.luau");
    project.open_tab("Lib/part.luau");
    project.open_tab("Lib//part.luau");
    project.open_tab("top.luau");
    assert_eq!(project.open_tabs.len(), 2);
    assert_eq!(project.active_tab, Some(0));
    project.open_tab("no/such/file");
    assert_eq!(project.open_tabs.len(), 2);
    assert_eq!(project.open_tabs[1].title, "part.luau");
    assert_eq!(project.open_tabs[1].buffer, "return 1");
    assert_eq!(project.active_path().expect("path"), "/home/me/demo/top.luau");
    project.activate_tab(1);
    project.close_tab(0);
    assert_eq!(project.active_tab, Some(0));
    assert_eq!(project.active_tab().expect("tab").title, "part.luau");
    project.open_tab("top.luau");
    project.close_tab(1);
    assert_eq!(project.active_tab, Some(0));
    project.close_tab(0);
    assert_eq!(project.active_tab, None);
    assert!(project.active_tab().is_none());
    assert_eq!(project.active_path().unwrap_err().message(), "Open a script tab first.");
}

#[test]
fn saving_brings_the_files_up_to_date() {
    let mut project = open();
    project.open_tab("top.luau");
    project.edit_tab(0, "return 5".to_string());
    assert_eq!(project.tab_label(0), "top.luau *");
    let SavePlan::Files(plan) = project.save() else {
        panic!("expected files");
    };
    assert_eq!(project.tab_label(0), "top.luau");
    assert_eq!(plan.files.len(), 6);
    assert_eq!(plan.files[5].relative_path, "/home/me/demo/top.luau");
    assert_eq!(plan.files[5].bytes, b"return 5".to_vec());
    assert_eq!(project.saved_message(), "Saved project files to /home/me/demo");
}

#[test]
fn single_tabs_are_saved() {
    let mut project = open();
    project.open_tab("top.luau");
    project.edit_tab(0, "return 6".to_string());
    let write = project.save_tab(0);
    assert_eq!(write.destination, Some("/home/me/demo/top.luau".to_string()));
    assert_eq!(write.bytes, b"return 6".to_vec());
    assert_eq!(
        project.finish_save_tab(0, Err("full".to_string())),
        "Could not save /home/me/demo/top.luau: full"
    );
    assert!(project.open_tabs[0].dirty);
    assert_eq!(project.finish_save_tab(0, Ok(())), "Saved /home/me/demo/top.luau");
    assert!(!project.open_tabs[0].dirty);
}

#[test]
fn images_are_edited_in_memory() {
    let mut project = OpenProject::from_image("/x/demo.rleimg".to_string(), demo()).expect("image");
    assert_eq!(project.title, "demo.rleimg");
    assert_eq!(project.subtitle(), "Image-backed: /x/demo.rleimg (opened in-memory)");
    assert_eq!(project.default_image_name(), "demo.rleimg");
    assert_eq!(project.default_rbxlx_name(), "demo.rbxlx");
    project.open_tab("top.luau");
    assert_eq!(
        project.active_path().unwrap_err().message(),
        "Open in VS Code is only available for folder-backed scripts."
    );
    project.edit_tab(0, "x".to_string());
    assert_eq!(project.save_tab(0).destination, None);
    assert_eq!(project.finish_save_tab(0, Ok(())), "Updated top.luau in-memory.");
    assert!(matches!(project.save(), SavePlan::Image(path) if path == "/x/demo.rleimg"));
    assert_eq!(project.saved_message(), "Saved image /x/demo.rleimg");
}

#[test]
fn names_are_offered() {
    let project = open();
    assert_eq!(project.default_image_name(), "demo.rleimg");
    assert_eq!(project.default_rbxlx_name(), "demo.rbxlx");
    let nameless = OpenProject::from_directory("/".to_string(), demo()).expect("project");
    assert_eq!(nameless.title, "project");
    assert_eq!(nameless.default_image_name(), "project.rleimg");
}

#[test]
fn scripts_are_added_once() {
    let mut project = open();
    assert_eq!(project.default_add_target().label, "Workspace");
    project.select("folder:Shared/deep", &None);
    let dialog = project.add_script_dialog();
    assert_eq!(dialog.target_label, "deep [Folder]");
    assert_eq!(dialog.name, "NewScript");
    let write = project
        .add_script(&dialog.container_path, ScriptKind::LocalScript, "  New  ")
        .expect("script");
    assert_eq!(write.relative_path, "Shared/deep/New.client.luau");
    assert_eq!(write.destination, Some("/home/me/demo/Shared/deep/New.client.luau".to_string()));
    assert_eq!(write.bytes, b"print(\"client script booted\")\n".to_vec());
    assert_eq!(
        project
            .finish_add_script(&write.relative_path, Err("denied".to_string()))
            .unwrap_err()
            .message(),
        "I/O error: denied"
    );
    project.finish_add_script(&write.relative_path, Ok(())).expect("explorer");
    assert_eq!(project.selected_key, Some("script:Shared/deep/New.client.luau".to_string()));
    assert!(find_node_by_key(&project.explorer, "script:Shared/deep/New.client.luau").is_some());
    assert_eq!(
        project
            .add_script(&dialog.container_path, ScriptKind::LocalScript, "New")
            .unwrap_err()
            .message(),
        "Shared/deep/New.client.luau already exists"
    );
    assert_eq!(
        project.add_script(&dialog.container_path, ScriptKind::ModuleScript, " \t").unwrap_err().message(),
        "Script name cannot be empty"
    );
    assert_eq!(default_script_template(ScriptKind::ModuleScript), "local module = {}\n\nreturn module\n");
}

#[test]
fn selecting_a_script_opens_it() {
    let mut project = open();
    project.select("script:top.luau", &Some("top.luau".to_string()));
    assert_eq!(project.selected_key, Some("script:top.luau".to_string()));
    assert_eq!(project.active_tab, Some(0));
}

#[test]
fn buffers_of_broken_files_are_replaced() {
    let files = vec![ProjectFile { relative_path: "a.luau".to_string(), bytes: b"a".to_vec() }];
    let mut project =
        OpenProject::from_directory("d".to_string(), LoadedProject { files }).expect("project");
    upsert_project_file(&mut project.project, "a.luau", vec![b'x', 0xff]);
    project.open_tab("a.luau");
    assert_eq!(project.open_tabs[0].buffer, "x\u{fffd}");
}

#[test]
fn files_are_put_in_their_place() {
    let mut project = demo();
    upsert_project_file(&mut project, "Workspace//init.luau", b"new".to_vec());
    assert_eq!(project.files.len(), 6);
    assert_eq!(project.files[4].bytes, b"new".to_vec());
    upsert_project_file(&mut project, "Model.luau", b"m".to_vec());
    assert_eq!(project.files.len(), 7);
    assert_eq!(project.files[2].relative_path, "Model.luau");
}

#[test]
fn paths_stay_ascending() {
    let mut project = LoadedProject { files: Vec::new() };
    for path in ["b/x.luau", "a.luau", "b/a.luau", "c.luau", "a.luau", "b//x.luau", "b.luau"] {
        upsert_project_file(&mut project, path, path.as_bytes().to_vec());
    }
    let paths: Vec<&str> = project.files.iter().map(|file| file.relative_path.as_str()).collect();
    assert_eq!(paths, vec!["a.luau", "b/a.luau", "b/x.luau", "b.luau", "c.luau"]);
    assert_eq!(project.files[2].bytes, b"b//x.luau".to_vec());
}

#[test]
fn sessions_are_reported() {
    assert_eq!(RunMode::Server.command_name(), "run-server");
    assert_eq!(RunMode::Client.command_name(), "emulate-client");
    assert_eq!(RunMode::Server.started_message(), "Started server session.");
    assert_eq!(RunMode::Client.started_message(), "Started client emulation session.");
    assert_eq!(
        RunMode::Client.exited_message("exit status: 0"),
        "client session exited with exit status: 0."
    );
    assert_eq!(RunMode::Server.image_name(1700), "rle-gui-server-1700.rleimg");
}

#[test]
fn the_console_keeps_its_last_lines() {
    let mut console = Vec::new();
    for i in 0..CONSOLE_LINES + 3 {
        log_line(&mut console, LogEntry::new(ConsoleStream::Stdout, i.to_string()));
    }
    assert_eq!(console.len(), 2000);
    assert_eq!(console[0].text, "3");
    assert_eq!(console[1999].line(), "[out] 2002");
    assert_eq!(LogEntry::new(ConsoleStream::Stderr, "x".to_string()).line(), "[err] x");
    assert_eq!(LogEntry::new(ConsoleStream::System, "x".to_string()).line(), "[rle] x");
}
