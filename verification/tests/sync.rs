use roblox_luau_env::cli::DEFAULT_SYNC_PORT;
use roblox_luau_env::sync::{
    FileInfo, Modifications, Route, SyncOutcome, check_sync_folder, reply, resolve_file, route,
    sync_address, sync_start_error,
};

#[test]
fn folders_are_checked() {
    assert!(check_sync_folder("f", true, true).is_ok());
    assert_eq!(
        check_sync_folder("f", false, false).unwrap_err().message(),
        "Folder does not exist: f"
    );
    assert_eq!(
        check_sync_folder("f", true, false).unwrap_err().message(),
        "Path is not a directory: f"
    );
    assert_eq!(sync_address(DEFAULT_SYNC_PORT), "127.0.0.1:57163");
    assert_eq!(
        sync_start_error("127.0.0.1:1", "in use").message(),
        "Failed to start server on 127.0.0.1:1: in use"
    );
}

#[test]
fn requests_are_routed() {
    assert!(matches!(route("GET", "/ping"), Route::Ping));
    assert!(matches!(route("GET", "/files"), Route::Files));
    assert!(matches!(route("GET", "/file/a/b.luau"), Route::File(path) if path == "a/b.luau"));
    assert!(matches!(route("POST", "/file-deleted"), Route::FileDeleted));
    assert!(matches!(route("POST", "/ping"), Route::NotFound));
    assert!(matches!(route("GET", "/"), Route::NotFound));
}

#[test]
fn only_files_of_the_folder_are_served() {
    let file = |path: &str| resolve_file("/home/me", "/srv/p", path);
    assert_eq!(file("a/b.luau"), Some("/srv/p/a/b.luau".to_string()));
    assert_eq!(file("a/../b.luau"), Some("/srv/p/a/../b.luau".to_string()));
    assert_eq!(file("../p/x"), Some("/srv/p/../p/x".to_string()));
    assert_eq!(file("../../../srv/p/x"), Some("/srv/p/../../../srv/p/x".to_string()));
    assert_eq!(file("../secret"), None);
    assert_eq!(file("../p2/x"), None);
    assert_eq!(file("a/../../secret"), None);
    assert_eq!(file("/etc/passwd"), None);
    assert_eq!(file("/srv/q/../p/x"), None);
    assert_eq!(file("/srv/p/x"), Some("/srv/p/x".to_string()));
    assert_eq!(file("/srv/p/../p/x"), Some("/srv/p/../p/x".to_string()));
}

#[test]
fn folders_are_placed_from_the_current_directory() {
    let file = |folder: &str, path: &str| resolve_file("/srv/p/sub", folder, path);
    assert_eq!(file("q", "a.luau"), Some("q/a.luau".to_string()));
    assert_eq!(file("q", "../q/a.luau"), Some("q/../q/a.luau".to_string()));
    assert_eq!(file("q", "../a.luau"), None);
    assert_eq!(file("..", "../p/x"), Some("../../p/x".to_string()));
    assert_eq!(file("..", "../q/x"), None);
    assert_eq!(file(".", "../sub/x"), Some("./../sub/x".to_string()));
    assert_eq!(file(".", "../x"), None);
    // A relative folder is not where a path from the root begins.
    assert_eq!(file("q", "/srv/p/sub/q/x"), None);
    // Where the current directory is not known, steps above it are refused.
    assert_eq!(resolve_file("", ".", "../x"), None);
    assert_eq!(resolve_file("", "q", "../q/x"), Some("q/../q/x".to_string()));
}

#[test]
fn replies_say_what_became_of_a_request() {
    let cases = vec![
        (SyncOutcome::Alive, 200, "{\"status\": \"ok\"}", false),
        (SyncOutcome::Listed(Some("[]".to_string())), 200, "[]", true),
        (SyncOutcome::Listed(None), 500, "{\"error\": \"Failed to serialize files\"}", false),
        (SyncOutcome::Outside, 403, "{\"error\": \"Path traversal not allowed\"}", false),
        (SyncOutcome::Unreadable, 404, "{\"error\": \"File not found\"}", false),
        (SyncOutcome::Content(Some("{}".to_string())), 200, "{}", true),
        (SyncOutcome::Content(None), 500, "{\"error\": \"Failed to serialize content\"}", false),
        (SyncOutcome::Noticed, 200, "{\"status\": \"received\"}", false),
        (SyncOutcome::Unknown, 404, "{\"error\": \"Not found\"}", false),
    ];
    for (outcome, status, body, is_json) in cases {
        let answer = reply(outcome);
        assert_eq!(answer.status, status);
        assert_eq!(answer.body, body);
        assert_eq!(answer.is_json, is_json);
    }
}

#[test]
fn changes_are_reported_once() {
    let mut seen = Modifications::new();
    let info = |path: &str, modified_at: u64| FileInfo { path: path.to_string(), modified_at };
    let first = seen.changed_files(&vec![info("a", 5), info("b", 1)]);
    assert_eq!(first, vec!["a".to_string(), "b".to_string()]);
    assert!(seen.changed_files(&vec![info("a", 5), info("b", 1)]).is_empty());
    assert_eq!(seen.changed_files(&vec![info("a", 6), info("b", 1)]), vec!["a".to_string()]);
    assert!(seen.changed_files(&vec![info("a", 4)]).is_empty());
}
