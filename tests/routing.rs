use typos_lsp::router::{folder_route_key, starts_with, url_path_sanitised, PolicyRouter};
use typos_lsp::session::{parse_severity, severity_from_lowercase, SessionState, WorkspaceFolder};
use typos_lsp::diagnostics::Severity;

fn router() -> PolicyRouter<&'static str> {
    let folders = vec!["/repo/a".to_string(), "/repo/b".to_string()];
    PolicyRouter::build(&folders, &vec![String::new()], vec!["A", "B", "default"]).unwrap()
}

#[test]
fn routes_by_most_specific_folder() {
    let r = router();
    assert_eq!(r.at("/repo/a/src/x.txt"), Some(&"A"));
    assert_eq!(r.at("/repo/a/vendor/x.txt"), Some(&"A"));
    assert_eq!(r.at("/repo/b/x.txt"), Some(&"B"));
    assert_eq!(r.at("/other/x.txt"), Some(&"default"));
    assert_eq!(r.at("/repo/ab/x.txt"), Some(&"default"));
    assert_eq!(r.lookup("relative"), None);
}

#[test]
fn nested_folder_wins_over_parent() {
    let folders = vec!["/repo".to_string(), "/repo/inner".to_string()];
    let r = PolicyRouter::build(&folders, &vec![String::new()], vec![1, 2, 0]).unwrap();
    assert_eq!(r.at("/repo/inner/x"), Some(&2));
    assert_eq!(r.at("/repo/x"), Some(&1));
    assert_eq!(r.routes.len(), 3);
    assert_eq!(r.routes[2].key, "/");
}

#[test]
fn drive_letter_colons_are_escaped() {
    assert_eq!(url_path_sanitised("/c:/Users/me"), "/c%3A/Users/me");
    assert_eq!(url_path_sanitised("/plain"), "/plain");
    assert_eq!(folder_route_key("/d:/w"), "/d%3A/w/");
    let r = PolicyRouter::build(&vec!["/c:/w".to_string()], &vec![String::new()], vec!["C", "root"]).unwrap();
    assert_eq!(r.at("/c:/w/file.rs"), Some(&"C"));
    assert_eq!(r.at("/c%3A/w/file.rs"), Some(&"C"));
}

#[test]
fn prefix_test() {
    assert!(starts_with("/repo/a/x", "/repo/a/"));
    assert!(!starts_with("/repo/a", "/repo/a/"));
    assert!(starts_with("anything", ""));
}

fn folder(uri: &str, name: &str) -> WorkspaceFolder {
    WorkspaceFolder { uri: uri.to_string(), name: name.to_string() }
}

#[test]
fn folder_set_add_and_remove() {
    let mut s: SessionState<u8> = SessionState::new();
    s.set_workspace_folders(vec![folder("file:///a", "a"), folder("file:///b", "b")]);
    s.update_workspace_folders(
        vec![folder("file:///c", "c")],
        vec![folder("file:///a", "a"), folder("file:///b", "other")],
    );
    let uris: Vec<&str> = s.workspace_folders.iter().map(|f| f.uri.as_str()).collect();
    assert_eq!(uris, vec!["file:///b", "file:///c"]);
}

#[test]
fn failed_rebuild_keeps_previous_router() {
    let mut s: SessionState<&str> = SessionState::new();
    s.install_router(Some(router()));
    assert_eq!(s.router.at("/repo/b/y"), Some(&"B"));
    s.install_router(None);
    assert_eq!(s.router.routes.len(), 3);
    assert_eq!(s.router.at("/repo/b/y"), Some(&"B"));
    let folders = vec!["/repo/b".to_string()];
    s.install_router(PolicyRouter::build(&folders, &vec![String::new()], vec!["B2", "d2"]));
    assert_eq!(s.router.at("/repo/a/y"), Some(&"d2"));
}

#[test]
fn severity_names() {
    assert_eq!(parse_severity("ERROR"), Some(Severity::Error));
    assert_eq!(parse_severity("Warning"), Some(Severity::Warning));
    assert_eq!(parse_severity("information"), Some(Severity::Information));
    assert_eq!(parse_severity("hInT"), Some(Severity::Hint));
    assert_eq!(parse_severity("fatal"), None);
    assert_eq!(severity_from_lowercase("Error"), None);
    assert_eq!(severity_from_lowercase("error"), Some(Severity::Error));
}

#[test]
fn options_apply() {
    let mut s: SessionState<u8> = SessionState::new();
    assert!(s.apply_options(Some("Warning"), Some("/etc/typos.toml")));
    assert_eq!(s.severity, Some(Severity::Warning));
    assert_eq!(s.config.as_deref(), Some("/etc/typos.toml"));
    assert!(!s.apply_options(Some("loud"), None));
    assert_eq!(s.severity, Some(Severity::Warning));
    assert_eq!(s.config.as_deref(), Some("/etc/typos.toml"));
    s.apply_options(None, Some("~/cfg.toml"));
    let c = s.config.clone().unwrap();
    // expanded when a home directory is known, kept as given otherwise
    assert!(c.ends_with("/cfg.toml"));
    assert!(c == "~/cfg.toml" || !c.starts_with('~'));
    s.apply_options(None, Some("~user/cfg.toml"));
    assert_eq!(s.config.as_deref(), Some("~user/cfg.toml"));
}

#[test]
fn one_catch_all_per_drive() {
    let folders = vec!["/c:/work".to_string()];
    let roots = vec!["/c:".to_string(), "/d:".to_string()];
    let r = PolicyRouter::build(&folders, &roots, vec!["W", "C", "D"]).unwrap();
    let keys: Vec<&str> = r.routes.iter().map(|x| x.key.as_str()).collect();
    assert_eq!(keys, vec!["/c%3A/work/", "/c%3A/", "/d%3A/"]);
    assert_eq!(r.at("/c:/work/a.txt"), Some(&"W"));
    assert_eq!(r.at("/c%3A/other/a.txt"), Some(&"C"));
    assert_eq!(r.at("/d:/x.txt"), Some(&"D"));
    assert_eq!(r.at("/e:/x.txt"), None);
}

#[test]
fn folder_listed_twice_is_refused() {
    let folders = vec!["/repo/a".to_string(), "/repo/a".to_string()];
    assert!(PolicyRouter::build(&folders, &vec![String::new()], vec![1, 2, 0]).is_none());
    let mut s: SessionState<u8> = SessionState::new();
    let good = PolicyRouter::build(&vec!["/repo/a".to_string()], &vec![String::new()], vec![1, 0]);
    s.install_router(good);
    s.install_router(PolicyRouter::build(&folders, &vec![String::new()], vec![3, 4, 5]));
    assert_eq!(s.router.at("/repo/a/x"), Some(&1));
}
