use panout::cli::Cli;
use panout::config::{BundleEntry, Cmd, Config, Layout, ServerConfig, WindowDef, Workspace};

fn single(cmd: &str) -> BundleEntry {
    BundleEntry { cmd: Cmd::Single(cmd.to_string()), pane: None, role: None, layout: None }
}

fn workspace(host: Option<&str>, dir: Option<&str>) -> Workspace {
    Workspace {
        host: host.map(|h| h.to_string()),
        dir: dir.map(|d| d.to_string()),
        windows: vec![WindowDef { panes: 2, layout: None, cmd: None, name: None }],
    }
}

#[test]
fn cmd_to_vec_normalizes_both_variants() {
    assert_eq!(Cmd::Single("one".to_string()).to_vec(), vec!["one"]);
    assert_eq!(
        Cmd::Multiple(vec!["a".to_string(), "b".to_string()]).to_vec(),
        vec!["a", "b"]
    );
    assert_eq!(Cmd::Multiple(vec![]).to_vec(), Vec::<String>::new());
}

#[test]
fn layout_names_match_tmux() {
    assert_eq!(Layout::Tiled.to_tmux_layout(), "tiled");
    assert_eq!(Layout::Vertical.to_tmux_layout(), "even-horizontal");
    assert_eq!(Layout::Horizontal.to_tmux_layout(), "even-vertical");
    assert_eq!(Layout::default(), Layout::Tiled);
}

#[test]
fn get_bundle_finds_by_path() {
    let mut config = Config::new();
    config.add_bundle("dev", "frontend", single("npm run dev"));
    assert!(config.get_bundle("dev.frontend").is_some());
    assert!(config.get_bundle("dev.backend").is_none());
    assert!(config.get_bundle("frontend").is_none());
    assert!(config.get_bundle("dev").is_none());
}

#[test]
fn get_bundle_splits_on_first_dot() {
    let mut config = Config::new();
    config.add_bundle("dev", "a.b", single("dotted"));
    let b = config.get_bundle("dev.a.b").expect("dotted name reachable");
    assert_eq!(b.cmd.to_vec(), vec!["dotted"]);
}

#[test]
fn add_bundle_replaces_existing_entry() {
    let mut config = Config::new();
    config.add_bundle("g", "a", single("old"));
    config.add_bundle("g", "a", single("new"));
    let b = config.get_bundle("g.a").unwrap();
    assert_eq!(b.cmd.to_vec(), vec!["new"]);
    assert_eq!(config.list_bundles(), vec!["g.a"]);
}

#[test]
fn get_group_returns_entries_sorted() {
    let mut config = Config::new();
    config.add_bundle("g", "c", single("3"));
    config.add_bundle("g", "a", single("1"));
    config.add_bundle("g", "b", single("2"));
    let entries = config.get_group("g").unwrap();
    let names: Vec<&str> = entries.iter().map(|(n, _)| n.as_str()).collect();
    assert_eq!(names, vec!["a", "b", "c"]);
    assert!(config.get_group("missing").is_none());
}

#[test]
fn list_bundles_is_sorted_across_groups() {
    let mut config = Config::new();
    config.add_bundle("zz", "a", single("1"));
    config.add_bundle("aa", "z", single("2"));
    config.add_bundle("aa", "b", single("3"));
    assert_eq!(config.list_bundles(), vec!["aa.b", "aa.z", "zz.a"]);
    assert_eq!(Config::new().list_bundles(), Vec::<String>::new());
}

#[test]
fn list_servers_and_workspaces_sorted() {
    let mut config = Config::new();
    config.add_server(
        "beta",
        ServerConfig { host: "u@2".to_string(), disconnect: false, cmd: None },
    );
    config.add_server(
        "alpha",
        ServerConfig { host: "u@1".to_string(), disconnect: true, cmd: None },
    );
    assert_eq!(config.list_servers(), vec!["alpha", "beta"]);
    config.add_workspace("w2", workspace(None, None));
    config.add_workspace("w1", workspace(Some("u@h"), None));
    assert_eq!(config.list_workspaces(), vec!["w1", "w2"]);
    assert!(config.get_workspace("w1").is_some());
    assert!(config.get_workspace("w3").is_none());
}

#[test]
fn workspace_setup_command_forms() {
    assert_eq!(
        workspace(Some("user@server"), Some("~/src")).setup_command(),
        Some("ssh -t user@server \"cd ~/src && exec \\$SHELL -l\"".to_string())
    );
    assert_eq!(
        workspace(Some("user@server"), None).setup_command(),
        Some("ssh user@server".to_string())
    );
    assert_eq!(
        workspace(None, Some("~/src")).setup_command(),
        Some("cd ~/src".to_string())
    );
    assert_eq!(workspace(None, None).setup_command(), None);
}

#[test]
fn cli_layout_precedence() {
    let base = Cli {
        bundle: None,
        workspace: None,
        num: None,
        vertical: false,
        horizontal: false,
        list: false,
    };
    assert_eq!(base.layout(), None);
    let v = Cli { vertical: true, ..base.clone() };
    assert_eq!(v.layout(), Some(Layout::Vertical));
    let h = Cli { horizontal: true, ..base.clone() };
    assert_eq!(h.layout(), Some(Layout::Horizontal));
    // flag beats bundle beats default beats tiled
    assert_eq!(
        v.effective_layout(Some(Layout::Horizontal), Some(Layout::Tiled)),
        Layout::Vertical
    );
    assert_eq!(
        base.effective_layout(Some(Layout::Horizontal), Some(Layout::Vertical)),
        Layout::Horizontal
    );
    assert_eq!(
        base.effective_layout(None, Some(Layout::Vertical)),
        Layout::Vertical
    );
    assert_eq!(base.effective_layout(None, None), Layout::Tiled);
}
