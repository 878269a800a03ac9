use panout::config::{BundleEntry, Cmd, Config};
use panout::error::PanoutError;
use panout::resolver::{parse_ref, resolve_bundle, resolve_with_panes, ResolvedRef};

fn entry(cmds: &[&str], pane: Option<u32>) -> BundleEntry {
    let cmd = if cmds.len() == 1 {
        Cmd::Single(cmds[0].to_string())
    } else {
        Cmd::Multiple(cmds.iter().map(|c| c.to_string()).collect())
    };
    BundleEntry { cmd, pane, role: None, layout: None }
}

#[test]
fn test_parse_ref_command() {
    assert_eq!(
        parse_ref("echo hello"),
        ResolvedRef::Command("echo hello".to_string())
    );
}

#[test]
fn test_parse_ref_bundle() {
    assert_eq!(
        parse_ref("@dev.frontend"),
        ResolvedRef::BundleRef {
            group: "dev".to_string(),
            name: "frontend".to_string()
        }
    );
}

#[test]
fn test_parse_ref_group_all() {
    assert_eq!(
        parse_ref("@dev.*"),
        ResolvedRef::GroupAll {
            group: "dev".to_string()
        }
    );
}

#[test]
fn parse_ref_no_separator_is_literal() {
    assert_eq!(
        parse_ref("@noseparator"),
        ResolvedRef::Command("@noseparator".to_string())
    );
}

#[test]
fn parse_ref_empty_and_odd_shapes() {
    assert_eq!(parse_ref(""), ResolvedRef::Command(String::new()));
    assert_eq!(parse_ref("@"), ResolvedRef::Command("@".to_string()));
    // the entry name may itself contain dots: only the first dot splits
    assert_eq!(
        parse_ref("@g.a.b"),
        ResolvedRef::BundleRef {
            group: "g".to_string(),
            name: "a.b".to_string()
        }
    );
    // an empty group name is allowed by the grammar
    assert_eq!(
        parse_ref("@.x"),
        ResolvedRef::BundleRef {
            group: String::new(),
            name: "x".to_string()
        }
    );
}

#[test]
fn flat_literal_bundle_in_declared_order() {
    let mut config = Config::new();
    config.add_bundle("dev", "all", entry(&["first", "second", "third"], None));
    let cmds = resolve_bundle(&config, "dev.all").unwrap();
    assert_eq!(cmds, vec!["first", "second", "third"]);
}

#[test]
fn flat_inlining_matches_synthetic_bundle() {
    // A references B; resolving A equals resolving a bundle holding B's
    // commands directly.
    let mut config = Config::new();
    config.add_bundle("g", "a", entry(&["@g.b"], None));
    config.add_bundle("g", "b", entry(&["x", "y"], None));
    config.add_bundle("g", "inline", entry(&["x", "y"], None));
    let via_ref = resolve_bundle(&config, "g.a").unwrap();
    let direct = resolve_bundle(&config, "g.inline").unwrap();
    assert_eq!(via_ref, direct);
    assert_eq!(via_ref, vec!["x", "y"]);
}

#[test]
fn flat_inlining_at_index_matches_spliced_bundle() {
    // the reference sits between other commands; splicing the referenced
    // bundle's commands in place gives the same flat result
    let mut config1 = Config::new();
    config1.add_bundle("g", "a", entry(&["pre", "@g.b", "post"], None));
    config1.add_bundle("g", "b", entry(&["x", "y"], None));
    let mut config2 = Config::new();
    config2.add_bundle("g", "a", entry(&["pre", "x", "y", "post"], None));
    config2.add_bundle("g", "b", entry(&["x", "y"], None));
    let via_ref = resolve_bundle(&config1, "g.a").unwrap();
    let spliced = resolve_bundle(&config2, "g.a").unwrap();
    assert_eq!(via_ref, spliced);
    assert_eq!(via_ref, vec!["pre", "x", "y", "post"]);
}

#[test]
fn self_reference_is_circular() {
    let mut config = Config::new();
    config.add_bundle("A", "self", entry(&["@A.self"], None));
    match resolve_bundle(&config, "A.self") {
        Err(PanoutError::CircularRef(p)) => assert_eq!(p, "A.self"),
        other => panic!("expected CircularRef, got {:?}", other),
    }
}

#[test]
fn mutual_cycle_is_circular_on_reentered_path() {
    let mut config = Config::new();
    config.add_bundle("g", "a", entry(&["@g.b"], None));
    config.add_bundle("g", "b", entry(&["@g.a"], None));
    match resolve_bundle(&config, "g.a") {
        Err(PanoutError::CircularRef(p)) => assert_eq!(p, "g.a"),
        other => panic!("expected CircularRef, got {:?}", other),
    }
    match resolve_with_panes(&config, "g.b") {
        Err(PanoutError::CircularRef(p)) => assert_eq!(p, "g.b"),
        other => panic!("expected CircularRef, got {:?}", other),
    }
}

#[test]
fn diamond_reference_expands_twice_without_cycle() {
    let mut config = Config::new();
    config.add_bundle("g", "d", entry(&["@g.a", "@g.b"], None));
    config.add_bundle("g", "a", entry(&["@g.c"], None));
    config.add_bundle("g", "b", entry(&["@g.c"], None));
    config.add_bundle("g", "c", entry(&["run"], None));
    let cmds = resolve_bundle(&config, "g.d").unwrap();
    assert_eq!(cmds, vec!["run", "run"]);
    // both siblings succeed independently as well
    assert_eq!(resolve_bundle(&config, "g.a").unwrap(), vec!["run"]);
    assert_eq!(resolve_bundle(&config, "g.b").unwrap(), vec!["run"]);
}

#[test]
fn group_wildcard_expands_lexicographically() {
    let mut config = Config::new();
    // inserted out of order on purpose
    config.add_bundle("grp", "b", entry(&["from-b"], None));
    config.add_bundle("grp", "a", entry(&["from-a"], None));
    config.add_bundle("top", "all", entry(&["@grp.*"], None));
    let cmds = resolve_bundle(&config, "top.all").unwrap();
    assert_eq!(cmds, vec!["from-a", "from-b"]);
}

#[test]
fn group_wildcard_missing_group_message() {
    let mut config = Config::new();
    config.add_bundle("top", "all", entry(&["@nope.*"], None));
    match resolve_bundle(&config, "top.all") {
        Err(PanoutError::BundleNotFound(p)) => assert_eq!(p, "group 'nope'"),
        other => panic!("expected BundleNotFound, got {:?}", other),
    }
}

#[test]
fn pane_explicit_overrides_inherited() {
    let mut config = Config::new();
    config.add_bundle("g", "x", entry(&["echo hi"], Some(2)));
    let panes = resolve_with_panes(&config, "g.x").unwrap();
    assert_eq!(panes, vec![(2, vec!["echo hi".to_string()])]);
}

#[test]
fn pane_inherited_flows_through_references() {
    // the referrer's explicit pane becomes the callee's pane when the
    // callee has none of its own
    let mut config = Config::new();
    config.add_bundle("g", "root", entry(&["@g.leaf"], Some(3)));
    config.add_bundle("g", "leaf", entry(&["work"], None));
    let panes = resolve_with_panes(&config, "g.root").unwrap();
    assert_eq!(panes, vec![(3, vec!["work".to_string()])]);
}

#[test]
fn pane_same_index_merges_into_first_slot() {
    let mut config = Config::new();
    config.add_bundle("g", "root", entry(&["@g.a", "@g.b", "top"], None));
    config.add_bundle("g", "a", entry(&["cmd1"], Some(1)));
    config.add_bundle("g", "b", entry(&["cmd2"], Some(1)));
    let panes = resolve_with_panes(&config, "g.root").unwrap();
    assert_eq!(
        panes,
        vec![
            (1, vec!["cmd1".to_string(), "cmd2".to_string()]),
            (0, vec!["top".to_string()]),
        ]
    );
}

#[test]
fn pane_empty_direct_commands_contribute_no_slot() {
    let mut config = Config::new();
    config.add_bundle("g", "root", entry(&["@g.leaf"], Some(5)));
    config.add_bundle("g", "leaf", entry(&["work"], Some(1)));
    let panes = resolve_with_panes(&config, "g.root").unwrap();
    // the root bundle has no direct commands, so pane 5 never appears
    assert_eq!(panes, vec![(1, vec!["work".to_string()])]);
}

#[test]
fn missing_bundle_fails_in_both_modes() {
    let config = Config::new();
    match resolve_bundle(&config, "nogroup.noname") {
        Err(PanoutError::BundleNotFound(p)) => assert_eq!(p, "nogroup.noname"),
        other => panic!("expected BundleNotFound, got {:?}", other),
    }
    match resolve_with_panes(&config, "nogroup.noname") {
        Err(PanoutError::BundleNotFound(p)) => assert_eq!(p, "nogroup.noname"),
        other => panic!("expected BundleNotFound, got {:?}", other),
    }
}

#[test]
fn path_without_dot_is_not_found() {
    let mut config = Config::new();
    config.add_bundle("g", "a", entry(&["x"], None));
    match resolve_bundle(&config, "g") {
        Err(PanoutError::BundleNotFound(p)) => assert_eq!(p, "g"),
        other => panic!("expected BundleNotFound, got {:?}", other),
    }
}

#[test]
fn error_messages_render_exactly() {
    let e = PanoutError::CircularRef("a.b".to_string());
    assert_eq!(e.message(), "Circular reference detected: a.b");
    let e = PanoutError::BundleNotFound("x.y".to_string());
    assert_eq!(e.message(), "Bundle not found: x.y");
    assert_eq!(PanoutError::NotInTmux.message(), "Not running inside tmux");
}
