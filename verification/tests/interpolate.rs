use panout::interpolate::{interpolate, parse_host, replace_all, ssh_command};

#[test]
fn test_parse_host() {
    assert_eq!(
        parse_host("admin@192.168.1.1"),
        Some(("admin".to_string(), "192.168.1.1".to_string()))
    );
    assert_eq!(parse_host("no-at-sign"), None);
}

#[test]
fn test_interpolate() {
    assert_eq!(
        interpolate("cd /home/{user}/src", "admin", "192.168.1.1"),
        "cd /home/admin/src"
    );
    assert_eq!(
        interpolate("ssh {user}@{ip}", "root", "10.0.0.1"),
        "ssh root@10.0.0.1"
    );
}

#[test]
fn parse_host_splits_on_first_at() {
    assert_eq!(
        parse_host("a@b@c"),
        Some(("a".to_string(), "b@c".to_string()))
    );
    assert_eq!(
        parse_host("@host"),
        Some((String::new(), "host".to_string()))
    );
}

#[test]
fn replace_all_is_left_to_right_non_overlapping() {
    assert_eq!(replace_all("aaa", "aa", "b"), "ba");
    assert_eq!(replace_all("nothing here", "{user}", "x"), "nothing here");
    assert_eq!(replace_all("{u}{u}", "{u}", "z"), "zz");
}

#[test]
fn interpolate_repeated_placeholders() {
    assert_eq!(
        interpolate("{user} and {user} at {ip}", "al", "1.2.3.4"),
        "al and al at 1.2.3.4"
    );
}

#[test]
fn ssh_command_prefixes_host() {
    assert_eq!(ssh_command("admin@10.0.0.1"), "ssh admin@10.0.0.1");
}
