use eyd::decode::{keep_from_strings, parse_keep_list, KeepListError};
use eyd::keep::KeepSet;
use eyd::path::Path;

fn set(paths: &[&str]) -> KeepSet {
    KeepSet::from_paths(paths.iter().map(|p| Path::new(p)).collect())
}

#[test]
fn a_list_of_strings_is_a_keep_list() {
    assert_eq!(
        parse_keep_list(r#"["/var/log", "/etc/ssh/ssh_host_ed25519_key"]"#),
        Ok(set(&["/etc/ssh/ssh_host_ed25519_key", "/var/log"]))
    );
    assert_eq!(parse_keep_list("[]"), Ok(KeepSet::new()));
    assert_eq!(parse_keep_list(" [ \"home\" ]\n"), Ok(set(&["home"])));
}

#[test]
fn escapes_are_resolved() {
    assert_eq!(
        parse_keep_list(r#"["\/var\/log", "/srv/a b"]"#),
        Ok(set(&["/var/log", "/srv/a b"]))
    );
}

#[test]
fn paths_listed_twice_count_once() {
    let keep = parse_keep_list(r#"["/var/log", "/var//log/", "/var/./log"]"#).unwrap();
    assert_eq!(keep.len(), 1);
    assert_eq!(keep, set(&["/var/log"]));
}

#[test]
fn malformed_lists_are_refused() {
    for text in [
        "",
        "[",
        "]",
        "/var/log",
        "\"/var/log\"",
        "[\"/var/log\"",
        "[\"/var/log\",]",
        "[\"/var/log\"] x",
        "[1, 2]",
        "[null]",
        "[[\"/var\"]]",
        "{\"keep\": []}",
        "null",
    ] {
        assert_eq!(parse_keep_list(text), Err(KeepListError::Malformed));
    }
}

#[test]
fn strings_become_paths() {
    assert_eq!(
        keep_from_strings(&vec!["/var/log".to_string(), "/etc".to_string()]),
        set(&["/etc", "/var/log"])
    );
    assert_eq!(keep_from_strings(&vec![]), KeepSet::new());
    assert_eq!(
        keep_from_strings(&vec!["/a".to_string(), "/a/".to_string()]).len(),
        1
    );
}
