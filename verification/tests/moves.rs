use eyd::listing::DirEntry;
use eyd::mover::{
    create_target_parents, generation_directory, move_dirty, ParentDir, FALLBACK_MODE,
};
use eyd::path::Path;
use eyd::rebase::{root_path_to_target_path, target_path_to_root_path};

fn dir(name: &str) -> DirEntry {
    DirEntry::new(name, true).unwrap()
}

fn pairs(parents: &[ParentDir]) -> Vec<(String, Option<String>)> {
    parents
        .iter()
        .map(|p| {
            (
                p.target.to_string(),
                p.source.as_ref().map(|s| s.to_string()),
            )
        })
        .collect()
}

fn pair(target: &str, source: Option<&str>) -> (String, Option<String>) {
    (target.to_string(), source.map(|s| s.to_string()))
}

#[test]
fn a_path_outside_the_root_is_joined_as_it_is() {
    assert_eq!(
        root_path_to_target_path(
            &Path::new("/sysroot"),
            &Path::new("/sysroot/oldroot/1"),
            &Path::new("/var/lib")
        ),
        Path::new("/var/lib")
    );
    assert_eq!(
        root_path_to_target_path(
            &Path::new("/sysroot"),
            &Path::new("/sysroot/oldroot/1"),
            &Path::new("var/lib")
        ),
        Path::new("/sysroot/oldroot/1/var/lib")
    );
}

#[test]
fn a_path_outside_the_target_has_no_source() {
    assert_eq!(
        target_path_to_root_path(
            &Path::new("/"),
            &Path::new("/oldroot/1"),
            &Path::new("/oldroot/2/var")
        ),
        None
    );
    assert_eq!(
        target_path_to_root_path(
            &Path::new("/"),
            &Path::new("/oldroot/1"),
            &Path::new("/oldroot/10")
        ),
        None
    );
}

#[test]
fn destination_and_source_are_inverse() {
    let root = Path::new("/sysroot");
    let target = Path::new("/sysroot/oldroot/0000000000000001");
    for text in ["/sysroot", "/sysroot/etc", "/sysroot/var/lib/nixos"] {
        let path = Path::new(text);
        let there = root_path_to_target_path(&root, &target, &path);
        assert_eq!(target_path_to_root_path(&root, &target, &there), Some(path));
    }
}

#[test]
fn parents_are_listed_from_the_top() {
    let parents = create_target_parents(
        &Path::new("/sysroot"),
        &Path::new("/sysroot/oldroot/0000000000000001"),
        &Path::new("/sysroot/var/lib/nixos"),
    );
    assert_eq!(
        pairs(&parents),
        vec![
            pair("/", None),
            pair("/sysroot", None),
            pair("/sysroot/oldroot", None),
            pair("/sysroot/oldroot/0000000000000001", Some("/sysroot")),
            pair("/sysroot/oldroot/0000000000000001/var", Some("/sysroot/var")),
            pair(
                "/sysroot/oldroot/0000000000000001/var/lib",
                Some("/sysroot/var/lib")
            ),
        ]
    );
}

#[test]
fn a_destination_without_parent_needs_no_directory() {
    assert!(create_target_parents(&Path::new("/"), &Path::new("/"), &Path::new("/")).is_empty());
    let parents = create_target_parents(&Path::new("/"), &Path::new("/"), &Path::new("/etc"));
    assert_eq!(pairs(&parents), vec![pair("/", Some("/"))]);
}

#[test]
fn a_directory_that_exists_is_not_created() {
    let parent = ParentDir {
        target: Path::new("/oldroot/1/etc"),
        source: Some(Path::new("/etc")),
    };
    assert_eq!(parent.creation_mode(true, Some(0o40755)), None);
    assert_eq!(parent.creation_mode(true, None), None);
}

#[test]
fn a_created_directory_takes_the_mode_of_its_source() {
    let parent = ParentDir {
        target: Path::new("/oldroot/1/etc"),
        source: Some(Path::new("/etc")),
    };
    assert_eq!(parent.creation_mode(false, Some(0o40755)), Some(0o40755));
    assert_eq!(parent.creation_mode(false, Some(0o40700)), Some(0o40700));
    assert_eq!(parent.creation_mode(false, Some(0)), Some(0));
}

#[test]
fn a_created_directory_without_source_mode_falls_back() {
    assert_eq!(FALLBACK_MODE, 0o700);
    let mirrored = ParentDir {
        target: Path::new("/oldroot/1/etc"),
        source: Some(Path::new("/etc")),
    };
    assert_eq!(mirrored.creation_mode(false, None), Some(0o700));
    let above = ParentDir {
        target: Path::new("/oldroot"),
        source: None,
    };
    assert_eq!(above.creation_mode(false, None), Some(0o700));
    assert_eq!(above.creation_mode(false, Some(0o40755)), Some(0o700));
}

#[test]
fn the_generation_directory_lies_in_the_target_under_the_root() {
    assert_eq!(
        generation_directory(&Path::new("/sysroot"), &Path::new("/oldroot"), &vec![]),
        Some(Path::new("/sysroot/oldroot/0000000000000001"))
    );
    assert_eq!(
        generation_directory(
            &Path::new("/"),
            &Path::new("/oldroot"),
            &vec![dir("0000000000000041"), dir("random_123")]
        ),
        Some(Path::new("/oldroot/0000000000000042"))
    );
    assert_eq!(
        generation_directory(
            &Path::new("/"),
            &Path::new("/oldroot"),
            &vec![dir(&usize::MAX.to_string())]
        ),
        None
    );
}

#[test]
fn every_path_found_is_moved_into_the_generation() {
    let root = Path::new("/sysroot");
    let target = Path::new("/oldroot");
    let found = vec![
        Path::new("/sysroot/etc/ssh/config"),
        Path::new("/sysroot/home"),
    ];
    let moves = move_dirty(&root, &target, &vec![dir("0000000000000001")], &found).unwrap();
    assert_eq!(moves.len(), 2);
    assert_eq!(moves[0].from, Path::new("/sysroot/etc/ssh/config"));
    assert_eq!(
        moves[0].to,
        Path::new("/sysroot/oldroot/0000000000000002/etc/ssh/config")
    );
    assert_eq!(
        pairs(&moves[0].parents),
        vec![
            pair("/", None),
            pair("/sysroot", None),
            pair("/sysroot/oldroot", None),
            pair("/sysroot/oldroot/0000000000000002", Some("/sysroot")),
            pair(
                "/sysroot/oldroot/0000000000000002/etc",
                Some("/sysroot/etc")
            ),
            pair(
                "/sysroot/oldroot/0000000000000002/etc/ssh",
                Some("/sysroot/etc/ssh")
            ),
        ]
    );
    assert_eq!(moves[1].from, Path::new("/sysroot/home"));
    assert_eq!(
        moves[1].to,
        Path::new("/sysroot/oldroot/0000000000000002/home")
    );
    assert_eq!(moves[1].parents.len(), 4);
}

#[test]
fn nothing_is_planned_without_a_generation() {
    let listing = vec![dir(&usize::MAX.to_string())];
    assert!(move_dirty(
        &Path::new("/"),
        &Path::new("/oldroot"),
        &listing,
        &vec![Path::new("/etc")]
    )
    .is_none());
    assert_eq!(
        move_dirty(&Path::new("/"), &Path::new("/oldroot"), &vec![], &vec![])
            .unwrap()
            .len(),
        0
    );
}
