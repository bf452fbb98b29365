use eyd::path::Path;
use eyd::rebase::{root_path_to_target_path, target_path_to_root_path};

fn top_down(path: &Path) -> Vec<Path> {
    let mut chain = path.parent().unwrap().ancestors();
    chain.reverse();
    chain
}

#[test]
fn test_create_target_parents() {
    let root_1 = Path::new("/");
    let target_1 = Path::new("/oldroot/0000000000000001");
    let path_1 = Path::new("/var/lib/nixos");
    let target_path_1 = Path::new("/oldroot/0000000000000001/var/lib/nixos");

    assert_eq!(
        root_path_to_target_path(&root_1, &target_1, &path_1),
        target_path_1,
    );

    assert_eq!(
        target_path_to_root_path(&root_1, &target_1, &target_path_1),
        Some(path_1.clone()),
    );

    let ancestors_1 = top_down(&target_path_1);
    assert_eq!(
        ancestors_1,
        vec![
            Path::new("/"),
            Path::new("/oldroot"),
            Path::new("/oldroot/0000000000000001"),
            Path::new("/oldroot/0000000000000001/var"),
            Path::new("/oldroot/0000000000000001/var/lib"),
        ],
    );

    assert_eq!(
        ancestors_1
            .iter()
            .map(|parent| target_path_to_root_path(&root_1, &target_1, parent))
            .collect::<Vec<_>>(),
        vec![
            None,
            None,
            Some(Path::new("/")),
            Some(Path::new("/var")),
            Some(Path::new("/var/lib")),
        ],
    );

    let root_2 = Path::new("/sysroot/");
    let target_2 = Path::new("/sysroot/oldroot/0000000000000001");
    let path_2 = Path::new("/sysroot/var/lib/nixos");
    let target_path_2 = Path::new("/sysroot/oldroot/0000000000000001/var/lib/nixos");

    assert_eq!(
        root_path_to_target_path(&root_2, &target_2, &path_2),
        target_path_2,
    );

    assert_eq!(
        target_path_to_root_path(&root_2, &target_2, &target_path_2),
        Some(path_2.clone()),
    );

    let ancestors_2 = top_down(&target_path_2);
    assert_eq!(
        ancestors_2,
        vec![
            Path::new("/"),
            Path::new("/sysroot"),
            Path::new("/sysroot/oldroot"),
            Path::new("/sysroot/oldroot/0000000000000001"),
            Path::new("/sysroot/oldroot/0000000000000001/var"),
            Path::new("/sysroot/oldroot/0000000000000001/var/lib"),
        ],
    );

    assert_eq!(
        ancestors_2
            .iter()
            .map(|parent| target_path_to_root_path(&root_2, &target_2, parent))
            .collect::<Vec<_>>(),
        vec![
            None,
            None,
            None,
            Some(Path::new("/sysroot")),
            Some(Path::new("/sysroot/var")),
            Some(Path::new("/sysroot/var/lib")),
        ],
    );
}
