use eyd::keep::{normalize_keep, rebase_under, KeepSet};
use eyd::path::Path;

fn set(paths: &[&str]) -> KeepSet {
    KeepSet::from_paths(paths.iter().map(|p| Path::new(p)).collect())
}

fn paths(texts: &[&str]) -> Vec<Path> {
    texts.iter().map(|t| Path::new(t)).collect()
}

#[test]
fn entries_are_moved_under_the_root() {
    assert_eq!(
        rebase_under(&Path::new("/sysroot"), &Path::new("/var/log")),
        Path::new("/sysroot/var/log")
    );
    assert_eq!(
        rebase_under(&Path::new("/sysroot"), &Path::new("var/log")),
        Path::new("/sysroot/var/log")
    );
    assert_eq!(
        rebase_under(&Path::new("/"), &Path::new("/oldroot")),
        Path::new("/oldroot")
    );
    assert_eq!(
        rebase_under(&Path::new("/sysroot"), &Path::new("/")),
        Path::new("/sysroot")
    );
}

#[test]
fn the_target_is_always_kept() {
    assert_eq!(
        normalize_keep(
            &Path::new("/sysroot"),
            &Path::new("/oldroot"),
            vec![],
            KeepSet::new()
        ),
        set(&["/sysroot/oldroot"])
    );
}

#[test]
fn mount_points_outside_the_root_are_left_out() {
    assert_eq!(
        normalize_keep(
            &Path::new("/sysroot"),
            &Path::new("/oldroot"),
            paths(&["/", "/proc", "/sysroot", "/sysroot/proc", "/sysrootx/run", "/sys"]),
            KeepSet::new()
        ),
        set(&["/sysroot/oldroot", "/sysroot/proc"])
    );
}

#[test]
fn mount_points_are_not_moved_under_the_root() {
    assert_eq!(
        normalize_keep(
            &Path::new("/sysroot"),
            &Path::new("/oldroot"),
            paths(&["/sysroot/run", "/run"]),
            set(&["/run/lock"])
        ),
        set(&["/sysroot/oldroot", "/sysroot/run"])
    );
}

#[test]
fn no_member_lies_below_another() {
    let keep = normalize_keep(
        &Path::new("/"),
        &Path::new("/oldroot"),
        paths(&["/", "/var/lib/docker", "/run", "/run/user/1000", "/oldroot/mnt"]),
        set(&[
            "/var/log",
            "/var/log/journal",
            "/var/lib",
            "/etc/ssh/key",
            "/etc/ssh/key.pub",
            "etc/ssh",
            "/home",
        ]),
    );
    assert_eq!(
        keep,
        set(&["/oldroot", "/run", "/var/log", "/var/lib", "/etc/ssh", "/home"])
    );
    let members = keep.to_vec();
    for a in &members {
        for b in &members {
            assert!(a == b || !a.starts_with(b));
        }
    }
}

#[test]
fn names_with_a_common_beginning_are_no_ancestors() {
    assert_eq!(
        normalize_keep(
            &Path::new("/"),
            &Path::new("/oldroot"),
            vec![],
            set(&["/var/log", "/var/loga", "/var/lo"])
        ),
        set(&["/oldroot", "/var/log", "/var/loga", "/var/lo"])
    );
}

#[test]
fn a_kept_root_covers_everything() {
    assert_eq!(
        normalize_keep(
            &Path::new("/sysroot"),
            &Path::new("/oldroot"),
            paths(&["/sysroot/run"]),
            set(&["/", "/var"])
        ),
        set(&["/sysroot"])
    );
}
