use rustic_archiver::path::{split_path, PathError};
use rustic_archiver::backend::{classify_status, is_id_name, range_end, rest_object_path, ErrorClass, FileType, LocalBackend};
use rustic_archiver::command::{latest_matching, SnapshotInfo, choose_parent, delete_option, select_sources, snapshot_path, CommandError, DeleteOption, ParentChoice};
use rustic_archiver::id::Id;

fn id() -> Id {
    Id::from_hex("0123456789abcdef0123456789abcdef0123456789abcdef0123456789abcdef").unwrap()
}

#[test]
fn local_paths_by_kind() {
    let be = LocalBackend::new("/repo");
    let h = "0123456789abcdef0123456789abcdef0123456789abcdef0123456789abcdef";
    assert_eq!(be.path(FileType::Config, &id()), "/repo/config");
    assert_eq!(be.path(FileType::Pack, &id()), format!("/repo/data/01/{h}"));
    assert_eq!(be.path(FileType::Snapshot, &id()), format!("/repo/snapshots/{h}"));
    assert_eq!(be.path(FileType::Index, &id()), format!("/repo/index/{h}"));
    assert_eq!(be.path(FileType::Key, &id()), format!("/repo/keys/{h}"));
}

#[test]
fn rest_paths_by_kind() {
    let h = "0123456789abcdef0123456789abcdef0123456789abcdef0123456789abcdef";
    assert_eq!(rest_object_path(FileType::Config, &id()), "config");
    assert_eq!(rest_object_path(FileType::Pack, &id()), format!("data/{h}"));
    assert_eq!(rest_object_path(FileType::Snapshot, &id()), format!("snapshots/{h}"));
}

#[test]
fn status_classes() {
    assert_eq!(classify_status(200), None);
    assert_eq!(classify_status(304), None);
    assert_eq!(classify_status(404), Some(ErrorClass::Permanent));
    assert_eq!(classify_status(499), Some(ErrorClass::Permanent));
    assert_eq!(classify_status(500), Some(ErrorClass::Transient));
    assert_eq!(classify_status(503), Some(ErrorClass::Transient));
}

#[test]
fn range_ends() {
    assert_eq!(range_end(10, 5), Some(14));
    assert_eq!(range_end(0, 1), Some(0));
    assert_eq!(range_end(7, 0), None);
    assert_eq!(range_end(u32::MAX, u32::MAX), Some(2 * u32::MAX as u64 - 1));
}

#[test]
fn object_names() {
    let h = "0123456789abcdef0123456789abcdef0123456789abcdef0123456789abcdef";
    assert!(is_id_name(h.as_bytes()));
    assert!(!is_id_name(h.to_uppercase().as_bytes()));
    assert!(!is_id_name(&h.as_bytes()[1..]));
    assert!(!is_id_name(b"config"));
}

#[test]
fn parent_choice() {
    assert_eq!(choose_parent(true, false, Some("ab".to_string())), ParentChoice::NoParent);
    assert_eq!(choose_parent(false, true, None), ParentChoice::NoParent);
    assert_eq!(choose_parent(false, false, None), ParentChoice::Latest);
    assert_eq!(choose_parent(false, false, Some("ab".to_string())), ParentChoice::Named("ab".to_string()));
}

#[test]
fn delete_policy() {
    assert_eq!(delete_option(100, true, Some(5)), Ok(DeleteOption::Never));
    assert_eq!(delete_option(100, false, None), Ok(DeleteOption::NotSet));
    assert_eq!(delete_option(100, false, Some(86400)), Ok(DeleteOption::After(86500)));
    assert_eq!(delete_option(i64::MAX - 1, false, Some(2)), Err(CommandError::DeleteAfterOutOfRange));
}

#[test]
fn source_selection() {
    let a = vec!["/a".to_string()];
    let b = vec!["/b".to_string()];
    assert_eq!(select_sources(a.clone(), b.clone()), Some(a));
    assert_eq!(select_sources(Vec::new(), b.clone()), Some(b));
    assert_eq!(select_sources(Vec::new(), Vec::new()), None);
}

#[test]
fn recorded_path_under_as_path() {
    let c = |s: &str| s.as_bytes().to_vec();
    let path = vec![c("home"), c("u"), c("src"), c("f")];
    let backup = vec![c("home"), c("u"), c("src")];
    let as_path = vec![c("data")];
    assert_eq!(snapshot_path(&path, &backup, &as_path), Some(vec![c("data"), c("f")]));
    assert_eq!(snapshot_path(&path, &vec![c("etc")], &as_path), None);
}

#[test]
fn parent_component_is_refused() {
    assert_eq!(split_path(b"a/../b"), Err(PathError::DotComponent));
    assert_eq!(split_path(b"..").unwrap_err(), PathError::DotComponent);
    assert_eq!(split_path(b"/").unwrap(), Vec::<Vec<u8>>::new());
    assert_eq!(split_path(b"./a").unwrap_err(), PathError::DotComponent);
    assert_eq!(split_path(b"a/./b").unwrap_err(), PathError::DotComponent);
    assert_eq!(split_path(b"a/..b/.c").unwrap(), vec![b"a".to_vec(), b"..b".to_vec(), b".c".to_vec()]);
}

#[test]
fn latest_parent_of_same_host_and_path() {
    let info = |h: &str, p: &str, t: i64| SnapshotInfo { hostname: h.to_string(), paths: vec![p.to_string()], time: t };
    let snaps = vec![
        info("a", "/src", 10),
        info("b", "/src", 50),
        info("a", "/src", 30),
        info("a", "/other", 90),
        info("a", "/src", 20),
    ];
    assert_eq!(latest_matching(&snaps, &"a".to_string(), &"/src".to_string()), Some(2));
    assert_eq!(latest_matching(&snaps, &"b".to_string(), &"/src".to_string()), Some(1));
    assert_eq!(latest_matching(&snaps, &"c".to_string(), &"/src".to_string()), None);
    assert_eq!(latest_matching(&Vec::new(), &"a".to_string(), &"/src".to_string()), None);
}

#[test]
fn equally_late_parents_give_the_first() {
    let info = |h: &str, p: &str, t: i64| SnapshotInfo { hostname: h.to_string(), paths: vec![p.to_string()], time: t };
    let snaps = vec![
        info("a", "/src", 10),
        info("a", "/src", 40),
        info("a", "/src", 40),
    ];
    assert_eq!(latest_matching(&snaps, &"a".to_string(), &"/src".to_string()), Some(1));
}
