use std::cmp::Ordering;

use nyoom::classify::{classify, mode_is_dir};
use nyoom::path::{check_entry_name, compare_paths, copy_path, join_child, same_path, SEPARATOR};
use nyoom::{Classification, StatOutcome, WalkError, Walker};

fn s(p: &str) -> Vec<u8> {
    p.as_bytes().to_vec()
}

#[test]
fn join_child_appends_separator_and_name() {
    assert_eq!(join_child(&s("/a/b"), &s("c")), s("/a/b/c"));
    assert_eq!(join_child(&s("."), &s("x.txt")), s("./x.txt"));
    assert_eq!(join_child(&s(""), &s("n")), s("/n"));
    assert_eq!(SEPARATOR, b'/');
}

#[test]
fn entry_names() {
    assert!(check_entry_name(&s("file.txt")));
    assert!(!check_entry_name(&s("")));
    assert!(!check_entry_name(&s("a/b")));
    assert!(!check_entry_name(&s("/")));
}

#[test]
fn path_equality_and_copy() {
    assert!(same_path(&s("root/a"), &s("root/a")));
    assert!(!same_path(&s("root/a"), &s("root/b")));
    assert!(!same_path(&s("root"), &s("root/")));
    assert_eq!(copy_path(&s("abc")), s("abc"));
}

#[test]
fn byte_order_of_paths() {
    assert_eq!(compare_paths(&s("root"), &s("root/a")), Ordering::Less);
    assert_eq!(compare_paths(&s("root/b"), &s("root/a")), Ordering::Greater);
    assert_eq!(compare_paths(&s("root/a"), &s("root/a")), Ordering::Equal);
    assert_eq!(compare_paths(&s("a/z"), &s("a0")), Ordering::Less);
    assert_eq!(compare_paths(&s(""), &s("a")), Ordering::Less);
}

#[test]
fn classify_by_mode() {
    assert!(mode_is_dir(0o040755));
    assert!(!mode_is_dir(0o100644));
    assert!(!mode_is_dir(0o120777));
    assert!(!mode_is_dir(0o060660));
    assert_eq!(classify(StatOutcome::Mode(0o040700)), Ok(Classification::Directory));
    assert_eq!(classify(StatOutcome::Mode(0o100600)), Ok(Classification::NonDirectory));
    assert_eq!(classify(StatOutcome::Mode(0o120777)), Ok(Classification::NonDirectory));
    assert_eq!(classify(StatOutcome::Mode(0o140755)), Ok(Classification::NonDirectory));
}

#[test]
fn classify_errors() {
    assert_eq!(classify(StatOutcome::AccessDenied), Ok(Classification::Inaccessible));
    assert_eq!(classify(StatOutcome::NotFound), Ok(Classification::Inaccessible));
    assert_eq!(classify(StatOutcome::Failed(40)), Err(WalkError::StatFailed(40)));
}

#[test]
fn walker_threads() {
    assert_eq!(Walker::new(3).num_threads(), 3);
    assert!(Walker::default().num_threads() >= 1);
}
