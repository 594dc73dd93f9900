use pack::version::{compare, order_satisfies, satisfies};
use std::cmp::Ordering;

#[test]
fn release_is_newer_than_its_candidate() {
    assert_eq!(compare("1.0", "1.0~rc1"), Some(Ordering::Greater));
}

#[test]
fn epoch_dominates() {
    assert_eq!(compare("1:0.9", "2.0"), Some(Ordering::Greater));
    assert_eq!(compare("2.0", "1:0.9"), Some(Ordering::Less));
    assert_eq!(compare("0:2.0", "2.0"), Some(Ordering::Equal));
}

#[test]
fn newer_version_satisfies_at_least() {
    assert_eq!(satisfies("2.0", ">=", "1.9"), Some(true));
}

#[test]
fn equal_versions() {
    assert_eq!(compare("3.0", "3.0"), Some(Ordering::Equal));
    assert_eq!(satisfies("3.0", "=", "3.0"), Some(true));
    assert_eq!(satisfies("3.0", "<<", "3.0"), Some(false));
    assert_eq!(satisfies("3.0", ">>", "3.0"), Some(false));
    assert_eq!(satisfies("3.0", "<=", "3.0"), Some(true));
}

#[test]
fn versions_outside_ascii_are_not_compared() {
    assert_eq!(compare("1.0\u{e9}1", "1.0"), None);
    assert_eq!(satisfies("1.0", "=", "\u{e9}"), None);
}

#[test]
fn operators_are_read_by_their_ends() {
    assert!(order_satisfies(Ordering::Less, "<<"));
    assert!(order_satisfies(Ordering::Less, "<="));
    assert!(!order_satisfies(Ordering::Less, "="));
    assert!(!order_satisfies(Ordering::Less, ""));
    assert!(order_satisfies(Ordering::Greater, ">>"));
    assert!(!order_satisfies(Ordering::Greater, "<="));
    assert!(order_satisfies(Ordering::Equal, ">="));
    assert!(!order_satisfies(Ordering::Equal, ">>"));
}
