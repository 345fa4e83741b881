//! Dependency sets: keyed by contract identifier, with the
//! required-before-publish flag upgraded but never downgraded.

use gecko::DependencySet;

#[test]
fn a_recorded_dependency_is_found() {
    let mut s = DependencySet::new();
    s.add_dependency("token".to_string(), false);
    assert_eq!(s.has_dependency(&"token".to_string()), Some(false));
    assert_eq!(s.has_dependency(&"vault".to_string()), None);
    assert_eq!(s.len(), 1);
}

#[test]
fn required_before_publish_overrides() {
    let mut s = DependencySet::new();
    s.add_dependency("token".to_string(), false);
    s.add_dependency("token".to_string(), true);
    assert_eq!(s.has_dependency(&"token".to_string()), Some(true));
    assert_eq!(s.len(), 1);
}

#[test]
fn an_ordinary_dependency_does_not_downgrade() {
    let mut s = DependencySet::new();
    s.add_dependency("token".to_string(), true);
    s.add_dependency("token".to_string(), false);
    assert_eq!(s.has_dependency(&"token".to_string()), Some(true));
    assert_eq!(s.len(), 1);
}

#[test]
fn distinct_contracts_are_kept_apart() {
    let mut s = DependencySet::new();
    s.add_dependency("token".to_string(), false);
    s.add_dependency("vault".to_string(), true);
    assert_eq!(s.len(), 2);
    assert_eq!(s.has_dependency(&"token".to_string()), Some(false));
    assert_eq!(s.has_dependency(&"vault".to_string()), Some(true));
    assert_eq!(s.dependency_at(0).contract_id, "token");
    assert!(s.dependency_at(1).required_before_publish);
}
