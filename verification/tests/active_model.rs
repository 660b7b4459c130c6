use kx_gateway::active_model::{ActiveModel, ActiveModelError};
use kx_gateway::journal::pending_page;

fn served(ids: &[&str]) -> Vec<String> {
    ids.iter().map(|s| s.to_string()).collect()
}

#[test]
fn set_active_validates_against_the_served_catalog() {
    let catalog = served(&["a", "b"]);
    let mut am = ActiveModel::new();
    assert!(am.get().is_none());
    assert_eq!(am.set("b", &catalog).unwrap(), Some("b".to_string()));
    assert_eq!(am.get(), Some("b".to_string()));
    assert_eq!(am.set("", &catalog).unwrap(), None);
    assert!(am.get().is_none());
    am.set("a", &catalog).unwrap();
    assert!(matches!(am.set("nope", &catalog).unwrap_err(), ActiveModelError::NotFound(_)));
    assert_eq!(am.get(), Some("a".to_string()));
}

#[test]
fn active_validates_a_runtime_registered_model() {
    let mut catalog = served(&["a"]);
    let mut am = ActiveModel::new();
    assert!(am.set("pulled", &catalog).is_err());
    catalog.push("pulled".to_string());
    assert_eq!(am.set("pulled", &catalog).unwrap(), Some("pulled".to_string()));
}

#[test]
fn the_active_id_is_trimmed_and_whitespace_clears_it() {
    let catalog = served(&["late"]);
    let mut am = ActiveModel::new();
    assert_eq!(am.set("  late ", &catalog).unwrap(), Some("late".to_string()));
    assert_eq!(am.set("   ", &catalog).unwrap(), None);
    assert_eq!(
        am.set("x", &catalog).unwrap_err(),
        ActiveModelError::NotFound("model not in the served catalog".to_string())
    );
}

#[test]
fn pending_approvals_are_capped_by_a_positive_limit() {
    assert_eq!(pending_page(vec![1, 2, 3], 2), vec![1, 2]);
    assert_eq!(pending_page(vec![1, 2, 3], 0), vec![1, 2, 3], "0 lists everything");
    assert_eq!(pending_page(vec![1, 2, 3], 5), vec![1, 2, 3]);
}
