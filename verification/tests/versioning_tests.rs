use sapper::versioning::{check_compatibility, find_version_path, get_outdated_versions, version_history};

#[test]
fn test_same_version() {
    let (compatible, needs_update) = check_compatibility("0.3.0", "0.3.0");
    assert!(compatible);
    assert!(!needs_update);
}

#[test]
fn test_compatible_upgrade() {
    let (compatible, needs_update) = check_compatibility("0.1.0", "0.2.0");
    assert!(compatible);
    assert!(needs_update);
}

#[test]
fn test_incompatible_upgrade() {
    let (compatible, needs_update) = check_compatibility("0.2.0", "0.3.0");
    assert!(!compatible);
    assert!(needs_update);
}

#[test]
fn test_incompatible_chain() {
    // 0.1.0 -> 0.2.0 (compatible) -> 0.3.0 (incompatible)
    let (compatible, needs_update) = check_compatibility("0.1.0", "0.3.0");
    assert!(!compatible);
    assert!(needs_update);
}

#[test]
fn test_compatible_chain() {
    // 0.3.0 -> 0.3.1 (compatible)
    let (compatible, needs_update) = check_compatibility("0.3.0", "0.3.1");
    assert!(compatible);
    assert!(needs_update);
}

#[test]
fn test_unknown_version() {
    let (compatible, needs_update) = check_compatibility("0.0.1", "0.3.0");
    assert!(!compatible);
    assert!(needs_update);
}

#[test]
fn test_version_history_shape() {
    let history = version_history();
    assert_eq!(history.len(), 3);
    assert_eq!(history[0].from, "0.1.0");
    assert_eq!(history[0].to, "0.2.0");
    assert_eq!(history[2].from, "0.3.0");
    assert_eq!(history[2].to, "0.3.1");
}

#[test]
fn test_find_version_path_direct() {
    let (found, has_incompatible) = find_version_path("0.1.0", "0.2.0");
    assert!(found);
    assert!(!has_incompatible);
    let (found, has_incompatible) = find_version_path("0.2.0", "0.3.1");
    assert!(found);
    assert!(has_incompatible);
    let (found, has_incompatible) = find_version_path("0.3.1", "0.1.0");
    assert!(!found);
    assert!(!has_incompatible);
}

#[test]
fn test_outdated_versions() {
    let outdated = get_outdated_versions();
    assert!(outdated.iter().any(|v| v == "0.1.0"));
    assert!(outdated.iter().any(|v| v == "0.2.0"));
    assert!(outdated.iter().any(|v| v == "0.3.1"));
    assert!(!outdated.iter().any(|v| v == "0.3.0"));
    assert_eq!(outdated.len(), 3);
}
