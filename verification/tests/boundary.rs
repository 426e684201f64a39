use arfrigate::filter::IgnoreFilter;
use arfrigate::{validate_path, validate_pattern, IgnoreError};

#[test]
fn test_validate_path() {
    assert_eq!(validate_path("a/b"), Ok(()));
    assert_eq!(validate_path("a.txt"), Ok(()));
    assert_eq!(validate_path(""), Err(IgnoreError::InvalidPath));
    assert_eq!(validate_path("/a"), Err(IgnoreError::InvalidPath));
    assert_eq!(validate_path("a/"), Err(IgnoreError::InvalidPath));
    assert_eq!(validate_path("a//b"), Err(IgnoreError::InvalidPath));
}

#[test]
fn test_validate_pattern() {
    assert_eq!(validate_pattern("*.txt"), Ok(()));
    assert_eq!(validate_pattern("!secret.txt"), Ok(()));
    assert_eq!(validate_pattern("src/**"), Ok(()));
    assert_eq!(validate_pattern(""), Ok(()));
    assert_eq!(validate_pattern("!"), Err(IgnoreError::InvalidPattern));
    assert_eq!(validate_pattern("a//b"), Err(IgnoreError::InvalidPattern));
    assert_eq!(validate_pattern("/a"), Err(IgnoreError::InvalidPattern));
}

#[test]
fn test_filter_returns_candidates() {
    let filter = IgnoreFilter::new_str(vec![String::from("a"), String::from("b/c")]);
    assert_eq!(filter.filter(), vec![String::from("a"), String::from("b/c")]);
    let filter = IgnoreFilter::new(vec![String::from("x")]);
    assert_eq!(filter.filter(), vec![String::from("x")]);
}
