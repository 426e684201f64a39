use arfrigate::ignore::tree::{
    IgnoreMatchPattern, IgnoreMatchPatternType, IgnoreTreeNode, IgnoreTreePattern,
};

#[test]
fn test_pattern_matching() {
    let pattern: IgnoreMatchPattern = IgnoreMatchPattern::new(String::from("*abc*df*"));
    assert_eq!(pattern.get_pattern().len(), 5);
    assert!(pattern.match_pattern("2342abcaasdfffss"));
    assert!(pattern.match_pattern("abcdf"));
    assert!(pattern.match_pattern("ddaaeeabcdf3d2"));
    assert!(pattern.match_pattern("abc33e3ddf"));
    assert!(!pattern.match_pattern("abcd"));
}

#[test]
fn test_special_matching() {
    let pattern: IgnoreMatchPattern = IgnoreMatchPattern::new(String::from("*"));
    assert_eq!(pattern.get_pattern().len(), 1);
    assert!(pattern.match_pattern(""));
    assert!(pattern.match_pattern("*"));
    assert!(pattern.match_pattern("abcdf"));
    let pattern: IgnoreMatchPattern = IgnoreMatchPattern::new(String::from(""));
    assert_eq!(pattern.get_pattern().len(), 0);
    assert!(pattern.match_pattern(""));
    assert!(!pattern.match_pattern("*"));
}

#[test]
fn test_corner_matching() {
    let pattern = IgnoreMatchPattern::new(String::from("abc"));
    assert!(pattern.match_pattern("abc"));
    assert!(!pattern.match_pattern("abcd"));
    let pattern = IgnoreMatchPattern::new(String::from("abcdefg"));
    assert!(pattern.match_pattern("abcdefg"));
    assert!(!pattern.match_pattern("abcd"));
    let pattern = IgnoreMatchPattern::new(String::from("a*c"));
    assert!(pattern.match_pattern("abc"));
}

#[test]
fn test_compile_counts() {
    assert_eq!(IgnoreMatchPattern::new(String::from("")).get_pattern().len(), 0);
    assert_eq!(IgnoreMatchPattern::new(String::from("*")).get_pattern().len(), 1);
    assert_eq!(IgnoreMatchPattern::new(String::from("abc")).get_pattern().len(), 1);
    assert_eq!(IgnoreMatchPattern::new(String::from("a*c")).get_pattern().len(), 3);
    assert_eq!(IgnoreMatchPattern::new(String::from("*abc*df*")).get_pattern().len(), 5);
    assert_eq!(IgnoreMatchPattern::new(String::from("a**c")).get_pattern().len(), 3);
}

#[test]
fn test_compile_tokens() {
    let pattern = IgnoreMatchPattern::new(String::from("a*c"));
    let tokens = pattern.get_pattern();
    assert!(matches!(&tokens[0], IgnoreMatchPatternType::Strict(s) if s == "a"));
    assert!(matches!(&tokens[1], IgnoreMatchPatternType::Wildcard));
    assert!(matches!(&tokens[2], IgnoreMatchPatternType::Strict(s) if s == "c"));
    let pattern = IgnoreMatchPattern::new(String::from("abc"));
    let tokens = pattern.get_pattern();
    assert!(matches!(&tokens[0], IgnoreMatchPatternType::Strict(s) if s == "abc"));
}

#[test]
fn test_get_original_pattern() {
    let pattern = IgnoreMatchPattern::new(String::from("*abc*df*"));
    assert_eq!(pattern.get_original_pattern(), "*abc*df*");
}

#[test]
fn test_tree_pattern_component() {
    assert!(IgnoreTreePattern::WildCardAll.match_pattern("anything"));
    assert!(IgnoreTreePattern::WildCardAll.match_pattern(""));
    let regular = IgnoreTreePattern::Regular(IgnoreMatchPattern::new(String::from("a*c")));
    assert!(regular.match_pattern("abc"));
    assert!(!regular.match_pattern("abd"));
}

#[test]
fn test_insert_idempotent() {
    let mut once = IgnoreTreeNode::new();
    once.add_path("src/**");
    once.add_path("!secret.txt");
    let mut twice = IgnoreTreeNode::new();
    twice.add_path("src/**");
    twice.add_path("src/**");
    twice.add_path("!secret.txt");
    twice.add_path("!secret.txt");
    for path in ["src/lib/mod.x", "src/a", "secret.txt", "docs/readme", "src"] {
        assert_eq!(once.match_pattern(path), twice.match_pattern(path));
    }
}

#[test]
fn test_double_star_depth_spanning() {
    let mut tree = IgnoreTreeNode::new();
    tree.add_path("**/x");
    assert!(tree.match_pattern("x"));
    assert!(tree.match_pattern("a/x"));
    assert!(tree.match_pattern("a/b/x"));
    assert!(!tree.match_pattern("y"));
}

#[test]
fn test_whitelist_with_exclusion() {
    let mut tree = IgnoreTreeNode::new();
    tree.add_path("*.txt");
    tree.add_path("!secret.txt");
    assert!(tree.match_pattern("a.txt"));
    assert!(!tree.match_pattern("secret.txt"));
    assert!(!tree.match_pattern("a.md"));
}

#[test]
fn test_directory_prefix_rule() {
    let mut tree = IgnoreTreeNode::new();
    tree.add_path("src/**");
    assert!(tree.match_pattern("src/lib/mod.x"));
    assert!(!tree.match_pattern("docs/readme"));
}

#[test]
fn test_default_deny() {
    let tree = IgnoreTreeNode::new();
    assert!(!tree.match_pattern("anything"));
    let mut excludes_only = IgnoreTreeNode::new();
    excludes_only.add_path("!x");
    assert!(!excludes_only.match_pattern("x"));
    assert!(!excludes_only.match_pattern("y"));
}

#[test]
fn test_double_star_leaf_keeps_everything() {
    let mut tree = IgnoreTreeNode::new();
    tree.add_path("**");
    assert!(tree.match_pattern("a"));
    assert!(tree.match_pattern("a/b"));
    assert!(tree.match_pattern("a/b/c"));
}

#[test]
fn test_multi_level_exact_rule() {
    let mut tree = IgnoreTreeNode::new();
    tree.add_path("a/b");
    assert!(tree.match_pattern("a/b"));
    assert!(!tree.match_pattern("a"));
    assert!(!tree.match_pattern("a/b/c"));
    assert!(!tree.match_pattern("b/b"));
}

#[test]
fn test_nested_exclusion() {
    let mut tree = IgnoreTreeNode::new();
    tree.add_path("logs/*");
    tree.add_path("!logs/keep");
    assert!(tree.match_pattern("logs/old"));
    assert!(!tree.match_pattern("logs/keep"));
}

#[test]
fn test_empty_rule_is_noop() {
    let mut tree = IgnoreTreeNode::new();
    tree.add_path("");
    assert!(!tree.match_pattern("a"));
    tree.add_path("a");
    assert!(tree.match_pattern("a"));
}

#[test]
fn test_double_star_child_matches_suffix_only() {
    let mut tree = IgnoreTreeNode::new();
    tree.add_path("**/x");
    assert!(!tree.match_pattern("a/x/b"));
    assert!(!tree.match_pattern("x/b"));
}

#[test]
fn test_double_star_exclusion_rejects_everything() {
    let mut tree = IgnoreTreeNode::new();
    tree.add_path("**");
    tree.add_path("!**");
    assert!(!tree.match_pattern("a"));
    assert!(!tree.match_pattern("a/b/c"));
}
