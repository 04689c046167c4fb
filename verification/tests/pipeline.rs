use rtree::entry::Entry;
use rtree::filter::{find_matches, is_match_or_parent};
use rtree::pipeline::{build_tree, TreeError};
use rtree::segments::{contains_substring, split_segments};
use rtree::tree::TreeNode;

fn entry(name: &str, path: &str, dir: bool) -> Entry {
    Entry { name: name.to_string(), path: path.to_string(), is_directory: dir }
}

fn segs(parts: &[&str]) -> Vec<String> {
    parts.iter().map(|s| s.to_string()).collect()
}

fn sample_entries() -> Vec<Entry> {
    vec![
        entry("root", "root", true),
        entry("a", "root/a", true),
        entry("x.txt", "root/a/x.txt", false),
        entry("b", "root/b", true),
    ]
}

fn ok_tree(r: Result<TreeNode, TreeError>) -> TreeNode {
    match r {
        Ok(t) => t,
        Err(e) => panic!("expected a tree, got {:?}", e),
    }
}

#[test]
fn unfiltered_tree_has_one_node_per_entry() {
    let t = ok_tree(build_tree(&sample_entries(), &None, &None));
    assert_eq!(t.label, "root");
    assert!(t.has_node(&segs(&["a"])));
    assert!(t.has_node(&segs(&["a", "x.txt"])));
    assert!(t.has_node(&segs(&["b"])));
    assert!(!t.has_node(&segs(&["c"])));
    assert_eq!(t.collect_labels().len(), 4);
}

#[test]
fn rendering_lists_labels_depth_first_in_insertion_order() {
    let t = ok_tree(build_tree(&sample_entries(), &None, &None));
    let labels = t.collect_labels();
    assert_eq!(labels, segs(&["root", "a", "x.txt", "b"]));
}

#[test]
fn non_matching_pattern_keeps_only_the_root() {
    let t = ok_tree(build_tree(&sample_entries(), &Some("zzz".to_string()), &None));
    assert_eq!(t.label, "root");
    assert!(!t.has_node(&segs(&["a"])));
    assert!(!t.has_node(&segs(&["b"])));
    assert_eq!(t.collect_labels().len(), 1);
}

#[test]
fn empty_pattern_means_no_filtering() {
    let t = ok_tree(build_tree(&sample_entries(), &Some(String::new()), &None));
    assert_eq!(t.collect_labels().len(), 4);
}

#[test]
fn ancestors_of_a_match_are_kept() {
    let matched = vec!["root/a/x.txt".to_string()];
    assert!(is_match_or_parent("root", &matched));
    assert!(is_match_or_parent("root/a", &matched));
    assert!(is_match_or_parent("root/a/x.txt", &matched));
    assert!(!is_match_or_parent("root/b", &matched));
}

#[test]
fn ancestor_test_is_substring_based_and_can_false_positive() {
    // "ot/x" is no ancestor of "root/xyz", yet it occurs inside it.
    let matched = vec!["root/xyz".to_string()];
    assert!(is_match_or_parent("ot/x", &matched));
    assert!(contains_substring("ot/x", "root/xyz"));
}

#[test]
fn inclusion_scenario_keeps_match_and_ancestors_only() {
    let t = ok_tree(build_tree(&sample_entries(), &Some("*x.txt".to_string()), &None));
    assert_eq!(t.label, "root");
    assert!(t.has_node(&segs(&["a"])));
    assert!(t.has_node(&segs(&["a", "x.txt"])));
    assert!(!t.has_node(&segs(&["b"])));
    assert_eq!(t.collect_labels().len(), 3);
}

#[test]
fn exclusion_is_direct_match_only() {
    // The exclusion pattern matches the directory but not its child...
    let p = glob::Pattern::new("root/a").unwrap();
    assert!(p.matches("root/a"));
    assert!(!p.matches("root/a/x.txt"));
}

#[test]
fn excluded_directory_orphans_its_children() {
    // ...yet the child disappears too, because its parent node is gone.
    let t = ok_tree(build_tree(&sample_entries(), &None, &Some("root/a".to_string())));
    assert!(!t.has_node(&segs(&["a"])));
    assert!(!t.has_node(&segs(&["a", "x.txt"])));
    assert!(t.has_node(&segs(&["b"])));
    assert_eq!(t.collect_labels().len(), 2);
}

#[test]
fn orphan_without_parent_is_dropped_silently() {
    let entries = vec![
        entry("root", "root", true),
        entry("deep", "root/missing/deep", false),
    ];
    let t = ok_tree(build_tree(&entries, &None, &None));
    assert!(!t.has_node(&segs(&["missing"])));
    assert!(!t.has_node(&segs(&["missing", "deep"])));
    assert_eq!(t.collect_labels().len(), 1);
}

#[test]
fn duplicate_name_replaces_and_drops_old_subtree() {
    let mut t = TreeNode::new("root".to_string());
    t.insert_at_path("root/a", "a".to_string());
    t.insert_at_path("root/a/b", "b".to_string());
    assert!(t.has_node(&segs(&["a", "b"])));
    t.insert_at_path("root/a", "a".to_string());
    assert!(t.has_node(&segs(&["a"])));
    assert!(!t.has_node(&segs(&["a", "b"])));
    assert_eq!(t.collect_labels().len(), 2);
}

#[test]
fn duplicate_entry_through_the_pipeline() {
    let entries = vec![
        entry("root", "root", true),
        entry("a", "root/a", true),
        entry("b", "root/a/b", false),
        entry("a", "root/a", true),
    ];
    let t = ok_tree(build_tree(&entries, &None, &None));
    assert!(t.has_node(&segs(&["a"])));
    assert!(!t.has_node(&segs(&["a", "b"])));
    assert_eq!(t.collect_labels().len(), 2);
}

#[test]
fn path_addressing_the_root_is_ignored() {
    let mut t = TreeNode::new("root".to_string());
    t.insert_at_path("root", "root".to_string());
    assert_eq!(t.collect_labels().len(), 1);
}

#[test]
fn invalid_inclusion_pattern_is_reported_first() {
    let r = build_tree(&sample_entries(), &Some("[".to_string()), &Some("[".to_string()));
    match r {
        Err(e) => assert_eq!(e, TreeError::InvalidPattern),
        Ok(_) => panic!("expected an error"),
    }
}

#[test]
fn invalid_exclusion_pattern_is_reported() {
    let r = build_tree(&sample_entries(), &None, &Some("[".to_string()));
    match r {
        Err(e) => assert_eq!(e, TreeError::InvalidExclude),
        Ok(_) => panic!("expected an error"),
    }
}

#[test]
fn empty_traversal_is_fatal() {
    let r = build_tree(&Vec::new(), &None, &None);
    match r {
        Err(e) => assert_eq!(e, TreeError::EmptyTraversal),
        Ok(_) => panic!("expected an error"),
    }
}

#[test]
fn find_matches_picks_exactly_the_matching_paths() {
    let entries = vec![
        entry("root", "root", true),
        entry("a.txt", "root/a.txt", false),
        entry("b.rs", "root/b.rs", false),
    ];
    let matched = find_matches("*.txt", &entries);
    assert_eq!(matched, vec!["root/a.txt".to_string()]);
}

#[test]
fn split_segments_follows_the_slashes() {
    assert_eq!(split_segments("root/a/b"), segs(&["root", "a", "b"]));
    assert_eq!(split_segments("root"), segs(&["root"]));
    assert_eq!(split_segments(""), segs(&[""]));
    assert_eq!(split_segments("a//b"), segs(&["a", "", "b"]));
    assert_eq!(split_segments("a/"), segs(&["a", ""]));
}

#[test]
fn substring_test_edges() {
    assert!(contains_substring("", "anything"));
    assert!(contains_substring("abc", "abc"));
    assert!(!contains_substring("abcd", "abc"));
    assert!(contains_substring("b/c", "a/b/c"));
    assert!(!contains_substring("ac", "abc"));
}
