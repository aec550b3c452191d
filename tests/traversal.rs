use std::collections::HashMap;

use cache_finder::{
    bytes_to_mb, contains_pattern, get_size_sum, is_cache_path, is_large_dir, sort_by_size_desc,
    total_file_size, CacheFolderInfo, CacheSearchingResult, CacheTraversal, DirChild, Step,
};

const MIB: u64 = 1024 * 1024;
const THRESHOLD: u64 = 100 * MIB;

/// An in-memory directory tree: the listing of each readable directory and
/// the total size under every path.
struct Tree {
    listings: HashMap<String, Vec<String>>,
    sizes: HashMap<String, u64>,
}

impl Tree {
    fn new() -> Tree {
        Tree { listings: HashMap::new(), sizes: HashMap::new() }
    }

    fn dir(&mut self, path: &str, size: u64, children: &[&str]) {
        self.sizes.insert(path.to_string(), size);
        self.listings.insert(path.to_string(), children.iter().map(|c| c.to_string()).collect());
    }

    fn unreadable(&mut self, path: &str, size: u64) {
        self.sizes.insert(path.to_string(), size);
    }

    fn entries(&self, path: &str) -> Option<Vec<DirChild>> {
        self.listings.get(path).map(|children| {
            children
                .iter()
                .map(|c| DirChild::new(c.clone(), *self.sizes.get(c).unwrap_or(&0)))
                .collect()
        })
    }
}

/// Runs a whole search over the tree, recording which paths were visited.
fn search(tree: &Tree, roots: &[&str]) -> (CacheSearchingResult, Vec<String>) {
    let mut t = CacheTraversal::new(THRESHOLD, "cache");
    for r in roots {
        if let Some(children) = tree.entries(r) {
            t.push_children_to_stack(&children);
        }
    }
    let mut visited = Vec::new();
    loop {
        match t.next_step() {
            Step::Done => break,
            Step::Measure(p) => {
                visited.push(p.clone());
                t.record_match(*tree.sizes.get(&p).unwrap_or(&0));
            }
            Step::Expand(p) => {
                visited.push(p.clone());
                if let Some(children) = tree.entries(&p) {
                    t.push_children_to_stack(&children);
                }
            }
        }
    }
    assert!(t.is_finished());
    (t.into_result(), visited)
}

fn pairs(folders: &[CacheFolderInfo]) -> Vec<(String, u64)> {
    let mut v: Vec<(String, u64)> = folders.iter().map(|f| (f.path.clone(), f.size)).collect();
    v.sort();
    v
}

#[test]
fn scenario_large_cache_is_found_small_dir_skipped() {
    let mut tree = Tree::new();
    tree.dir("root", 160 * MIB, &["root/bigcache", "root/small"]);
    tree.dir("root/bigcache", 150 * MIB, &["root/bigcache/a"]);
    tree.dir("root/bigcache/a", 150 * MIB, &[]);
    tree.dir("root/small", 10 * MIB, &[]);
    let (result, visited) = search(&tree, &["root"]);
    assert_eq!(pairs(&result.folders), vec![("root/bigcache".to_string(), 150 * MIB)]);
    assert!(!visited.contains(&"root/small".to_string()));
    assert!(!visited.contains(&"root/bigcache/a".to_string()));
}

#[test]
fn scenario_nested_cache_case_insensitive() {
    let mut tree = Tree::new();
    tree.dir("root", 250 * MIB, &["root/big"]);
    tree.dir("root/big", 250 * MIB, &["root/big/Cache", "root/big/other"]);
    tree.dir("root/big/Cache", 200 * MIB, &[]);
    tree.dir("root/big/other", 40 * MIB, &[]);
    let (result, visited) = search(&tree, &["root"]);
    assert_eq!(pairs(&result.folders), vec![("root/big/Cache".to_string(), 200 * MIB)]);
    assert!(visited.contains(&"root/big".to_string()));
    assert!(!visited.contains(&"root/big/other".to_string()));
}

#[test]
fn scenario_unreadable_subdirectory_is_dropped() {
    let mut tree = Tree::new();
    tree.dir("root", 400 * MIB, &["root/big"]);
    tree.dir("root/big", 400 * MIB, &["root/big/locked", "root/big/webcache"]);
    tree.unreadable("root/big/locked", 0);
    tree.dir("root/big/webcache", 300 * MIB, &[]);
    let (result, _) = search(&tree, &["root"]);
    assert_eq!(pairs(&result.folders), vec![("root/big/webcache".to_string(), 300 * MIB)]);
}

#[test]
fn unreadable_large_directory_yields_nothing() {
    let mut tree = Tree::new();
    tree.dir("root", 400 * MIB, &["root/locked"]);
    tree.unreadable("root/locked", 400 * MIB);
    let (result, visited) = search(&tree, &["root"]);
    assert!(result.folders.is_empty());
    assert_eq!(visited, vec!["root/locked".to_string()]);
}

#[test]
fn unreadable_root_yields_nothing() {
    let tree = Tree::new();
    let (result, visited) = search(&tree, &["missing"]);
    assert!(result.folders.is_empty());
    assert!(visited.is_empty());
}

#[test]
fn size_at_threshold_is_pruned() {
    let mut tree = Tree::new();
    tree.dir("root", 300 * MIB, &["root/cache_exact", "root/cache_above"]);
    tree.dir("root/cache_exact", THRESHOLD, &[]);
    tree.dir("root/cache_above", THRESHOLD + 1, &[]);
    let (result, visited) = search(&tree, &["root"]);
    assert_eq!(pairs(&result.folders), vec![("root/cache_above".to_string(), THRESHOLD + 1)]);
    assert!(!visited.contains(&"root/cache_exact".to_string()));
}

#[test]
fn match_is_not_descended_into() {
    let mut tree = Tree::new();
    tree.dir("root", 500 * MIB, &["root/cache"]);
    tree.dir("root/cache", 500 * MIB, &["root/cache/inner_cache"]);
    tree.dir("root/cache/inner_cache", 400 * MIB, &[]);
    let (result, visited) = search(&tree, &["root"]);
    assert_eq!(pairs(&result.folders), vec![("root/cache".to_string(), 500 * MIB)]);
    assert_eq!(visited, vec!["root/cache".to_string()]);
}

#[test]
fn ancestor_component_counts_as_match() {
    let mut tree = Tree::new();
    tree.dir("root", 500 * MIB, &["root/mycacheddata"]);
    tree.dir("root/mycacheddata", 500 * MIB, &[]);
    let (result, _) = search(&tree, &["root"]);
    assert_eq!(pairs(&result.folders), vec![("root/mycacheddata".to_string(), 500 * MIB)]);
}

#[test]
fn two_runs_report_the_same_matches() {
    let mut tree = Tree::new();
    tree.dir("root", 900 * MIB, &["root/a", "root/b_cache"]);
    tree.dir("root/a", 600 * MIB, &["root/a/x_cache", "root/a/y_cache"]);
    tree.dir("root/a/x_cache", 300 * MIB, &[]);
    tree.dir("root/a/y_cache", 250 * MIB, &[]);
    tree.dir("root/b_cache", 200 * MIB, &[]);
    let (first, _) = search(&tree, &["root"]);
    let (second, _) = search(&tree, &["root"]);
    assert_eq!(pairs(&first.folders), pairs(&second.folders));
    assert_eq!(first.folders.len(), 3);
}

#[test]
fn several_roots_are_all_searched() {
    let mut tree = Tree::new();
    tree.dir("r1", 200 * MIB, &["r1/cache"]);
    tree.dir("r1/cache", 200 * MIB, &[]);
    tree.dir("r2", 300 * MIB, &["r2/Temp_Cache"]);
    tree.dir("r2/Temp_Cache", 300 * MIB, &[]);
    let (result, _) = search(&tree, &["r1", "r2"]);
    assert_eq!(
        pairs(&result.folders),
        vec![("r1/cache".to_string(), 200 * MIB), ("r2/Temp_Cache".to_string(), 300 * MIB)]
    );
}

#[test]
fn record_without_pending_match_does_nothing() {
    let mut t = CacheTraversal::new(THRESHOLD, "cache");
    t.record_match(5);
    assert!(t.is_finished());
    assert!(t.into_result().folders.is_empty());
}

#[test]
fn push_keeps_only_large_entries_in_order() {
    let mut t = CacheTraversal::new(10, "cache");
    t.push_children_to_stack(&vec![
        DirChild::new("a".to_string(), 11),
        DirChild::new("b".to_string(), 10),
        DirChild::new("c".to_string(), 50),
    ]);
    match t.next_step() {
        Step::Expand(p) => assert_eq!(p, "c"),
        _ => panic!("expected to expand c"),
    }
    match t.next_step() {
        Step::Expand(p) => assert_eq!(p, "a"),
        _ => panic!("expected to expand a"),
    }
    assert!(matches!(t.next_step(), Step::Done));
}

#[test]
fn sum_of_reported_sizes() {
    let folders = vec![
        CacheFolderInfo::new(&"a".to_string(), 3),
        CacheFolderInfo::new(&"b".to_string(), 4),
        CacheFolderInfo::new(&"c".to_string(), 150 * MIB),
    ];
    assert_eq!(get_size_sum(&folders), 7 + 150 * MIB);
    assert_eq!(get_size_sum(&Vec::new()), 0);
}

#[test]
fn sort_puts_largest_first_and_keeps_all() {
    let mut folders = vec![
        CacheFolderInfo::new(&"a".to_string(), 3),
        CacheFolderInfo::new(&"b".to_string(), 9),
        CacheFolderInfo::new(&"c".to_string(), 3),
        CacheFolderInfo::new(&"d".to_string(), 5),
    ];
    sort_by_size_desc(&mut folders);
    let sizes: Vec<u64> = folders.iter().map(|f| f.size).collect();
    assert_eq!(sizes, vec![9, 5, 3, 3]);
    let mut paths: Vec<String> = folders.iter().map(|f| f.path.clone()).collect();
    assert_eq!(paths[0], "b");
    paths.sort();
    assert_eq!(paths, vec!["a", "b", "c", "d"]);
}

#[test]
fn sort_of_empty_list() {
    let mut folders: Vec<CacheFolderInfo> = Vec::new();
    sort_by_size_desc(&mut folders);
    assert!(folders.is_empty());
}

#[test]
fn mb_conversion_uses_its_divisor() {
    assert_eq!(bytes_to_mb(0), 0);
    assert_eq!(bytes_to_mb(1024 * 1025 - 1), 0);
    assert_eq!(bytes_to_mb(1024 * 1025), 1);
    assert_eq!(bytes_to_mb(150 * MIB), 149);
}

#[test]
fn large_means_strictly_above() {
    assert!(!is_large_dir(THRESHOLD, THRESHOLD));
    assert!(is_large_dir(THRESHOLD + 1, THRESHOLD));
    assert!(!is_large_dir(0, THRESHOLD));
}

#[test]
fn file_sizes_add_up() {
    assert_eq!(total_file_size(&vec![]), Some(0));
    assert_eq!(total_file_size(&vec![1, 2, 3]), Some(6));
    assert_eq!(total_file_size(&vec![u64::MAX, 0]), Some(u64::MAX));
    assert_eq!(total_file_size(&vec![u64::MAX, 1]), None);
}

#[test]
fn substring_search() {
    assert!(contains_pattern("abcache", "cache"));
    assert!(contains_pattern("cache", "cache"));
    assert!(!contains_pattern("cach", "cache"));
    assert!(!contains_pattern("CACHE", "cache"));
    assert!(contains_pattern("anything", ""));
    assert!(!contains_pattern("", "x"));
}

#[test]
fn cache_path_ignores_case() {
    assert!(is_cache_path("C:\\Users\\me\\AppData\\CACHE", "cache"));
    assert!(is_cache_path("/home/me/.Cache/x", "cache"));
    assert!(!is_cache_path("/home/me/cach/e", "cache"));
}
