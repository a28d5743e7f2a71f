use diskmapper::builder::{build_tree, dir_node_for, get_or_create, parent_dir, root_node_for, try_build_tree};
use diskmapper::crawler::{file_info, FileInfo};
use diskmapper::sizes::compute_sizes;
use diskmapper::tree::{Arena, Node};
use vstd::hash_map::StringHashMap;

fn file(path: &str, name: &str, size: u64, is_dir: bool) -> FileInfo {
    FileInfo { path: path.to_string(), name: name.to_string(), size, is_dir, _mtime: 0 }
}

fn node(name: &str, path: &str, size: u64, parent: Option<usize>) -> Node {
    Node {
        name: name.to_string(),
        path: path.to_string(),
        size,
        is_dir: true,
        children: Vec::new(),
        parent,
    }
}

#[test]
fn arena_add_returns_consecutive_ids() {
    let mut arena = Arena::new();
    assert_eq!(arena.nodes.len(), 0);
    let a = arena.add(node("r", "/r", 1, None));
    let b = arena.add(node("a", "/r/a", 2, Some(0)));
    assert_eq!(a, 0);
    assert_eq!(b, 1);
    assert_eq!(arena.get(0).path, "/r");
    assert_eq!(arena.get(1).size, 2);
    assert_eq!(arena.get(1).parent, Some(0));
}

#[test]
fn arena_get_mut_changes_one_node() {
    let mut arena = Arena::new();
    arena.add(node("r", "/r", 1, None));
    arena.add(node("a", "/r/a", 2, Some(0)));
    arena.get_mut(1).size = 40;
    arena.get_mut(0).children.push(1);
    assert_eq!(arena.get(1).size, 40);
    assert_eq!(arena.get(0).size, 1);
    assert_eq!(arena.get(0).children, vec![1]);
}

#[test]
fn build_tree_sums_sizes_up() {
    let files = vec![
        file("/r/a", "a", 0, true),
        file("/r/a/x.txt", "x.txt", 10, false),
        file("/r/b.txt", "b.txt", 5, false),
    ];
    let (arena, root) = build_tree("/r", files);
    assert_eq!(root, 0);
    assert_eq!(arena.nodes.len(), 4);
    assert_eq!(arena.get(0).path, "/r");
    assert_eq!(arena.get(0).name, "r");
    assert_eq!(arena.get(0).parent, None);
    assert_eq!(arena.get(0).children, vec![1, 3]);
    assert_eq!(arena.get(0).size, 15);
    assert_eq!(arena.get(1).path, "/r/a");
    assert_eq!(arena.get(1).children, vec![2]);
    assert_eq!(arena.get(1).size, 10);
    assert_eq!(arena.get(2).name, "x.txt");
    assert_eq!(arena.get(2).parent, Some(1));
    assert_eq!(arena.get(2).size, 10);
    assert!(!arena.get(2).is_dir);
    assert_eq!(arena.get(3).path, "/r/b.txt");
    assert_eq!(arena.get(3).parent, Some(0));
    assert_eq!(arena.get(3).size, 5);
}

#[test]
fn build_tree_creates_missing_directories() {
    let files = vec![file("/r/a/b/c.txt", "c.txt", 7, false)];
    let (arena, root) = build_tree("/r", files);
    assert_eq!(root, 0);
    assert_eq!(arena.nodes.len(), 4);
    assert_eq!(arena.get(1).path, "/r/a");
    assert_eq!(arena.get(1).name, "a");
    assert!(arena.get(1).is_dir);
    assert_eq!(arena.get(1).parent, Some(0));
    assert_eq!(arena.get(2).path, "/r/a/b");
    assert_eq!(arena.get(2).name, "b");
    assert_eq!(arena.get(2).parent, Some(1));
    assert_eq!(arena.get(3).path, "/r/a/b/c.txt");
    assert_eq!(arena.get(3).parent, Some(2));
    for id in 0..4 {
        assert_eq!(arena.get(id).size, 7);
    }
}

#[test]
fn build_tree_skips_the_root_entry() {
    let files = vec![file("/r", "r", 100, true), file("/r/f", "f", 3, false)];
    let (arena, _) = build_tree("/r", files);
    assert_eq!(arena.nodes.len(), 2);
    assert_eq!(arena.get(0).size, 3);
}

#[test]
fn build_tree_keeps_one_node_per_path() {
    let files = vec![
        file("/r/d/f", "f", 3, false),
        file("/r/d", "d", 0, true),
        file("/r/g", "g", 4, false),
        file("/r/g", "g", 6, false),
    ];
    let (arena, _) = build_tree("/r", files);
    assert_eq!(arena.nodes.len(), 4);
    assert_eq!(arena.get(1).path, "/r/d");
    assert!(arena.get(1).is_dir);
    assert_eq!(arena.get(1).size, 3);
    assert_eq!(arena.get(3).path, "/r/g");
    assert_eq!(arena.get(3).size, 6);
    assert_eq!(arena.get(0).size, 9);
}

#[test]
fn build_tree_replaces_size_of_directory_seen_as_file() {
    let files = vec![file("/r/d/f", "f", 3, false), file("/r/d", "d", 8, false)];
    let (arena, _) = build_tree("/r", files);
    assert_eq!(arena.get(1).path, "/r/d");
    assert!(arena.get(1).is_dir);
    assert_eq!(arena.get(1).size, 11);
    assert_eq!(arena.get(0).size, 11);
}

#[test]
fn build_tree_hangs_outside_paths_under_root() {
    let files = vec![file("/x", "x", 2, false)];
    let (arena, _) = build_tree("/r/a", files);
    assert_eq!(arena.nodes.len(), 3);
    assert_eq!(arena.get(1).path, "/");
    assert_eq!(arena.get(1).name, "/");
    assert_eq!(arena.get(1).parent, Some(0));
    assert_eq!(arena.get(2).path, "/x");
    assert_eq!(arena.get(2).parent, Some(1));
    assert_eq!(arena.get(0).size, 2);
}

#[test]
fn build_tree_of_nothing_is_the_root() {
    let (arena, root) = build_tree("/home/u", Vec::new());
    assert_eq!(root, 0);
    assert_eq!(arena.nodes.len(), 1);
    assert_eq!(arena.get(0).name, "u");
    assert_eq!(arena.get(0).size, 0);
    assert!(arena.get(0).is_dir);
}

#[test]
fn get_or_create_finds_what_it_made() {
    let mut arena = Arena::new();
    arena.add(node("r", "/r", 0, None));
    let mut index: StringHashMap<usize> = StringHashMap::new();
    index.insert("/r".to_string(), 0);
    let id = get_or_create(&mut arena, &mut index, "/r/a/b", "/r", 0);
    assert_eq!(id, 2);
    assert_eq!(arena.nodes.len(), 3);
    assert_eq!(arena.get(1).path, "/r/a");
    assert_eq!(arena.get(2).name, "b");
    assert_eq!(arena.get(1).children, vec![2]);
    assert_eq!(arena.get(0).children, vec![1]);
    assert_eq!(index.get("/r"), Some(&0));
    assert_eq!(index.get("/r/a"), Some(&1));
    assert_eq!(index.get("/r/a/b"), Some(&2));
    assert!(arena.get(1).is_dir && arena.get(2).is_dir);
    assert_eq!(arena.get(1).size + arena.get(2).size, 0);
    let again = get_or_create(&mut arena, &mut index, "/r/a/b", "/r", 0);
    assert_eq!(again, 2);
    assert_eq!(arena.nodes.len(), 3);
    assert_eq!(get_or_create(&mut arena, &mut index, "/r", "/r", 0), 0);
}

#[test]
fn compute_sizes_sets_subtree_sizes() {
    let mut arena = Arena::new();
    arena.add(node("r", "/r", 1, None));
    arena.add(node("a", "/r/a", 2, Some(0)));
    arena.add(node("b", "/r/a/b", 4, Some(1)));
    arena.add(node("c", "/r/c", 8, Some(0)));
    arena.get_mut(0).children = vec![1, 3];
    arena.get_mut(1).children = vec![2];
    compute_sizes(&mut arena, 1);
    assert_eq!(arena.get(1).size, 6);
    assert_eq!(arena.get(2).size, 4);
    assert_eq!(arena.get(0).size, 1);
    assert_eq!(arena.get(3).size, 8);
}

#[test]
fn compute_sizes_follows_children_without_parent_links() {
    let mut arena = Arena::new();
    for size in [0u64, 2, 0, 5] {
        arena.add(node("", "", size, None));
    }
    arena.get_mut(0).children = vec![1, 2];
    arena.get_mut(2).children = vec![3];
    compute_sizes(&mut arena, 0);
    let sizes: Vec<u64> = (0..4).map(|i| arena.get(i).size).collect();
    assert_eq!(sizes, vec![7, 2, 5, 5]);
    assert_eq!(arena.get(0).children, vec![1, 2]);
    assert!(arena.get(3).parent.is_none());
}

#[test]
fn root_size_is_sum_of_all_sizes() {
    let mut arena = Arena::new();
    arena.add(node("r", "/r", 1, None));
    arena.add(node("a", "/r/a", 2, Some(0)));
    arena.add(node("b", "/r/a/b", 4, Some(1)));
    arena.add(node("c", "/r/c", 8, Some(0)));
    arena.get_mut(0).children = vec![1, 3];
    arena.get_mut(1).children = vec![2];
    compute_sizes(&mut arena, 0);
    assert_eq!(arena.get(0).size, 15);
    for id in 0..4 {
        let n = arena.get(id);
        let kids: u64 = n.children.iter().map(|&c| arena.get(c).size).sum();
        let own = [1u64, 2, 4, 8][id];
        assert_eq!(n.size, own + kids);
    }
}

#[test]
fn file_info_needs_a_modification_time() {
    assert!(file_info("/r/a".to_string(), "a".to_string(), true, false, 10, None).is_none());
    let f = file_info("/r/a".to_string(), "a".to_string(), true, false, 10, Some(77)).unwrap();
    assert_eq!(f.path, "/r/a");
    assert_eq!(f.name, "a");
    assert_eq!(f.size, 10);
    assert!(!f.is_dir);
    assert_eq!(f._mtime, 77);
}

#[test]
fn file_info_counts_only_regular_files() {
    let d = file_info("/r/d".to_string(), "d".to_string(), false, true, 4096, Some(1)).unwrap();
    assert_eq!(d.size, 0);
    assert!(d.is_dir);
    let l = file_info("/r/l".to_string(), "l".to_string(), false, false, 12, Some(1)).unwrap();
    assert_eq!(l.size, 0);
}

#[test]
fn try_build_tree_refuses_overflowing_sizes() {
    let big = vec![file("/r/a", "a", u64::MAX, false), file("/r/b", "b", 1, false)];
    assert!(try_build_tree("/r", big).is_none());
    let replaced = vec![file("/r/a", "a", u64::MAX, false), file("/r/a", "a", 1, false), file("/r/b", "b", 1, false)];
    let (arena, root) = try_build_tree("/r", replaced).unwrap();
    assert_eq!(root, 0);
    assert_eq!(arena.get(0).size, 2);
    let full = vec![file("/r/a", "a", u64::MAX - 1, false), file("/r/b", "b", 1, false)];
    let (arena, _) = try_build_tree("/r", full).unwrap();
    assert_eq!(arena.get(0).size, u64::MAX);
}

fn parent_paths(arena: &Arena) -> Vec<(String, String, Vec<String>)> {
    let mut rows: Vec<(String, String, Vec<String>)> = arena
        .nodes
        .iter()
        .map(|n| {
            let parent = match n.parent {
                Some(p) => arena.get(p).path.clone(),
                None => String::new(),
            };
            let mut kids: Vec<String> = n.children.iter().map(|&c| arena.get(c).path.clone()).collect();
            kids.sort();
            (n.path.clone(), parent, kids)
        })
        .collect();
    rows.sort();
    rows
}

fn sorted_paths(arena: &Arena) -> Vec<String> {
    let mut paths: Vec<String> = arena.nodes.iter().map(|n| n.path.clone()).collect();
    paths.sort();
    paths
}

#[test]
fn tree_paths_do_not_depend_on_entry_order() {
    let entries = vec![
        file("/r/a/b", "b", 3, false),
        file("/r/a", "a", 0, true),
        file("/r/c", "c", 4, false),
        file("/r/d/e/f", "f", 1, false),
    ];
    let mut reversed = entries.clone();
    reversed.reverse();
    let (one, _) = build_tree("/r", entries);
    let (two, _) = build_tree("/r", reversed);
    assert_eq!(sorted_paths(&one), sorted_paths(&two));
    assert_eq!(sorted_paths(&one), vec!["/r", "/r/a", "/r/a/b", "/r/c", "/r/d", "/r/d/e", "/r/d/e/f"]);
    assert_eq!(parent_paths(&one), parent_paths(&two));
    let kinds = |arena: &Arena| {
        let mut v: Vec<(String, String, bool)> =
            arena.nodes.iter().map(|n| (n.path.clone(), n.name.clone(), n.is_dir)).collect();
        v.sort();
        v
    };
    assert_eq!(kinds(&one), kinds(&two));
    let sizes = |arena: &Arena| {
        let mut v: Vec<(String, u64)> = arena.nodes.iter().map(|n| (n.path.clone(), n.size)).collect();
        v.sort();
        v
    };
    assert_eq!(sizes(&one), sizes(&two));
    assert!(kinds(&one).contains(&("/r/d/e".to_string(), "e".to_string(), true)));
    assert!(kinds(&one).contains(&("/r/c".to_string(), "c".to_string(), false)));
    assert_eq!(one.get(0).path, "/r");
    assert_eq!(two.get(0).path, "/r");
    assert_eq!(one.get(0).size, 8);
    assert_eq!(two.get(0).size, 8);
}

#[test]
fn entries_outside_the_root_keep_their_paths_in_any_order() {
    let first = vec![file("/x", "x", 0, true), file("/x/y", "y", 2, false)];
    let second = vec![file("/x/y", "y", 2, false), file("/x", "x", 0, true)];
    let (one, _) = build_tree("/r", first);
    let (two, _) = build_tree("/r", second);
    assert_eq!(sorted_paths(&one), vec!["/", "/r", "/x", "/x/y"]);
    assert_eq!(sorted_paths(&two), vec!["/", "/r", "/x", "/x/y"]);
    let x1 = one.nodes.iter().position(|n| n.path == "/x").unwrap();
    let x2 = two.nodes.iter().position(|n| n.path == "/x").unwrap();
    assert_eq!(one.get(one.get(x1).parent.unwrap()).path, "/");
    assert_eq!(two.get(two.get(x2).parent.unwrap()).path, "/r");
}

#[test]
fn own_sizes_stay_within_the_entry_sizes() {
    let entries = vec![file("/r/a", "a", 7, false), file("/r/a", "a", 2, false), file("/r/b", "b", 1, false)];
    let (arena, _) = build_tree("/r", entries);
    assert_eq!(arena.get(0).size, 3);
    assert!(arena.get(0).size <= 7 + 2 + 1);
}

#[test]
fn parent_dir_uses_the_reported_parent() {
    assert_eq!(parent_dir(Some("/r/a".to_string()), "/r/a/b", "/r"), ("/r/a".to_string(), false));
    assert_eq!(parent_dir(Some("/r".to_string()), "/r/a", "/r"), ("/r".to_string(), true));
    assert_eq!(parent_dir(None, "/", "/r"), ("/r".to_string(), true));
    assert_eq!(parent_dir(Some("/".to_string()), "/x", "/r"), ("/".to_string(), true));
}

#[test]
fn dir_nodes_are_named_by_the_reported_name() {
    let n = dir_node_for(Some("b".to_string()), "/r/a/b", 1);
    assert_eq!(n.name, "b");
    assert_eq!(n.path, "/r/a/b");
    assert_eq!(n.size, 0);
    assert!(n.is_dir);
    assert!(n.children.is_empty());
    assert_eq!(n.parent, Some(1));
    let unnamed = dir_node_for(None, "/r/..", 0);
    assert_eq!(unnamed.name, "/r/..");
    let root = root_node_for(None, "/");
    assert_eq!(root.name, "/");
    assert_eq!(root.parent, None);
    assert_eq!(root_node_for(Some("r".to_string()), "/r").name, "r");
}

#[test]
fn get_or_create_works_with_a_partial_index() {
    let mut arena = Arena::new();
    arena.add(node("r", "/r", 0, None));
    arena.add(node("a", "/r/a", 3, Some(0)));
    arena.get_mut(0).children = vec![1];
    let mut index: StringHashMap<usize> = StringHashMap::new();
    index.insert("/r".to_string(), 0);
    let id = get_or_create(&mut arena, &mut index, "/r/a/b", "/r", 0);
    assert_eq!(id, 3);
    assert_eq!(arena.nodes.len(), 4);
    assert_eq!(index.get("/r"), Some(&0));
    assert_eq!(index.get("/r/a"), Some(&2));
    assert_eq!(index.get("/r/a/b"), Some(&3));
    assert_eq!(arena.get(1).size, 3);
    assert_eq!(arena.get(1).children, Vec::<usize>::new());
    assert_eq!(arena.get(0).children, vec![1, 2]);
    assert_eq!(arena.get(2).children, vec![3]);
    assert!(arena.get(2).is_dir && arena.get(3).is_dir);
    assert_eq!(arena.get(2).size + arena.get(3).size, 0);
}
