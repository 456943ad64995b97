use flat_tree::builder::TreeBuilder;
use flat_tree::entry::FileEntry;
use flat_tree::error::{EditorIoError, ErrorType};
use flat_tree::flat_tree::{FlatTree, TreeNode};
use std::collections::HashSet;

fn entry(parent: &str, name: &str, is_dir: bool) -> FileEntry {
    FileEntry {
        parent: parent.to_string(),
        name: name.to_string(),
        path: format!("{}/{}", parent, name),
        is_dir,
        is_file: !is_dir,
        is_symlink: false,
        is_hidden: name.starts_with('.'),
        size: Some(if is_dir { 0 } else { 5 }),
        modified: None,
    }
}

/// A small file system held in memory: (directory, name, is_dir).
fn list(fs: &[(&str, &str, bool)], dir: &str) -> Vec<FileEntry> {
    fs.iter()
        .filter(|(d, _, _)| *d == dir)
        .map(|(d, n, is_dir)| entry(d, n, *is_dir))
        .collect()
}

/// Runs the layer-by-layer build against the in-memory file system.
fn build_from(fs: &[(&str, &str, bool)], root: &str) -> FlatTree {
    let mut builder = TreeBuilder::init(Ok(list(fs, root))).unwrap();
    while builder.build_tree_layer() {
        let pending = builder.take_pending().unwrap();
        let listings: Vec<Vec<FileEntry>> = pending.iter().map(|d| list(fs, &d.path)).collect();
        builder.get_next(listings);
        if builder.is_finished() {
            break;
        }
    }
    builder.into_tree()
}

const TEST_DATA: &[(&str, &str, bool)] = &[
    ("test_data", "file1", false),
    ("test_data", "file2.txt", false),
    ("test_data", "sub", true),
    ("test_data/sub", "file1.txt", false),
    ("test_data/sub", "file2", false),
    ("test_data/sub", "sub", true),
    ("test_data/sub/sub", "file1.txt", false),
    ("test_data/sub/sub", "file2", false),
];

const SCENARIO: &[(&str, &str, bool)] = &[
    ("root", "b.txt", false),
    ("root", "a", true),
    ("root/a", "x.txt", false),
];

fn id_of(tree: &FlatTree, path: &str) -> usize {
    tree.path_to_id(&path.to_string()).unwrap()
}

fn names(items: &[&TreeNode]) -> Vec<String> {
    items.iter().map(|n| n.file_entry.name.clone()).collect()
}

#[test]
fn test_flat_tree_build() {
    let tree = build_from(TEST_DATA, "test_data");
    let elements = tree.elements();

    assert!(!elements.is_empty(), "Tree should not be empty");
    assert!(elements.iter().any(|n| n.file_entry.name == "file1"));
    assert!(elements.iter().any(|n| n.file_entry.name == "file2.txt"));
    assert_eq!(elements.len(), 8);

    let mut depth = 0;
    loop {
        let current_depth_nodes = elements.iter().filter(|node| node.depth == depth).count();
        match depth {
            0 => assert_eq!(current_depth_nodes, 3),
            1 => assert_eq!(current_depth_nodes, 3),
            2 => assert_eq!(current_depth_nodes, 2),
            _ => break,
        }
        depth += 1;
    }
}

#[test]
fn test_node_duplicate_children() {
    let tree = build_from(TEST_DATA, "test_data");
    for node in tree.elements() {
        let mut child_set = HashSet::new();
        for &child_id in node.children() {
            assert!(child_set.insert(child_id), "Node {} has duplicate child {}", node.id, child_id);
        }
    }
}

#[test]
fn test_node_duplicates() {
    let tree = build_from(TEST_DATA, "test_data");
    let tree_items = tree.elements().clone();
    for element in tree_items {
        let parent_instances = tree
            .elements()
            .iter()
            .filter(|node| node.id == element.id)
            .map(|node| node.id)
            .collect::<Vec<usize>>();
        assert_eq!(parent_instances.len(), 1);
    }
}

#[test]
fn build_links_every_child_one_layer_below_its_parent() {
    let tree = build_from(TEST_DATA, "test_data");
    for node in tree.elements() {
        if node.parent == 0 {
            assert_eq!(node.depth, 0);
        } else {
            let parent = tree.get_node(node.parent).unwrap();
            assert_eq!(node.depth, parent.depth + 1);
            assert!(parent.children().contains(&node.id));
            assert_eq!(node.file_entry.parent, parent.file_entry.path);
        }
    }
}

#[test]
fn scenario_toggle_expands_and_collapses() {
    let mut tree = build_from(SCENARIO, "root");
    assert_eq!(tree.len(), 3);
    assert_eq!(names(&tree.get_visible_items()), vec!["a", "b.txt"]);
    let a = id_of(&tree, "root/a");
    assert_eq!(tree.get_node(a).unwrap().children().len(), 1);

    tree.toggle_visibility(&a);
    assert!(tree.get_node(a).unwrap().expanded);
    let x = id_of(&tree, "root/a/x.txt");
    assert!(tree.get_node(x).unwrap().visible);
    assert_eq!(names(&tree.get_visible_items()), vec!["a", "x.txt", "b.txt"]);

    tree.toggle_visibility(&a);
    assert_eq!(names(&tree.get_visible_items()), vec!["a", "b.txt"]);
}

#[test]
fn projection_puts_directories_first_then_names() {
    let fs: &[(&str, &str, bool)] = &[
        ("r", "zeta.txt", false),
        ("r", "beta", true),
        ("r", "alpha.txt", false),
        ("r", "gamma", true),
        ("r/beta", "y", false),
        ("r/beta", "c", true),
        ("r/beta", "b", false),
    ];
    let mut tree = build_from(fs, "r");
    assert_eq!(names(&tree.get_visible_items()), vec!["beta", "gamma", "alpha.txt", "zeta.txt"]);
    let beta = id_of(&tree, "r/beta");
    tree.toggle_visibility(&beta);
    assert_eq!(
        names(&tree.get_visible_items()),
        vec!["beta", "c", "b", "y", "gamma", "alpha.txt", "zeta.txt"]
    );
}

#[test]
fn collapse_hides_independently_expanded_descendants() {
    let mut tree = build_from(TEST_DATA, "test_data");
    let sub = id_of(&tree, "test_data/sub");
    let subsub = id_of(&tree, "test_data/sub/sub");
    tree.toggle_visibility(&sub);
    tree.toggle_visibility(&subsub);
    assert_eq!(tree.get_visible_items().len(), 3 + 3 + 2);

    tree.toggle_visibility(&sub);
    assert_eq!(names(&tree.get_visible_items()), vec!["sub", "file1", "file2.txt"]);

    tree.toggle_visibility(&sub);
    assert_eq!(
        names(&tree.get_visible_items()),
        vec!["sub", "sub", "file1.txt", "file2", "file1", "file2.txt"]
    );
    assert!(!tree.get_node(subsub).unwrap().expanded);
}

#[test]
fn toggling_a_hidden_node_hides_its_whole_branch() {
    let mut tree = build_from(TEST_DATA, "test_data");
    let sub = id_of(&tree, "test_data/sub");
    let subsub = id_of(&tree, "test_data/sub/sub");
    let leaf = id_of(&tree, "test_data/sub/sub/file1.txt");
    tree.toggle_visibility(&sub);
    tree.toggle_visibility(&subsub);
    tree.toggle_visibility(&sub);
    assert!(!tree.get_node(subsub).unwrap().visible);
    assert!(tree.get_node(leaf).unwrap().visible);

    tree.toggle_visibility(&subsub);
    assert!(!tree.get_node(subsub).unwrap().visible);
    assert!(!tree.get_node(subsub).unwrap().expanded);
    assert!(!tree.get_node(leaf).unwrap().visible);
    assert!(tree.get_node(sub).unwrap().visible);
}

#[test]
fn toggle_of_unknown_id_changes_nothing() {
    let mut tree = build_from(SCENARIO, "root");
    let before = names(&tree.get_visible_items());
    tree.toggle_visibility(&987_654);
    assert_eq!(names(&tree.get_visible_items()), before);
}

#[test]
fn remove_directory_removes_its_subtree() {
    let mut tree = build_from(TEST_DATA, "test_data");
    let sub = id_of(&tree, "test_data/sub");
    let below: Vec<usize> = ["test_data/sub/file1.txt", "test_data/sub/sub", "test_data/sub/sub/file2"]
        .iter()
        .map(|p| id_of(&tree, p))
        .collect();
    let removed = tree.remove(sub).unwrap();
    assert_eq!(removed.file_entry.name, "sub");
    assert_eq!(tree.len(), 2);
    assert!(tree.get_node(sub).is_none());
    for id in below {
        assert!(tree.get_node(id).is_none());
    }
    assert!(tree.get_node(id_of(&tree, "test_data/file1")).is_some());
}

#[test]
fn remove_file_drops_it_from_parent_children() {
    let mut tree = build_from(SCENARIO, "root");
    let a = id_of(&tree, "root/a");
    let x = id_of(&tree, "root/a/x.txt");
    assert!(tree.remove(x).is_some());
    assert_eq!(tree.len(), 2);
    assert!(tree.get_node(a).unwrap().children().is_empty());
    assert!(tree.remove(x).is_none());
}

#[test]
fn rename_directory_rewrites_descendant_paths() {
    let mut tree = build_from(TEST_DATA, "test_data");
    let sub = id_of(&tree, "test_data/sub");
    let deep = id_of(&tree, "test_data/sub/sub/file2");
    let count = tree.len();
    let old = tree.rename(sub, &"renamed".to_string());
    assert_eq!(old, Some("test_data/sub".to_string()));
    assert_eq!(tree.len(), count);
    let node = tree.get_node(sub).unwrap();
    assert_eq!(node.file_entry.name, "renamed");
    assert_eq!(node.file_entry.path, "test_data/renamed");
    let deep_node = tree.get_node(deep).unwrap();
    assert_eq!(deep_node.file_entry.path, "test_data/renamed/sub/file2");
    assert_eq!(deep_node.file_entry.parent, "test_data/renamed/sub");
    assert_eq!(deep_node.file_entry.name, "file2");
    assert_eq!(tree.get_node(id_of(&tree, "test_data/file1")).unwrap().file_entry.path, "test_data/file1");
    assert_eq!(tree.rename(424_242, &"x".to_string()), None);
}

#[test]
fn rename_file_keeps_siblings() {
    let mut tree = build_from(SCENARIO, "root");
    let b = id_of(&tree, "root/b.txt");
    assert_eq!(tree.rename(b, &"c.md".to_string()), Some("root/b.txt".to_string()));
    assert_eq!(tree.get_node(b).unwrap().file_entry.path, "root/c.md");
    assert_eq!(names(&tree.get_visible_items()), vec!["a", "c.md"]);
}

#[test]
fn rebuilding_a_layer_adds_nothing_twice() {
    let mut tree = build_from(SCENARIO, "root");
    let layer = list(SCENARIO, "root/a");
    tree.build(&layer);
    assert_eq!(tree.len(), 3);
}

#[test]
fn entry_without_parent_is_left_out() {
    let mut tree = build_from(SCENARIO, "root");
    tree.build(&vec![entry("elsewhere", "lost.txt", false)]);
    assert_eq!(tree.len(), 3);
    assert!(tree.path_to_id(&"elsewhere/lost.txt".to_string()).is_none());
}

#[test]
fn empty_tree_takes_every_entry_as_top_layer() {
    let mut tree = FlatTree::new();
    tree.build(&list(SCENARIO, "root"));
    assert_eq!(tree.len(), 2);
    for node in tree.elements() {
        assert_eq!(node.depth, 0);
        assert_eq!(node.parent, 0);
        assert!(node.visible);
        assert!(!node.expanded);
    }
}

#[test]
fn children_from_ids_skips_unknown_ids() {
    let tree = build_from(SCENARIO, "root");
    let a = id_of(&tree, "root/a");
    let b = id_of(&tree, "root/b.txt");
    let nodes = tree.get_children_from_ids(&vec![b, 999, a]);
    assert_eq!(names(&nodes), vec!["b.txt", "a"]);
}

#[test]
fn take_pending_refuses_while_a_layer_waits() {
    let mut builder = TreeBuilder::init(Ok(list(SCENARIO, "root"))).unwrap();
    let err = builder.take_pending().unwrap_err();
    assert_eq!(err.error_type, ErrorType::Interrupted);
    assert_eq!(err.message, "Overwriting file entries");
    assert!(builder.build_tree_layer());
    let pending = builder.take_pending().unwrap();
    assert_eq!(pending.len(), 1);
    assert_eq!(pending[0].path, "root/a");
    assert!(builder.take_pending().unwrap().is_empty());
}

#[test]
fn init_passes_listing_error_on() {
    let failure = EditorIoError::new("Path not a directory", ErrorType::NotADirectory);
    let r = TreeBuilder::init(Err(failure));
    let err = r.err().unwrap();
    assert_eq!(err.error_type, ErrorType::NotADirectory);
    assert_eq!(err.message, "Path not a directory");
}

#[test]
fn build_of_empty_root_leaves_empty_tree() {
    let tree = build_from(&[], "nothing");
    assert_eq!(tree.len(), 0);
    assert!(tree.get_visible_items().is_empty());
}

#[test]
fn names_order_by_characters() {
    assert!(flat_tree::entry::name_lt(&"Zed".to_string(), &"abc".to_string()));
    assert!(flat_tree::entry::name_lt(&"ab".to_string(), &"abc".to_string()));
    assert!(!flat_tree::entry::name_lt(&"abc".to_string(), &"abc".to_string()));
    assert!(!flat_tree::entry::name_lt(&"b".to_string(), &"abc".to_string()));
}

#[test]
fn join_and_prefix_helpers() {
    assert_eq!(flat_tree::entry::join(&"a/b".to_string(), &"c".to_string()), "a/b/c");
    assert!(flat_tree::entry::starts_with(&"a/b/c".to_string(), &"a/b".to_string()));
    assert!(!flat_tree::entry::starts_with(&"a".to_string(), &"a/b".to_string()));
    assert_eq!(
        flat_tree::entry::replace_prefix(&"a/b/c".to_string(), 3, &"x/y".to_string()),
        "x/y/c"
    );
}

#[test]
fn path_to_id_gives_first_node_with_path() {
    let mut tree = FlatTree::new();
    tree.build(&vec![entry("r", "same", false), entry("r", "same", false)]);
    assert_eq!(tree.len(), 2);
    let first = tree.elements()[0].id;
    assert_eq!(tree.path_to_id(&"r/same".to_string()), Some(first));
    assert_eq!(tree.path_to_id(&"r/same".to_string()), Some(first));
}

#[test]
fn entry_whose_parent_comes_earlier_in_the_layer_is_added() {
    let mut tree = build_from(SCENARIO, "root");
    tree.build(&vec![entry("root/a", "d", true), entry("root/a/d", "inner.txt", false)]);
    assert_eq!(tree.len(), 5);
    let inner = tree.get_node(id_of(&tree, "root/a/d/inner.txt")).unwrap();
    assert_eq!(inner.depth, 2);
}
