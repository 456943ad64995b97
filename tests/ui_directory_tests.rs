use flat_tree::builder::TreeBuilder;
use flat_tree::entry::FileEntry;
use flat_tree::flat_tree::FlatTree;
use flat_tree::settings::FileTreeSettings;
use flat_tree::ui_directory::{UIDOperation, UiDirectory};

fn entry(parent: &str, name: &str, is_dir: bool) -> FileEntry {
    FileEntry {
        parent: parent.to_string(),
        name: name.to_string(),
        path: format!("{}/{}", parent, name),
        is_dir,
        is_file: !is_dir,
        is_symlink: false,
        is_hidden: name.starts_with('.'),
        size: None,
        modified: Some(1_700_000_000),
    }
}

fn tree_of(fs: &[(&str, &str, bool)], root: &str) -> FlatTree {
    let list = |dir: &str| -> Vec<FileEntry> {
        fs.iter().filter(|(d, _, _)| *d == dir).map(|(d, n, k)| entry(d, n, *k)).collect()
    };
    let mut builder = TreeBuilder::init(Ok(list(root))).unwrap();
    while builder.build_tree_layer() {
        let pending = builder.take_pending().unwrap();
        builder.get_next(pending.iter().map(|d| list(&d.path)).collect());
        if builder.is_finished() {
            break;
        }
    }
    builder.into_tree()
}

const FS: &[(&str, &str, bool)] = &[
    ("p", ".git", true),
    ("p", "src", true),
    ("p", "README", false),
    ("p/.git", "HEAD", false),
    ("p/src", "lib.rs", false),
];

fn listed_names(pane: &UiDirectory) -> Vec<String> {
    pane.flat_tree()
        .get_children_from_ids(pane.display_tree())
        .iter()
        .map(|n| n.file_entry.name.clone())
        .collect()
}

fn id(pane: &UiDirectory, path: &str) -> usize {
    pane.flat_tree().path_to_id(&path.to_string()).unwrap()
}

#[test]
fn new_pane_lists_the_top_layer() {
    let pane = UiDirectory::new(tree_of(FS, "p"));
    assert_eq!(listed_names(&pane), vec![".git", "src", "README"]);
    assert!(pane.operations().is_empty());
    assert!(pane.user_input.is_none());
}

#[test]
fn queue_operation_skips_duplicates() {
    let mut pane = UiDirectory::new(tree_of(FS, "p"));
    pane.queue_operation(UIDOperation::DELETE(3));
    pane.queue_operation(UIDOperation::RENAME(3, "x".to_string()));
    pane.queue_operation(UIDOperation::DELETE(3));
    pane.queue_operation(UIDOperation::RENAME(3, "x".to_string()));
    pane.queue_operation(UIDOperation::RENAME(3, "y".to_string()));
    assert_eq!(pane.operations().len(), 3);
}

#[test]
fn execute_operations_applies_and_empties_queue() {
    let mut pane = UiDirectory::new(tree_of(FS, "p"));
    let git = id(&pane, "p/.git");
    let readme = id(&pane, "p/README");
    pane.queue_operation(UIDOperation::DELETE(git));
    pane.queue_operation(UIDOperation::RENAME(readme, "README.md".to_string()));
    pane.execute_operations();
    assert!(pane.operations().is_empty());
    assert_eq!(pane.flat_tree().len(), 3);
    assert!(pane.flat_tree().get_node(git).is_none());
    assert_eq!(pane.flat_tree().get_node(readme).unwrap().file_entry.path, "p/README.md");
    pane.reload(FileTreeSettings { show_hidden_elements: true });
    assert_eq!(listed_names(&pane), vec!["src", "README.md"]);
}

#[test]
fn reload_collapses_hidden_expanded_directories() {
    let mut tree = tree_of(FS, "p");
    let git = tree.path_to_id(&"p/.git".to_string()).unwrap();
    let src = tree.path_to_id(&"p/src".to_string()).unwrap();
    tree.toggle_visibility(&git);
    tree.toggle_visibility(&src);
    let mut pane = UiDirectory::new(tree);
    assert_eq!(listed_names(&pane), vec![".git", "HEAD", "src", "lib.rs", "README"]);

    pane.reload(FileTreeSettings { show_hidden_elements: true });
    assert_eq!(listed_names(&pane), vec![".git", "HEAD", "src", "lib.rs", "README"]);

    pane.reload(FileTreeSettings { show_hidden_elements: false });
    assert_eq!(listed_names(&pane), vec![".git", "src", "lib.rs", "README"]);
    assert!(!pane.flat_tree().get_node(git).unwrap().expanded);
}

#[test]
fn execute_operations_applies_newest_first() {
    let mut pane = UiDirectory::new(tree_of(FS, "p"));
    let readme = id(&pane, "p/README");
    pane.queue_operation(UIDOperation::RENAME(readme, "first".to_string()));
    pane.queue_operation(UIDOperation::RENAME(readme, "second".to_string()));
    pane.execute_operations();
    assert_eq!(pane.flat_tree().get_node(readme).unwrap().file_entry.name, "first");
}

#[test]
fn execute_operations_rename_then_delete_leaves_node_gone() {
    let mut pane = UiDirectory::new(tree_of(FS, "p"));
    let src = id(&pane, "p/src");
    let lib = id(&pane, "p/src/lib.rs");
    pane.queue_operation(UIDOperation::DELETE(src));
    pane.queue_operation(UIDOperation::RENAME(src, "source".to_string()));
    pane.execute_operations();
    assert!(pane.flat_tree().get_node(src).is_none());
    assert!(pane.flat_tree().get_node(lib).is_none());
    assert_eq!(pane.flat_tree().len(), 3);
}
