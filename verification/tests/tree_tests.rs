use dirtree::tree::TreeItem;

#[test]
fn new_top_level() {
    let tree = TreeItem::new_top_level("root".to_string(), true);
    let root = &tree.nodes[0];
    assert_eq!(root.text, "root");
    assert!(root.is_dir);
    assert!(root.is_last);
    assert!(root.children.is_empty());
    assert!(root.parent.is_none());
}

#[test]
fn new_child() {
    let mut tree = TreeItem::new_top_level("root".to_string(), true);
    let child_idx = TreeItem::new(&mut tree, 0, "child".to_string(), false, true);

    let root = &tree.nodes[0];
    assert_eq!(root.children.len(), 1);

    let child = &tree.nodes[child_idx];
    assert_eq!(child.text, "child");
    assert!(!child.is_dir);
    assert!(child.is_last);
    assert!(child.children.is_empty());
    assert!(child.parent.is_some());
}

#[test]
fn to_row_str_single_item() {
    let tree = TreeItem::new_top_level("root".to_string(), true);
    let result = TreeItem::to_row_str(&tree, 0, false);
    assert_eq!(result, "root/");
}

#[test]
fn to_row_str_with_children() {
    let mut tree = TreeItem::new_top_level("root".to_string(), true);
    TreeItem::new(&mut tree, 0, "file1.txt".to_string(), false, false);
    TreeItem::new(&mut tree, 0, "file2.txt".to_string(), false, true);

    let result = TreeItem::to_row_str(&tree, 0, false);
    let expected = "root/\n ├── file1.txt\n └── file2.txt";
    assert_eq!(result, expected);
}

#[test]
fn to_row_str_nested_structure() {
    let mut tree = TreeItem::new_top_level("root".to_string(), true);
    let folder = TreeItem::new(&mut tree, 0, "folder".to_string(), true, false);
    TreeItem::new(&mut tree, folder, "file_in_folder.txt".to_string(), false, true);
    TreeItem::new(&mut tree, 0, "file_in_root.txt".to_string(), false, true);

    let result = TreeItem::to_row_str(&tree, 0, false);
    let expected = "root/\n ├── folder/\n │   └── file_in_folder.txt\n └── file_in_root.txt";
    assert_eq!(result, expected);
}

#[test]
fn display() {
    let item = TreeItem {
        text: "test".to_string(),
        is_dir: true,
        is_last: false,
        children: Vec::new(),
        parent: None,
    };
    assert_eq!(item.display_string(), "test/");

    let file_item = TreeItem {
        text: "file.txt".to_string(),
        is_dir: false,
        is_last: true,
        children: Vec::new(),
        parent: None,
    };
    assert_eq!(file_item.display_string(), "file.txt");
}

#[test]
fn display_rewrites_backslashes() {
    let item = TreeItem {
        text: "dir\\sub".to_string(),
        is_dir: true,
        is_last: true,
        children: Vec::new(),
        parent: None,
    };
    assert_eq!(item.display_string(), "dir/sub/");

    let already_slashed = TreeItem {
        text: "dir/".to_string(),
        is_dir: true,
        is_last: true,
        children: Vec::new(),
        parent: None,
    };
    assert_eq!(already_slashed.display_string(), "dir/");
}

#[test]
fn deep_nesting_continuation_glyphs() {
    let mut tree = TreeItem::new_top_level("root".to_string(), true);
    let outer = TreeItem::new(&mut tree, 0, "outer".to_string(), true, false);
    let inner = TreeItem::new(&mut tree, outer, "inner".to_string(), true, true);
    TreeItem::new(&mut tree, inner, "leaf.txt".to_string(), false, true);
    TreeItem::new(&mut tree, 0, "tail.txt".to_string(), false, true);

    let result = TreeItem::to_row_str(&tree, 0, false);
    let expected = "root/\n ├── outer/\n │   └── inner/\n │       └── leaf.txt\n └── tail.txt";
    assert_eq!(result, expected);
}
