use dirtree::builder::{attach_entries, FsEntry};
use dirtree::tree::TreeItem;

fn entry(name: &str, is_dir: bool, excluded: bool) -> FsEntry {
    FsEntry { name: name.to_string(), is_dir, excluded }
}

#[test]
fn attach_keeps_every_entry_without_ignore_awareness() {
    let mut tree = TreeItem::new_top_level("root".to_string(), true);
    let entries = vec![
        entry("dir1", true, false),
        entry("file1.txt", false, false),
        entry("dir2", true, false),
    ];
    let kept_dirs = attach_entries(&mut tree, 0, &entries, false);

    assert_eq!(tree.nodes[0].children.len(), 3);
    assert_eq!(tree.nodes.len(), 4);
    assert_eq!(tree.nodes[1].text, "dir1");
    assert_eq!(tree.nodes[2].text, "file1.txt");
    assert_eq!(tree.nodes[3].text, "dir2");
    assert!(!tree.nodes[1].is_last);
    assert!(!tree.nodes[2].is_last);
    assert!(tree.nodes[3].is_last);
    assert_eq!(kept_dirs, vec![1, 3]);
}

#[test]
fn attach_skips_vcs_metadata_directory_unconditionally() {
    let mut tree = TreeItem::new_top_level("root".to_string(), true);
    let entries = vec![
        entry(".git", true, false),
        entry("file1.txt", false, false),
    ];
    let kept_dirs = attach_entries(&mut tree, 0, &entries, true);

    assert_eq!(tree.nodes[0].children.len(), 1);
    assert_eq!(tree.nodes[1].text, "file1.txt");
    assert!(tree.nodes[1].is_last);
    assert!(kept_dirs.is_empty());
    for node in &tree.nodes {
        assert_ne!(node.text, ".git");
    }
}

#[test]
fn attach_keeps_vcs_metadata_directory_when_ignore_awareness_is_off() {
    let mut tree = TreeItem::new_top_level("root".to_string(), true);
    let entries = vec![entry(".git", true, false), entry("a.txt", false, false)];
    attach_entries(&mut tree, 0, &entries, false);

    assert_eq!(tree.nodes[0].children.len(), 2);
    assert_eq!(tree.nodes[1].text, ".git");
}

#[test]
fn attach_skips_excluded_entries_and_recomputes_last_flag() {
    let mut tree = TreeItem::new_top_level("root".to_string(), true);
    let entries = vec![
        entry("kept.txt", false, false),
        entry("ignored_dir", true, true),
    ];
    let kept_dirs = attach_entries(&mut tree, 0, &entries, true);

    // the trailing excluded entry is absent and the last-sibling flag
    // moves to the new final kept entry
    assert_eq!(tree.nodes[0].children.len(), 1);
    assert_eq!(tree.nodes[1].text, "kept.txt");
    assert!(tree.nodes[1].is_last);
    assert!(kept_dirs.is_empty());

    let rendered = TreeItem::to_row_str(&tree, 0, false);
    assert_eq!(rendered, "root/\n └── kept.txt");
}

#[test]
fn attach_ignores_exclusion_verdicts_when_ignore_awareness_is_off() {
    let mut tree = TreeItem::new_top_level("root".to_string(), true);
    let entries = vec![entry("a.txt", false, true), entry("b.txt", false, false)];
    attach_entries(&mut tree, 0, &entries, false);

    assert_eq!(tree.nodes[0].children.len(), 2);
    assert_eq!(tree.nodes[1].text, "a.txt");
    assert!(!tree.nodes[1].is_last);
    assert!(tree.nodes[2].is_last);
}

#[test]
fn attach_exactly_one_last_sibling_among_kept() {
    let mut tree = TreeItem::new_top_level("root".to_string(), true);
    let entries = vec![
        entry("a.txt", false, false),
        entry("b", true, false),
        entry("c.txt", false, true),
        entry("d.txt", false, false),
        entry("e.txt", false, true),
    ];
    attach_entries(&mut tree, 0, &entries, true);

    // three kept entries, exactly one flagged last: the final kept one
    assert_eq!(tree.nodes[0].children.len(), 3);
    let last_flags: Vec<bool> = tree.nodes[0]
        .children
        .iter()
        .map(|&c| tree.nodes[c].is_last)
        .collect();
    assert_eq!(last_flags, vec![false, false, true]);
    assert_eq!(tree.nodes[*tree.nodes[0].children.last().unwrap()].text, "d.txt");
}

#[test]
fn building_twice_from_the_same_listing_renders_identically() {
    let entries = vec![
        entry("folder", true, false),
        entry("note.txt", false, false),
        entry("ignored", true, true),
    ];
    let inner = vec![entry("deep.txt", false, false)];

    let mut first_render = String::new();
    let mut second_render = String::new();
    for render in [&mut first_render, &mut second_render] {
        let mut tree = TreeItem::new_top_level("root".to_string(), true);
        let kept_dirs = attach_entries(&mut tree, 0, &entries, true);
        for idx in kept_dirs {
            attach_entries(&mut tree, idx, &inner, true);
        }
        *render = TreeItem::to_row_str(&tree, 0, false);
    }
    assert_eq!(first_render, second_render);
    assert_eq!(
        first_render,
        "root/\n ├── folder/\n │   └── deep.txt\n └── note.txt"
    );
}

#[test]
fn recursive_build_renders_nested_levels() {
    let mut tree = TreeItem::new_top_level("root".to_string(), true);
    let top = vec![
        entry("dir1", true, false),
        entry("dir2", true, false),
        entry("file1.txt", false, false),
    ];
    let kept_dirs = attach_entries(&mut tree, 0, &top, false);
    assert_eq!(kept_dirs.len(), 2);

    let dir1_entries = vec![entry("file2.txt", false, false)];
    attach_entries(&mut tree, kept_dirs[0], &dir1_entries, false);
    let empty: Vec<FsEntry> = Vec::new();
    attach_entries(&mut tree, kept_dirs[1], &empty, false);

    let dir1 = &tree.nodes[kept_dirs[0]];
    assert_eq!(dir1.text, "dir1");
    assert!(dir1.is_dir);
    assert_eq!(dir1.children.len(), 1);
    let dir2 = &tree.nodes[kept_dirs[1]];
    assert_eq!(dir2.text, "dir2");
    assert_eq!(dir2.children.len(), 0);

    let rendered = TreeItem::to_row_str(&tree, 0, false);
    let expected = "root/\n ├── dir1/\n │   └── file2.txt\n ├── dir2/\n └── file1.txt";
    assert_eq!(rendered, expected);
}
