use mdvault::error::AppError;
use mdvault::tree::{build_tree, keep_set, read_directory, DirectoryScan, EntryKind, FileEntry};

fn scan_root() -> DirectoryScan {
    DirectoryScan::new("vault".to_string(), "/vault".to_string(), EntryKind::Directory)
}

fn add(scan: &mut DirectoryScan, parent: usize, name: &str, kind: EntryKind) -> usize {
    let path = format!("{}/{}", scan.entry(parent).path, name);
    scan.add(parent, name.to_string(), path, kind).unwrap()
}

fn names(nodes: &[FileEntry]) -> Vec<&str> {
    nodes.iter().map(|n| n.name.as_str()).collect()
}

#[test]
fn directories_first_then_files_ignoring_case() {
    let mut scan = scan_root();
    add(&mut scan, 0, "B.md", EntryKind::File);
    add(&mut scan, 0, "a.md", EntryKind::File);
    let notes = add(&mut scan, 0, "Notes", EntryKind::Directory);
    add(&mut scan, notes, "x.md", EntryKind::File);
    let tree = read_directory(&scan).unwrap();
    assert_eq!(names(&tree), vec!["Notes", "a.md", "B.md"]);
    assert!(tree[0].is_directory);
    assert_eq!(tree[0].path, "/vault/Notes");
    let below = tree[0].children.as_ref().unwrap();
    assert_eq!(names(below), vec!["x.md"]);
    assert!(!below[0].is_directory);
    assert!(below[0].children.is_none());
    assert_eq!(below[0].path, "/vault/Notes/x.md");
    assert!(tree[1].children.is_none());
}

#[test]
fn directories_without_markdown_are_pruned() {
    let mut scan = scan_root();
    let empty = add(&mut scan, 0, "empty", EntryKind::Directory);
    add(&mut scan, empty, "deeper", EntryKind::Directory);
    let pictures = add(&mut scan, 0, "pictures", EntryKind::Directory);
    add(&mut scan, pictures, "cat.png", EntryKind::File);
    let a = add(&mut scan, 0, "a", EntryKind::Directory);
    let b = add(&mut scan, a, "b", EntryKind::Directory);
    let c = add(&mut scan, b, "c", EntryKind::Directory);
    add(&mut scan, c, "deep.MD", EntryKind::File);
    add(&mut scan, b, "notes.txt", EntryKind::File);
    add(&mut scan, a, "link.md", EntryKind::Other);
    let tree = read_directory(&scan).unwrap();
    assert_eq!(names(&tree), vec!["a"]);
    let in_a = tree[0].children.as_ref().unwrap();
    assert_eq!(names(in_a), vec!["b"]);
    let in_b = in_a[0].children.as_ref().unwrap();
    assert_eq!(names(in_b), vec!["c"]);
    let in_c = in_b[0].children.as_ref().unwrap();
    assert_eq!(names(in_c), vec!["deep.MD"]);
}

#[test]
fn keep_set_marks_ancestors_of_markdown_files() {
    let mut scan = scan_root();
    let a = add(&mut scan, 0, "a", EntryKind::Directory);
    let b = add(&mut scan, a, "b", EntryKind::Directory);
    let c = add(&mut scan, 0, "c", EntryKind::Directory);
    let f = add(&mut scan, b, "f.md", EntryKind::File);
    let g = add(&mut scan, b, "g.md", EntryKind::File);
    let keep = keep_set(&scan);
    assert_eq!(keep.len(), scan.len());
    assert!(keep[0] && keep[a] && keep[b]);
    assert!(!keep[c] && !keep[f] && !keep[g]);
    let below_a = build_tree(&scan, &keep, a);
    assert_eq!(names(&below_a), vec!["b"]);
}

#[test]
fn no_markdown_gives_an_empty_tree() {
    let mut scan = scan_root();
    let d = add(&mut scan, 0, "docs", EntryKind::Directory);
    add(&mut scan, d, "readme.txt", EntryKind::File);
    assert_eq!(read_directory(&scan), Ok(Vec::new()));
    assert_eq!(read_directory(&scan_root()), Ok(Vec::new()));
}

#[test]
fn a_root_that_is_no_directory_is_refused() {
    let scan = DirectoryScan::new("a.md".to_string(), "/vault/a.md".to_string(), EntryKind::File);
    assert_eq!(read_directory(&scan), Err(AppError::NotDirectory("/vault/a.md".to_string())));
    assert_eq!(
        read_directory(&scan).unwrap_err().message(),
        "Not a directory: /vault/a.md"
    );
}

#[test]
fn reading_twice_gives_the_same_tree() {
    let mut scan = scan_root();
    let n = add(&mut scan, 0, "n", EntryKind::Directory);
    add(&mut scan, n, "z.md", EntryKind::File);
    add(&mut scan, n, "Y.md", EntryKind::File);
    add(&mut scan, 0, "top.md", EntryKind::File);
    assert_eq!(read_directory(&scan), read_directory(&scan));
}

#[test]
fn equal_names_keep_the_order_of_the_scan() {
    let mut scan = scan_root();
    add(&mut scan, 0, "b.md", EntryKind::File);
    add(&mut scan, 0, "A.MD", EntryKind::File);
    add(&mut scan, 0, "a.md", EntryKind::File);
    add(&mut scan, 0, "B.md", EntryKind::File);
    let tree = read_directory(&scan).unwrap();
    assert_eq!(names(&tree), vec!["A.MD", "a.md", "b.md", "B.md"]);
}

#[test]
fn entries_are_added_below_directories_only() {
    let mut scan = scan_root();
    let f = add(&mut scan, 0, "f.md", EntryKind::File);
    assert_eq!(scan.add(f, "x".to_string(), "/vault/f.md/x".to_string(), EntryKind::File), None);
    assert_eq!(scan.add(7, "x".to_string(), "/vault/x".to_string(), EntryKind::File), None);
    assert_eq!(scan.len(), 2);
    assert_eq!(scan.entry(1).name, "f.md");
    assert_eq!(scan.entry(1).parent, 0);
}

#[test]
fn lowercase_wrapper_orders_non_ascii_names() {
    let mut scan = scan_root();
    add(&mut scan, 0, "Zebra.md", EntryKind::File);
    add(&mut scan, 0, "\u{c4}pfel.md", EntryKind::File);
    add(&mut scan, 0, "\u{e4}hre.md", EntryKind::File);
    let tree = read_directory(&scan).unwrap();
    assert_eq!(names(&tree), vec!["Zebra.md", "\u{e4}hre.md", "\u{c4}pfel.md"]);
}

fn leaves_are_markdown(nodes: &[FileEntry]) -> bool {
    nodes.iter().all(|n| match &n.children {
        Some(below) => n.is_directory && !below.is_empty() && leaves_are_markdown(below),
        None => !n.is_directory && n.name.to_lowercase().ends_with(".md"),
    })
}

#[test]
fn every_leaf_is_a_markdown_file() {
    let mut scan = scan_root();
    let a = add(&mut scan, 0, "a", EntryKind::Directory);
    let b = add(&mut scan, 0, "b", EntryKind::Directory);
    add(&mut scan, a, "one.md", EntryKind::File);
    add(&mut scan, a, "one.pdf", EntryKind::File);
    let c = add(&mut scan, b, "c", EntryKind::Directory);
    add(&mut scan, c, "img.png", EntryKind::File);
    let d = add(&mut scan, a, "d", EntryKind::Directory);
    add(&mut scan, d, "two.MD", EntryKind::File);
    let tree = read_directory(&scan).unwrap();
    assert!(leaves_are_markdown(&tree));
    assert_eq!(names(&tree), vec!["a"]);
    assert_eq!(names(tree[0].children.as_ref().unwrap()), vec!["d", "one.md"]);
}

#[test]
fn scan_lists_the_entries_of_each_directory() {
    let mut scan = scan_root();
    let a = add(&mut scan, 0, "a", EntryKind::Directory);
    let x = add(&mut scan, a, "x.md", EntryKind::File);
    let b = add(&mut scan, 0, "b", EntryKind::Directory);
    let y = add(&mut scan, a, "y.md", EntryKind::File);
    assert_eq!(scan.entries_of(0), &vec![a, b]);
    assert_eq!(scan.entries_of(a), &vec![x, y]);
    assert!(scan.entries_of(b).is_empty());
    assert!(scan.entries_of(x).is_empty());
}

#[test]
fn a_copy_of_a_node_is_the_node() {
    let mut scan = scan_root();
    let n = add(&mut scan, 0, "n", EntryKind::Directory);
    let m = add(&mut scan, n, "m", EntryKind::Directory);
    add(&mut scan, m, "deep.md", EntryKind::File);
    add(&mut scan, n, "z.md", EntryKind::File);
    let tree = read_directory(&scan).unwrap();
    let copy = tree[0].clone();
    assert_eq!(copy, tree[0]);
    assert_eq!(copy.children.unwrap()[0].children.as_ref().unwrap()[0].name, "deep.md");
}
