use fs_tree::Entry;
use fs_tree::TreeError;

fn child_names(e: &Entry) -> Vec<String> {
    e.children()
        .expect("children of a directory")
        .iter()
        .map(|c| c.name().clone())
        .collect()
}

#[test]
fn test_insert() {
    let mut root = Entry::dir(0, String::from("root"), false, false);
    assert_eq!(root.insert(Entry::file(1, String::from("a"), false, false)), Ok(()));
    assert_eq!(root.insert(Entry::file(2, String::from("c"), false, false)), Ok(()));
    assert_eq!(root.insert(Entry::file(3, String::from("b"), false, false)), Ok(()));
    assert_eq!(
        root.insert(Entry::file(4, String::from("a"), false, false)),
        Err(TreeError::DuplicateName)
    );
    assert_eq!(child_names(&root), vec!["a", "b", "c"]);
}

#[test]
fn insert_on_file_is_not_a_directory() {
    let mut leaf = Entry::file(0, String::from("leaf"), false, false);
    let child = Entry::file(1, String::from("a"), false, false);
    assert_eq!(leaf.insert(child), Err(TreeError::NotADirectory));
    assert!(leaf.children().is_none());
    assert_eq!(leaf.name(), "leaf");
}

#[test]
fn duplicate_name_between_file_and_dir() {
    let mut root = Entry::dir(0, String::from("root"), false, false);
    assert_eq!(root.insert(Entry::dir(1, String::from("a"), false, false)), Ok(()));
    assert_eq!(
        root.insert(Entry::file(2, String::from("a"), false, false)),
        Err(TreeError::DuplicateName)
    );
    assert_eq!(child_names(&root), vec!["a"]);
}

#[test]
fn insert_keeps_children_sorted() {
    let mut root = Entry::dir(0, String::from("root"), false, false);
    let names = ["delta", "alpha", "echo", "bravo", "charlie", "foxtrot"];
    let mut id: usize = 1;
    for name in names.iter() {
        assert_eq!(root.insert(Entry::file(id, String::from(*name), false, false)), Ok(()));
        id += 1;
        let observed = child_names(&root);
        let mut sorted = observed.clone();
        sorted.sort();
        sorted.dedup();
        assert_eq!(observed, sorted);
    }
    assert_eq!(
        child_names(&root),
        vec!["alpha", "bravo", "charlie", "delta", "echo", "foxtrot"]
    );
}

#[test]
fn order_is_by_name_not_by_name_chars() {
    // "a!" sorts after "a" by name, although the directory's derived cache
    // "a/" would sort after "a!".
    let mut root = Entry::dir(0, String::from("root"), false, false);
    assert_eq!(root.insert(Entry::dir(1, String::from("a"), false, false)), Ok(()));
    assert_eq!(root.insert(Entry::file(2, String::from("a!"), false, false)), Ok(()));
    assert_eq!(child_names(&root), vec!["a", "a!"]);
}

#[test]
fn children_snapshot_is_stable_across_insert() {
    let mut root = Entry::dir(0, String::from("root"), false, false);
    assert_eq!(root.insert(Entry::file(1, String::from("a"), false, false)), Ok(()));
    assert_eq!(root.insert(Entry::file(2, String::from("c"), false, false)), Ok(()));
    let snapshot = root.children().expect("directory has children");
    let snapshot_names: Vec<String> = snapshot.iter().map(|c| c.name().clone()).collect();
    assert_eq!(root.insert(Entry::file(3, String::from("b"), false, false)), Ok(()));
    // The snapshot taken before the insert keeps its length and order.
    assert_eq!(snapshot.len(), 2);
    let names_after: Vec<String> = snapshot.iter().map(|c| c.name().clone()).collect();
    assert_eq!(names_after, snapshot_names);
    assert_eq!(names_after, vec!["a", "c"]);
    // The directory itself sees the new child.
    assert_eq!(child_names(&root), vec!["a", "b", "c"]);
}

#[test]
fn accessors_report_construction_values() {
    let file = Entry::file(7, String::from("notes"), true, false);
    assert!(!file.is_dir());
    assert_eq!(file.id(), 7);
    assert_eq!(file.name(), "notes");
    assert!(file.is_symlink());
    assert!(!file.is_ignored());
    assert_eq!(file.name_chars(), &vec!['n', 'o', 't', 'e', 's']);

    let dir = Entry::dir(8, String::from("src"), false, true);
    assert!(dir.is_dir());
    assert_eq!(dir.id(), 8);
    assert_eq!(dir.name(), "src");
    assert!(!dir.is_symlink());
    assert!(dir.is_ignored());
    // Directories carry a separator after the name in the derived cache.
    assert_eq!(dir.name_chars(), &vec!['s', 'r', 'c', '/']);
    assert_eq!(dir.children().expect("empty directory").len(), 0);
}
