use fs_tree::structural_eq;
use fs_tree::Entry;
use fs_tree::IdGenerator;
use fs_tree::RemoteTree;
use fs_tree::TreeService;

// A stand-in for a concrete tree: a path, a root, and a population signal,
// as a local fixture on the server side.
struct TestTree {
    path: String,
    root: Entry,
    populated: bool,
}

impl TestTree {
    fn new(path: &str, root: Entry) -> TestTree {
        TestTree { path: String::from(path), root, populated: false }
    }
}

#[test]
fn test_tree_replication() {
    let mut ids = IdGenerator::new();
    let mut root = Entry::dir(ids.fresh(), String::from("root"), false, false);
    let mut child_1 = Entry::dir(ids.fresh(), String::from("child-1"), false, false);
    assert_eq!(
        child_1.insert(Entry::file(ids.fresh(), String::from("subchild"), false, false)),
        Ok(())
    );
    assert_eq!(root.insert(child_1), Ok(()));
    assert_eq!(
        root.insert(Entry::file(ids.fresh(), String::from("child-2"), false, false)),
        Ok(())
    );

    let mut local_tree = TestTree::new("/foo/bar", root);
    let mut service = TreeService::new();

    // Connecting fetches the initial state: a placeholder with the real
    // root's name but no children.
    let remote_tree = RemoteTree::new(service.state(&local_tree.root, ids.fresh()));
    assert_eq!(remote_tree.root().name(), local_tree.root.name());
    assert_eq!(remote_tree.root().children().unwrap().len(), 0);

    // While the local tree is not yet populated, no update is delivered.
    assert!(service.poll_update(local_tree.populated, &local_tree.root).is_none());

    // Population resolves: exactly one update carries the full root.
    local_tree.populated = true;
    let mut remote_tree = remote_tree;
    match service.poll_update(local_tree.populated, &local_tree.root) {
        Some(update) => remote_tree.apply_update(update),
        None => panic!("the population update is owed"),
    }
    assert!(structural_eq(&remote_tree.root(), &local_tree.root));

    // No second update is ever delivered on this connection.
    assert!(service.poll_update(local_tree.populated, &local_tree.root).is_none());
    assert!(service.poll_update(local_tree.populated, &local_tree.root).is_none());
    assert_eq!(local_tree.path, "/foo/bar");
}

#[test]
fn mirror_replaces_cache_on_update() {
    let placeholder = Entry::dir(0, String::from("root"), false, false);
    let mut full = Entry::dir(1, String::from("root"), false, false);
    assert_eq!(full.insert(Entry::file(2, String::from("a"), false, false)), Ok(()));

    let mut mirror = RemoteTree::new(placeholder);
    assert_eq!(mirror.root().children().unwrap().len(), 0);
    mirror.apply_update(full);
    let cached = mirror.root();
    assert_eq!(cached.children().unwrap().len(), 1);
    assert_eq!(cached.children().unwrap()[0].name(), "a");
}
