use fs_tree::decode;
use fs_tree::encode;
use fs_tree::structural_eq;
use fs_tree::Entry;
use fs_tree::IdGenerator;
use fs_tree::WireDir;
use fs_tree::WireEntry;

fn dir(ids: &mut IdGenerator, name: &str) -> Entry {
    Entry::dir(ids.fresh(), String::from(name), false, false)
}

fn file(ids: &mut IdGenerator, name: &str) -> Entry {
    Entry::file(ids.fresh(), String::from(name), false, false)
}

fn insert_all(parent: &mut Entry, children: Vec<Entry>) {
    for child in children {
        assert_eq!(parent.insert(child), Ok(()));
    }
}

#[test]
fn test_serialize_deserialize() {
    let mut ids = IdGenerator::new();
    let mut root = dir(&mut ids, "root");

    let mut child_1 = dir(&mut ids, "child-1");
    let subchild_1_1 = file(&mut ids, "subchild-1-1");
    insert_all(&mut child_1, vec![subchild_1_1]);

    let child_2 = file(&mut ids, "child-2");

    let mut child_3 = dir(&mut ids, "child-3");
    let mut subchild_3_1 = dir(&mut ids, "subchild-3-1");
    let subchild_3_1_1 = file(&mut ids, "subchild-3-1-1");
    let subchild_3_1_2 = file(&mut ids, "subchild-3-1-2");
    insert_all(&mut subchild_3_1, vec![subchild_3_1_1, subchild_3_1_2]);
    insert_all(&mut child_3, vec![subchild_3_1]);

    insert_all(&mut root, vec![child_1, child_2, child_3]);

    let wire = encode(&root);
    let mut fresh_ids = IdGenerator::new();
    let decoded = decode(&wire, &mut fresh_ids);
    assert!(structural_eq(&decoded, &root));
}

#[test]
fn round_trip_of_empty_directory() {
    let root = Entry::dir(42, String::from("root"), false, false);
    let wire = encode(&root);
    let mut ids = IdGenerator::new();
    let decoded = decode(&wire, &mut ids);
    assert!(structural_eq(&decoded, &root));
    assert!(decoded.is_dir());
    assert_eq!(decoded.children().expect("empty directory").len(), 0);
}

#[test]
fn decode_recomputes_name_chars_and_assigns_fresh_identity() {
    // A wire directory never carries the derived cache; the decoder derives
    // it from the name, separator included.
    let wire = WireEntry::Dir(WireDir {
        name: String::from("docs"),
        children: Vec::new(),
        symlink: true,
        ignored: false,
    });
    let mut ids = IdGenerator::new();
    let first = decode(&wire, &mut ids);
    let second = decode(&wire, &mut ids);
    assert_eq!(first.name_chars(), &vec!['d', 'o', 'c', 's', '/']);
    assert!(first.is_symlink());
    assert!(!first.is_ignored());
    // Each decoded tree draws a fresh process-local identity.
    assert_ne!(first.id(), second.id());
    assert!(structural_eq(&first, &second));
}

#[test]
fn round_trip_preserves_flags() {
    let mut root = Entry::dir(0, String::from("root"), false, true);
    assert_eq!(root.insert(Entry::file(1, String::from("link"), true, false)), Ok(()));
    let wire = encode(&root);
    let mut ids = IdGenerator::new();
    let decoded = decode(&wire, &mut ids);
    assert!(structural_eq(&decoded, &root));
    assert!(decoded.is_ignored());
    let children = decoded.children().expect("directory");
    assert!(children[0].is_symlink());
}

#[test]
fn id_generator_counts_up() {
    let mut ids = IdGenerator::new();
    assert_eq!(ids.fresh(), 0);
    assert_eq!(ids.fresh(), 1);
    assert_eq!(ids.fresh(), 2);
}
