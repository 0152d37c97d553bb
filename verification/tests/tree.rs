use rit::ObjectKind;
use rit::commands::Commands;
use rit::git_object::GitObject;
use rit::object_id::ObjectId;
use rit::tree::Tree;
use rit::tree::TreeEntry;

fn file_entry(name: &str, id: &ObjectId) -> TreeEntry {
    TreeEntry {
        mode: "100644".to_string(),
        name: name.to_string(),
        id: ObjectId::new(&id.to_string()),
    }
}

fn dir_entry(name: &str, id: &ObjectId) -> TreeEntry {
    TreeEntry {
        mode: "40000".to_string(),
        name: name.to_string(),
        id: ObjectId::new(&id.to_string()),
    }
}

#[test]
fn empty_tree_has_the_well_known_id() {
    let (tree, _) = Commands::write_tree(Vec::new());
    assert_eq!(
        tree.id.to_string(),
        "4b825dc642cb6eb9a060e54bf8d69288fbee4904"
    );
}

#[test]
fn write_tree_orders_file_before_directory() {
    let content: Vec<u8> = b"x".to_vec();
    let (blob_id, _) = Commands::hash_object(&content);
    let (empty_tree, _) = Commands::write_tree(Vec::new());

    // Insert in the wrong order on purpose: b first, then a.txt.
    let entries = vec![
        dir_entry("b", &empty_tree.id),
        file_entry("a.txt", &blob_id),
    ];
    let (tree, _) = Commands::write_tree(entries);
    assert_eq!(tree.entries.len(), 2);
    assert_eq!(tree.entries[0].name, "a.txt");
    assert_eq!(tree.entries[0].mode, "100644");
    assert_eq!(tree.entries[1].name, "b");
    assert_eq!(tree.entries[1].mode, "40000");
}

#[test]
fn write_tree_id_is_order_independent() {
    let (a, _) = Commands::hash_object(&b"alpha".to_vec());
    let (b, _) = Commands::hash_object(&b"beta".to_vec());
    let (c, _) = Commands::hash_object(&b"gamma".to_vec());
    let one = vec![
        file_entry("one", &a),
        file_entry("two", &b),
        file_entry("three", &c),
    ];
    let other = vec![
        file_entry("three", &c),
        file_entry("one", &a),
        file_entry("two", &b),
    ];
    let (t1, z1) = Commands::write_tree(one);
    let (t2, z2) = Commands::write_tree(other);
    assert_eq!(t1.id.to_string(), t2.id.to_string());
    assert_eq!(z1, z2);
}

#[test]
fn duplicate_names_keep_the_first_insertion() {
    let (a, _) = Commands::hash_object(&b"first".to_vec());
    let (b, _) = Commands::hash_object(&b"second".to_vec());
    let entries = vec![file_entry("same", &a), file_entry("same", &b)];
    let (tree, _) = Commands::write_tree(entries);
    assert_eq!(tree.entries.len(), 1);
    assert_eq!(tree.entries[0].id.to_string(), a.to_string());
}

#[test]
fn tree_round_trip_through_the_store() {
    let (a, _) = Commands::hash_object(&b"alpha".to_vec());
    let (b, _) = Commands::hash_object(&b"beta".to_vec());
    let entries = vec![file_entry("beta.txt", &b), file_entry("alpha.txt", &a)];
    let (tree, compressed) = Commands::write_tree(entries);
    let oid = ObjectId::new(&tree.id.to_string());
    let read = GitObject::from_oid(oid, &compressed).unwrap();
    match read {
        GitObject::Tree(t) => {
            assert_eq!(t.entries.len(), 2);
            assert_eq!(t.entries[0].name, "alpha.txt");
            assert_eq!(t.entries[0].mode, "100644");
            assert_eq!(t.entries[0].id.to_string(), a.to_string());
            assert_eq!(t.entries[1].name, "beta.txt");
            assert_eq!(t.entries[1].id.to_string(), b.to_string());
        }
        _ => panic!("expected a tree"),
    }
}

#[test]
fn ls_tree_name_only_prints_sorted_names() {
    let (blob, _) = Commands::hash_object(&b"data".to_vec());
    // Inserted as b then a; the listing must come out a then b.
    let entries = vec![file_entry("b", &blob), file_entry("a", &blob)];
    let (tree, _) = Commands::write_tree(entries);
    let listing = Commands::ls_tree(&GitObject::Tree(tree), true, &Vec::new()).unwrap();
    assert_eq!(listing, "a\nb\n");
}

#[test]
fn ls_tree_full_listing_format() {
    let content: Vec<u8> = b"x".to_vec();
    let (blob_id, _) = Commands::hash_object(&content);
    let (empty_tree, _) = Commands::write_tree(Vec::new());
    let entries = vec![
        dir_entry("b", &empty_tree.id),
        file_entry("a.txt", &blob_id),
    ];
    let (tree, _) = Commands::write_tree(entries);
    let kinds = vec![ObjectKind::Blob, ObjectKind::Tree];
    let listing = Commands::ls_tree(&GitObject::Tree(tree), false, &kinds).unwrap();
    let expected = format!(
        "100644 blob {}\ta.txt\n40000 tree {}\tb\n",
        blob_id.to_string(),
        empty_tree.id.to_string()
    );
    assert_eq!(listing, expected);
}

#[test]
fn ls_tree_rejects_a_blob() {
    let (id, compressed) = Commands::hash_object(&b"not a tree".to_vec());
    let obj = GitObject::from_oid(id, &compressed).unwrap();
    assert_eq!(
        Commands::ls_tree(&obj, true, &Vec::new()).unwrap_err(),
        rit::GitError::UnsupportedObjectKind
    );
}

#[test]
fn handle_entries_serializes_mode_name_and_raw_id() {
    let id = ObjectId::new("ce013625030ba8dba906f756967f9e9ca394464a");
    let entries = vec![file_entry("a", &id)];
    let body = Tree::handle_entries(&entries);
    let mut expected: Vec<u8> = Vec::new();
    expected.extend_from_slice(b"100644 a\x00");
    expected.extend_from_slice(&id.as_bytes());
    assert_eq!(body, expected);
}

#[test]
fn git_object_write_matches_write_tree() {
    let (blob, _) = Commands::hash_object(&b"data".to_vec());
    let entries = vec![file_entry("f", &blob)];
    let (tree, compressed) = Commands::write_tree(entries);
    let expected_id = tree.id.to_string();
    let (id2, compressed2) = GitObject::Tree(tree).write();
    assert_eq!(id2.to_string(), expected_id);
    assert_eq!(compressed2, compressed);
}

#[test]
fn entry_constructors_check_the_name() {
    let id = ObjectId::new("ce013625030ba8dba906f756967f9e9ca394464a");
    let e = TreeEntry::file("ok.txt".to_string(), ObjectId::new(&id.to_string())).unwrap();
    assert_eq!(e.mode, "100644");
    assert_eq!(e.name, "ok.txt");
    let d = TreeEntry::directory("sub".to_string(), ObjectId::new(&id.to_string())).unwrap();
    assert_eq!(d.mode, "40000");
    assert!(TreeEntry::file("bad\u{0}name".to_string(), id).is_none());
}
