use rit::GitError;
use rit::commands::Commands;
use rit::git_object::GitObject;
use rit::object_id::ObjectId;

const TREE_ID: &str = "4b825dc642cb6eb9a060e54bf8d69288fbee4904";
const PARENT_ID: &str = "ce013625030ba8dba906f756967f9e9ca394464a";

#[test]
fn write_commit_builds_the_exact_body() {
    let (commit, _) =
        Commands::write_commit("hi".to_string(), None, TREE_ID.to_string(), 0).unwrap();
    let expected = format!(
        "tree {}\nauthor rit <rit@localhost> 0 +0000\ncommitter rit <rit@localhost> 0 +0000\n\nhi\n",
        TREE_ID
    );
    assert_eq!(commit.body, expected.into_bytes());
}

#[test]
fn write_commit_includes_the_parent_line() {
    let (commit, _) = Commands::write_commit(
        "msg".to_string(),
        Some(PARENT_ID.to_string()),
        TREE_ID.to_string(),
        1700000000,
    )
    .unwrap();
    let expected = format!(
        "tree {}\nparent {}\nauthor rit <rit@localhost> 1700000000 +0000\ncommitter rit <rit@localhost> 1700000000 +0000\n\nmsg\n",
        TREE_ID, PARENT_ID
    );
    assert_eq!(commit.body, expected.into_bytes());
}

#[test]
fn write_commit_is_deterministic_for_fixed_seconds() {
    let (c1, z1) =
        Commands::write_commit("m".to_string(), None, TREE_ID.to_string(), 42).unwrap();
    let (c2, z2) =
        Commands::write_commit("m".to_string(), None, TREE_ID.to_string(), 42).unwrap();
    assert_eq!(c1.id.to_string(), c2.id.to_string());
    assert_eq!(z1, z2);
    // A different second is a different object identity.
    let (c3, _) =
        Commands::write_commit("m".to_string(), None, TREE_ID.to_string(), 43).unwrap();
    assert_ne!(c1.id.to_string(), c3.id.to_string());
}

#[test]
fn write_commit_rejects_malformed_ids() {
    assert_eq!(
        Commands::write_commit("m".to_string(), None, "short".to_string(), 0).unwrap_err(),
        GitError::InvalidObjectId
    );
    assert_eq!(
        Commands::write_commit(
            "m".to_string(),
            Some("also bad".to_string()),
            TREE_ID.to_string(),
            0
        )
        .unwrap_err(),
        GitError::InvalidObjectId
    );
}

#[test]
fn commit_reads_back_from_the_store() {
    let (commit, compressed) =
        Commands::write_commit("hello".to_string(), None, TREE_ID.to_string(), 7).unwrap();
    let oid = ObjectId::new(&commit.id.to_string());
    let read = GitObject::from_oid(oid, &compressed).unwrap();
    match read {
        GitObject::Commit(c) => {
            assert_eq!(c.body, commit.body);
            assert_eq!(c.id.to_string(), commit.id.to_string());
        }
        _ => panic!("expected a commit"),
    }
}

#[test]
fn cat_file_shows_blobs_and_rejects_commits() {
    let content: Vec<u8> = b"file body".to_vec();
    let (id, compressed) = Commands::hash_object(&content);
    let obj = GitObject::from_oid(id, &compressed).unwrap();
    assert_eq!(Commands::cat_file(&obj, &Vec::new()).unwrap(), content);

    let (commit, zc) =
        Commands::write_commit("m".to_string(), None, TREE_ID.to_string(), 0).unwrap();
    let oid = ObjectId::new(&commit.id.to_string());
    let cobj = GitObject::from_oid(oid, &zc).unwrap();
    assert_eq!(
        Commands::cat_file(&cobj, &Vec::new()).unwrap_err(),
        GitError::UnsupportedObjectKind
    );
}
