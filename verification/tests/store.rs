use rit::GitError;
use rit::blob::Blob;
use rit::commands::Commands;
use rit::git_object::GitObject;
use rit::object_id::ObjectId;

fn compress(data: &[u8]) -> Vec<u8> {
    let mut enc = flate2::write::ZlibEncoder::new(Vec::new(), flate2::Compression::default());
    std::io::Write::write_all(&mut enc, data).unwrap();
    enc.finish().unwrap()
}

#[test]
fn golden_hello_blob_id() {
    let content: Vec<u8> = b"hello\n".to_vec();
    let (id, _) = Commands::hash_object(&content);
    assert_eq!(id.to_string(), "ce013625030ba8dba906f756967f9e9ca394464a");
}

#[test]
fn content_addressing_same_id_twice() {
    let content: Vec<u8> = b"some file content".to_vec();
    let (id1, z1) = Blob::write(&content);
    let (id2, z2) = Blob::write(&content);
    assert_eq!(id1.to_string(), id2.to_string());
    assert_eq!(z1, z2);
}

#[test]
fn blob_write_then_read_back() {
    let content: Vec<u8> = b"arbitrary bytes \x00\xff with NUL inside".to_vec();
    let (id, compressed) = Blob::write(&content);
    let oid = ObjectId::new(&id.to_string());
    let obj = GitObject::from_oid(oid, &compressed).unwrap();
    match obj {
        GitObject::Blob(b) => {
            assert_eq!(b.content, content);
            assert_eq!(b.id.to_string(), id.to_string());
        }
        _ => panic!("expected a blob"),
    }
}

#[test]
fn truncated_object_is_corrupt() {
    let content: Vec<u8> = b"hello\n".to_vec();
    let (id, compressed) = Blob::write(&content);
    let mut truncated = compressed.clone();
    truncated.truncate(truncated.len() - 1);
    let oid = ObjectId::new(&id.to_string());
    let r = GitObject::from_oid(oid, &truncated);
    assert_eq!(r.unwrap_err(), GitError::CorruptObject);

    let oid2 = ObjectId::new(&id.to_string());
    let mut half = compressed.clone();
    half.truncate(half.len() / 2);
    let r2 = GitObject::from_oid(oid2, &half);
    assert_eq!(r2.unwrap_err(), GitError::CorruptObject);
}

#[test]
fn header_length_longer_than_body_is_corrupt() {
    let oid = ObjectId::new("ce013625030ba8dba906f756967f9e9ca394464a");
    let data = compress(b"blob 10\x00abc");
    assert_eq!(
        GitObject::from_oid(oid, &data).unwrap_err(),
        GitError::CorruptObject
    );
}

#[test]
fn missing_nul_in_header_is_corrupt() {
    let oid = ObjectId::new("ce013625030ba8dba906f756967f9e9ca394464a");
    let data = compress(b"blob 3 abc");
    assert_eq!(
        GitObject::from_oid(oid, &data).unwrap_err(),
        GitError::CorruptObject
    );
}

#[test]
fn non_decimal_length_is_corrupt() {
    let oid = ObjectId::new("ce013625030ba8dba906f756967f9e9ca394464a");
    let data = compress(b"blob x3\x00abc");
    assert_eq!(
        GitObject::from_oid(oid, &data).unwrap_err(),
        GitError::CorruptObject
    );
}

#[test]
fn unknown_kind_is_unsupported() {
    let oid = ObjectId::new("ce013625030ba8dba906f756967f9e9ca394464a");
    let data = compress(b"blobby 3\x00abc");
    assert_eq!(
        GitObject::from_oid(oid, &data).unwrap_err(),
        GitError::UnsupportedObjectKind
    );
}

#[test]
fn tree_with_non_utf8_name_is_rejected() {
    let oid = ObjectId::new("ce013625030ba8dba906f756967f9e9ca394464a");
    let mut body: Vec<u8> = Vec::new();
    body.extend_from_slice(b"100644 \xff\xfe\x00");
    body.extend_from_slice(&[0u8; 20]);
    let mut framed: Vec<u8> = Vec::new();
    framed.extend_from_slice(format!("tree {}\x00", body.len()).as_bytes());
    framed.extend_from_slice(&body);
    let data = compress(&framed);
    assert_eq!(
        GitObject::from_oid(oid, &data).unwrap_err(),
        GitError::NonUtf8Name
    );
}

#[test]
fn tree_with_truncated_id_field_is_corrupt() {
    let oid = ObjectId::new("ce013625030ba8dba906f756967f9e9ca394464a");
    let mut body: Vec<u8> = Vec::new();
    body.extend_from_slice(b"100644 a\x00");
    body.extend_from_slice(&[7u8; 10]);
    let mut framed: Vec<u8> = Vec::new();
    framed.extend_from_slice(format!("tree {}\x00", body.len()).as_bytes());
    framed.extend_from_slice(&body);
    let data = compress(&framed);
    assert_eq!(
        GitObject::from_oid(oid, &data).unwrap_err(),
        GitError::CorruptObject
    );
}

#[test]
fn extra_bytes_past_the_stated_length_are_ignored() {
    let oid = ObjectId::new("ce013625030ba8dba906f756967f9e9ca394464a");
    let data = compress(b"blob 3\x00abcdef");
    let obj = GitObject::from_oid(oid, &data).unwrap();
    match obj {
        GitObject::Blob(b) => assert_eq!(b.content, b"abc".to_vec()),
        _ => panic!("expected a blob"),
    }
}
