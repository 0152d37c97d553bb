use rit::GitError;
use rit::object_id::ObjectId;

#[test]
fn parse_accepts_forty_lowercase_hex() {
    let text = "0123456789abcdef0123456789abcdef01234567";
    let id = ObjectId::parse(text).unwrap();
    assert_eq!(id.to_string(), text);
    assert_eq!(id.as_str(), text);
}

#[test]
fn parse_rejects_wrong_lengths() {
    assert_eq!(
        ObjectId::parse("").unwrap_err(),
        GitError::InvalidObjectId
    );
    assert_eq!(
        ObjectId::parse("0123456789abcdef0123456789abcdef0123456").unwrap_err(),
        GitError::InvalidObjectId
    );
    assert_eq!(
        ObjectId::parse("0123456789abcdef0123456789abcdef012345678").unwrap_err(),
        GitError::InvalidObjectId
    );
}

#[test]
fn parse_rejects_non_hex_characters() {
    assert_eq!(
        ObjectId::parse("0123456789abcdef0123456789abcdef0123456g").unwrap_err(),
        GitError::InvalidObjectId
    );
    assert_eq!(
        ObjectId::parse("0123456789ABCDEF0123456789abcdef01234567").unwrap_err(),
        GitError::InvalidObjectId
    );
    assert_eq!(
        ObjectId::parse("0123456789abcdef 123456789abcdef01234567").unwrap_err(),
        GitError::InvalidObjectId
    );
}

#[test]
fn path_and_dir_shard_on_the_first_two_characters() {
    let id = ObjectId::new("ce013625030ba8dba906f756967f9e9ca394464a");
    assert_eq!(
        id.path(),
        ".git/objects/ce/013625030ba8dba906f756967f9e9ca394464a"
    );
    assert_eq!(id.dir(), ".git/objects/ce/");
}

#[test]
fn raw_bytes_round_trip() {
    let text = "ce013625030ba8dba906f756967f9e9ca394464a";
    let id = ObjectId::new(text);
    let raw = id.as_bytes();
    assert_eq!(raw.len(), 20);
    assert_eq!(raw[0], 0xce);
    assert_eq!(raw[1], 0x01);
    assert_eq!(raw[19], 0x4a);
    let back = ObjectId::from_raw_bytes(&raw);
    assert_eq!(back.to_string(), text);
}
