//! Commit objects: textual metadata naming a tree, an optional parent,
//! fixed author and committer lines with a Unix timestamp, and the
//! message. The id is the hash of the exact byte layout, so timestamp
//! seconds and line endings are part of the object identity.
use vstd::prelude::*;
use crate::ObjectKind;
use crate::object::frame;
use crate::object::object_id_of;
use crate::object::write_object;
use crate::object_id::ObjectId;
use crate::wire::dec_digits;
use crate::wire::push_dec;
use crate::zlib::inflate_of;

verus! {

/// The exact body of a commit object: `tree` line, optional `parent`
/// line, author and committer lines carrying the fixed identity and the
/// timestamp, a blank line, then the message and a final newline.
pub open spec fn commit_body(
    tree: Seq<char>,
    parent: Option<Seq<char>>,
    seconds: u64,
    message: Seq<char>,
) -> Seq<u8> {
    vstd::utf8::encode_utf8("tree "@) + vstd::utf8::encode_utf8(tree) + seq![10u8] + (match parent {
        Some(p) => vstd::utf8::encode_utf8("parent "@) + vstd::utf8::encode_utf8(p) + seq![10u8],
        None => Seq::<u8>::empty(),
    }) + vstd::utf8::encode_utf8("author rit <rit@localhost> "@) + dec_digits(seconds as nat)
        + vstd::utf8::encode_utf8(" +0000\n"@) + vstd::utf8::encode_utf8(
        "committer rit <rit@localhost> "@,
    ) + dec_digits(seconds as nat) + vstd::utf8::encode_utf8(" +0000\n"@) + seq![10u8]
        + vstd::utf8::encode_utf8(message) + seq![10u8]
}

/// A commit: its id and its body, exactly as framed and hashed.
#[derive(Debug)]
pub struct Commit {
    pub id: ObjectId,
    pub body: Vec<u8>,
}

impl Commit {
    /// Wrap a commit body read back from the store under the id it was
    /// fetched by.
    pub fn from_object(oid: ObjectId, body: Vec<u8>) -> (r: Self)
        ensures
            r.id@ == oid@,
            r.body@ == body@,
    {
        Commit { id: oid, body }
    }

    /// Build, frame, hash and compress one commit. The id is a function
    /// of tree, parent, timestamp and message alone; the compressed
    /// bytes inflate back to the commit's frame.
    pub fn write(message: &str, parent: Option<&ObjectId>, tree: &ObjectId, seconds: u64) -> (r: (
        Commit,
        Vec<u8>,
    ))
        ensures
            ({
                let body = commit_body(
                    tree@,
                    match parent {
                        Some(p) => Some(p@),
                        None => None,
                    },
                    seconds,
                    message@,
                );
                &&& r.0.id@ == object_id_of(ObjectKind::Commit, body)
                &&& r.0.id.wf()
                &&& r.0.body@ == body
                &&& inflate_of(r.1@) == Some(frame(ObjectKind::Commit, body))
            }),
    {
        let mut body: Vec<u8> = Vec::new();
        body.extend_from_slice("tree ".as_bytes());
        body.extend_from_slice(tree.as_str().as_bytes());
        body.push(10);
        match parent {
            Some(p) => {
                body.extend_from_slice("parent ".as_bytes());
                body.extend_from_slice(p.as_str().as_bytes());
                body.push(10);
            },
            None => {},
        }
        body.extend_from_slice("author rit <rit@localhost> ".as_bytes());
        push_dec(&mut body, seconds);
        body.extend_from_slice(" +0000\n".as_bytes());
        body.extend_from_slice("committer rit <rit@localhost> ".as_bytes());
        push_dec(&mut body, seconds);
        body.extend_from_slice(" +0000\n".as_bytes());
        body.push(10);
        body.extend_from_slice(message.as_bytes());
        body.push(10);
        proof {
            assert(body@ =~= commit_body(
                tree@,
                match parent {
                    Some(p) => Some(p@),
                    None => None,
                },
                seconds,
                message@,
            ));
        }
        let (id, compressed) = write_object(ObjectKind::Commit, &body);
        (Commit { id, body }, compressed)
    }
}

} // verus!
