//! The store operations behind each command, on plain values: the
//! caller reads files, hands bytes in, and persists or prints what
//! comes back.
use vstd::prelude::*;
use vstd::string::StrSliceExecFns;
use crate::GitError;
use crate::ObjectKind;
use crate::blob::Blob;
use crate::commit::Commit;
use crate::commit::commit_body;
use crate::git_object::GitObject;
use crate::object::frame;
use crate::object::object_id_of;
use crate::object_id::ObjectId;
use crate::object_id::is_hex_id;
use crate::tree::Tree;
use crate::tree::TreeEntry;
use crate::tree::encode_entries;
use crate::tree::entries_wf;
use crate::tree::full_listing;
use crate::tree::insert_all;
use crate::tree::name_listing;
use crate::zlib::inflate_of;

verus! {

pub struct Commands {}

impl Commands {
    /// Show one object: a blob's raw bytes, or a tree's full listing.
    /// The kind of each tree child, read from the store by the caller,
    /// is handed in alongside.
    pub fn cat_file(obj: &GitObject, kinds: &Vec<ObjectKind>) -> (r: Result<Vec<u8>, GitError>)
        requires
            obj matches GitObject::Tree(t) ==> kinds@.len() == t.entries@.len(),
        ensures
            match obj {
                GitObject::Blob(b) => r is Ok && r.unwrap()@ == b.content@,
                GitObject::Tree(t) => r is Ok && r.unwrap()@ == vstd::utf8::encode_utf8(
                    full_listing(t.entries.deep_view(), kinds@),
                ),
                GitObject::Commit(_) => r == Err::<Vec<u8>, GitError>(
                    GitError::UnsupportedObjectKind,
                ),
            },
    {
        match obj {
            GitObject::Blob(blob) => Ok(vstd::slice::slice_to_vec(blob.content.as_slice())),
            GitObject::Tree(tree) => {
                let listing = tree.to_string(false, kinds);
                Ok(listing.as_str().as_bytes_vec())
            },
            GitObject::Commit(_) => Err(GitError::UnsupportedObjectKind),
        }
    }

    /// Hash file content as a blob object; the caller decides whether
    /// to persist the compressed bytes.
    pub fn hash_object(content: &Vec<u8>) -> (r: (ObjectId, Vec<u8>))
        ensures
            r.0@ == object_id_of(ObjectKind::Blob, content@),
            r.0.wf(),
            inflate_of(r.1@) == Some(frame(ObjectKind::Blob, content@)),
    {
        Blob::write(content)
    }

    /// List a tree's entries, names alone or in full, in tree order.
    pub fn ls_tree(obj: &GitObject, name_only: bool, kinds: &Vec<ObjectKind>) -> (r: Result<
        String,
        GitError,
    >)
        requires
            obj matches GitObject::Tree(t) ==> name_only || kinds@.len() == t.entries@.len(),
        ensures
            match obj {
                GitObject::Tree(t) => r is Ok && r.unwrap()@ == (if name_only {
                    name_listing(t.entries.deep_view())
                } else {
                    full_listing(t.entries.deep_view(), kinds@)
                }),
                _ => r == Err::<String, GitError>(GitError::UnsupportedObjectKind),
            },
    {
        match obj {
            GitObject::Tree(tree) => Ok(tree.to_string(name_only, kinds)),
            _ => Err(GitError::UnsupportedObjectKind),
        }
    }

    /// Build the tree object of one directory from its entries, in
    /// whatever order the walk found them.
    pub fn write_tree(entries: Vec<TreeEntry>) -> (r: (Tree, Vec<u8>))
        requires
            entries_wf(entries.deep_view()),
        ensures
            r.0.wf(),
            r.0.entries.deep_view() == insert_all(entries.deep_view()),
            r.0.id@ == object_id_of(
                ObjectKind::Tree,
                encode_entries(insert_all(entries.deep_view())),
            ),
            inflate_of(r.1@) == Some(
                frame(ObjectKind::Tree, encode_entries(insert_all(entries.deep_view()))),
            ),
    {
        Tree::write(entries)
    }

    /// Build the commit object for a tree, rejecting a malformed tree
    /// or parent id.
    pub fn write_commit(
        message: String,
        parent: Option<String>,
        tree: String,
        seconds: u64,
    ) -> (r: Result<(Commit, Vec<u8>), GitError>)
        ensures
            ({
                let parent_view = match parent {
                    Some(p) => Some(p@),
                    None => None,
                };
                let body = commit_body(tree@, parent_view, seconds, message@);
                &&& r is Ok <==> is_hex_id(tree@) && (parent matches Some(p) ==> is_hex_id(p@))
                &&& r is Err ==> r.unwrap_err() == GitError::InvalidObjectId
                &&& r is Ok ==> {
                    &&& r.unwrap().0.id@ == object_id_of(ObjectKind::Commit, body)
                    &&& r.unwrap().0.id.wf()
                    &&& r.unwrap().0.body@ == body
                    &&& inflate_of(r.unwrap().1@) == Some(frame(ObjectKind::Commit, body))
                }
            }),
    {
        let tree_id = match ObjectId::parse(tree.as_str()) {
            Ok(id) => id,
            Err(e) => {
                return Err(e);
            },
        };
        let parent_id = match &parent {
            Some(p) => match ObjectId::parse(p.as_str()) {
                Ok(id) => Some(id),
                Err(e) => {
                    return Err(e);
                },
            },
            None => None,
        };
        let (commit, compressed) = Commit::write(
            message.as_str(),
            parent_id.as_ref(),
            &tree_id,
            seconds,
        );
        Ok((commit, compressed))
    }
}

} // verus!
