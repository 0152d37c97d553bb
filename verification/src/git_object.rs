//! The tagged union over the three object kinds, and the read side of
//! the store: decompress, split the header, dispatch on the kind that
//! the header names — never guessed from content.
use vstd::prelude::*;
use crate::GitError;
use crate::ObjectKind;
use crate::blob::Blob;
use crate::commit::Commit;
use crate::object::FrameParse;
use crate::object::frame;
use crate::object::object_id_of;
use crate::object::parse_frame;
use crate::object::read_frame;
use crate::object::write_object;
use crate::object_id::ObjectId;
use crate::tree::Tree;
use crate::tree::TreeParse;
use crate::tree::encode_entries;
use crate::tree::insert_all;
use crate::tree::parse_entries;
use crate::zlib::inflate_of;
use crate::zlib::zlib_decompress;

verus! {

/// Exactly one of the three object kinds, as read back from the store.
#[derive(Debug)]
pub enum GitObject {
    Blob(Blob),
    Tree(Tree),
    Commit(Commit),
}

impl GitObject {
    /// The id this object was fetched or built under.
    pub open spec fn spec_id(&self) -> Seq<char> {
        match self {
            GitObject::Blob(b) => b.id@,
            GitObject::Tree(t) => t.id@,
            GitObject::Commit(c) => c.id@,
        }
    }

    pub open spec fn spec_kind(&self) -> ObjectKind {
        match self {
            GitObject::Blob(_) => ObjectKind::Blob,
            GitObject::Tree(_) => ObjectKind::Tree,
            GitObject::Commit(_) => ObjectKind::Commit,
        }
    }

    /// The body this object serializes to.
    pub open spec fn spec_body(&self) -> Seq<u8> {
        match self {
            GitObject::Blob(b) => b.content@,
            GitObject::Tree(t) => encode_entries(t.entries.deep_view()),
            GitObject::Commit(c) => c.body@,
        }
    }

    pub open spec fn wf(&self) -> bool {
        match self {
            GitObject::Blob(b) => b.id.wf(),
            GitObject::Tree(t) => t.wf(),
            GitObject::Commit(c) => c.id.wf(),
        }
    }

    pub fn id(&self) -> (r: &ObjectId)
        ensures
            r@ == self.spec_id(),
    {
        match self {
            GitObject::Blob(blob) => &blob.id,
            GitObject::Tree(tree) => &tree.id,
            GitObject::Commit(commit) => &commit.id,
        }
    }

    /// Serialize this object: frame its body, hash, compress. The id
    /// returned is computed from the content, whatever id the object
    /// was carrying.
    pub fn write(&self) -> (r: (ObjectId, Vec<u8>))
        requires
            self.wf(),
        ensures
            r.0@ == object_id_of(self.spec_kind(), self.spec_body()),
            r.0.wf(),
            inflate_of(r.1@) == Some(frame(self.spec_kind(), self.spec_body())),
    {
        match self {
            GitObject::Blob(blob) => write_object(ObjectKind::Blob, &blob.content),
            GitObject::Tree(tree) => {
                let content = Tree::handle_entries(&tree.entries);
                write_object(ObjectKind::Tree, &content)
            },
            GitObject::Commit(commit) => write_object(ObjectKind::Commit, &commit.body),
        }
    }

    /// Read an object back from the compressed bytes stored under
    /// `oid`: decompress, split the header at the first NUL, dispatch
    /// on the kind. Every way the bytes can be unreadable is a distinct
    /// error, and a returned object holds exactly the parsed content.
    pub fn from_oid(oid: ObjectId, data: &Vec<u8>) -> (r: Result<GitObject, GitError>)
        requires
            oid.wf(),
        ensures
            match inflate_of(data@) {
                None => r == Err::<GitObject, GitError>(GitError::CorruptObject),
                Some(c) => match parse_frame(c) {
                    FrameParse::Corrupt => r == Err::<GitObject, GitError>(
                        GitError::CorruptObject,
                    ),
                    FrameParse::Unsupported => r == Err::<GitObject, GitError>(
                        GitError::UnsupportedObjectKind,
                    ),
                    FrameParse::Parsed(k, body) => match k {
                        ObjectKind::Blob => r is Ok && (r.unwrap() matches GitObject::Blob(b)
                            && b.id@ == oid@ && b.content@ == body),
                        ObjectKind::Tree => match parse_entries(body) {
                            TreeParse::Entries(es) => r is Ok && (r.unwrap()
                                matches GitObject::Tree(t) && t.id@ == oid@
                                && t.entries.deep_view() == insert_all(es) && t.wf()),
                            TreeParse::Corrupt => r == Err::<GitObject, GitError>(
                                GitError::CorruptObject,
                            ),
                            TreeParse::BadName => r == Err::<GitObject, GitError>(
                                GitError::NonUtf8Name,
                            ),
                        },
                        ObjectKind::Commit => r is Ok && (r.unwrap() matches GitObject::Commit(c)
                            && c.id@ == oid@ && c.body@ == body),
                    },
                },
            },
    {
        let content = match zlib_decompress(data.as_slice()) {
            Ok(c) => c,
            Err(e) => {
                return Err(e);
            },
        };
        let (kind, body) = match read_frame(&content) {
            Ok(p) => p,
            Err(e) => {
                return Err(e);
            },
        };
        match kind {
            ObjectKind::Blob => Ok(GitObject::Blob(Blob::from_object(oid, body))),
            ObjectKind::Tree => {
                match Tree::from_object(oid, &body) {
                    Ok(tree) => Ok(GitObject::Tree(tree)),
                    Err(e) => Err(e),
                }
            },
            ObjectKind::Commit => Ok(GitObject::Commit(Commit::from_object(oid, body))),
        }
    }
}

} // verus!
