//! Blob objects: raw file bytes behind a `blob <len>\0` header. The
//! payload is the identity transform; arbitrary bytes are legal content.
use vstd::prelude::*;
use crate::ObjectKind;
use crate::object::frame;
use crate::object::object_id_of;
use crate::object::write_object;
use crate::object_id::ObjectId;
use crate::zlib::inflate_of;

verus! {

/// A blob: opaque content under its id.
#[derive(Debug)]
pub struct Blob {
    pub id: ObjectId,
    pub content: Vec<u8>,
}

impl Blob {
    /// Wrap content read back from the store under the id it was
    /// fetched by.
    pub fn from_object(oid: ObjectId, blob: Vec<u8>) -> (r: Self)
        ensures
            r.id@ == oid@,
            r.content@ == blob@,
    {
        Blob { id: oid, content: blob }
    }

    /// Frame, hash and compress file content as a blob object. Equal
    /// content always yields the equal id; the compressed bytes inflate
    /// back to the blob's frame.
    pub fn write(content: &Vec<u8>) -> (r: (ObjectId, Vec<u8>))
        ensures
            r.0@ == object_id_of(ObjectKind::Blob, content@),
            r.0.wf(),
            inflate_of(r.1@) == Some(frame(ObjectKind::Blob, content@)),
    {
        write_object(ObjectKind::Blob, content)
    }
}

/// Content addressing, read side: the frame a blob write stores under
/// its id reads back as a blob holding exactly the original bytes, for
/// every byte sequence. With `Blob::write`'s postcondition — the id is
/// a function of the content alone — writing the same bytes twice
/// yields the same id both times.
pub proof fn lemma_blob_round_trip(b: Seq<u8>)
    ensures
        crate::object::parse_frame(frame(ObjectKind::Blob, b))
            == crate::object::FrameParse::Parsed(ObjectKind::Blob, b),
{
    crate::object::lemma_parse_frame_round_trip(ObjectKind::Blob, b);
}

} // verus!
