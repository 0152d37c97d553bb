//! The typed, length-prefixed byte stream every stored object uses:
//! `"<kind> <decimal-length>\0"` followed by the body. The object id is
//! the SHA-1 of exactly this stream.
use vstd::prelude::*;
use crate::GitError;
use crate::ObjectKind;
use crate::hashing::hex_of;
use crate::hashing::sha1_digest;
use crate::hashing::sha1_of;
use crate::object_id::ObjectId;
use crate::wire::DecParse;
use crate::wire::all_dec_digits;
use crate::wire::dec_digits;
use crate::wire::dec_val;
use crate::wire::find_byte;
use crate::wire::find_byte_from;
use crate::wire::is_dec_digit;
use crate::wire::lemma_dec_digits_val;
use crate::wire::lemma_find_byte_first;
use crate::wire::lemma_find_byte_spec;
use crate::wire::parse_dec;
use crate::wire::push_dec;
use crate::zlib::inflate_of;
use crate::zlib::zlib_compress;

verus! {

/// The ASCII tag naming each object kind in its header.
pub open spec fn kind_bytes(k: ObjectKind) -> Seq<u8> {
    match k {
        ObjectKind::Blob => seq![98u8, 108u8, 111u8, 98u8],
        ObjectKind::Tree => seq![116u8, 114u8, 101u8, 101u8],
        ObjectKind::Commit => seq![99u8, 111u8, 109u8, 109u8, 105u8, 116u8],
    }
}

/// The tag as text, used when listing entries.
pub open spec fn kind_word(k: ObjectKind) -> Seq<char> {
    match k {
        ObjectKind::Blob => "blob"@,
        ObjectKind::Tree => "tree"@,
        ObjectKind::Commit => "commit"@,
    }
}

pub fn kind_str(k: ObjectKind) -> (r: &'static str)
    ensures
        r@ == kind_word(k),
{
    match k {
        ObjectKind::Blob => "blob",
        ObjectKind::Tree => "tree",
        ObjectKind::Commit => "commit",
    }
}

/// The header `"<kind> <decimal-length>\0"` as bytes.
pub open spec fn header_bytes(k: ObjectKind, len: nat) -> Seq<u8> {
    kind_bytes(k) + seq![32u8] + dec_digits(len) + seq![0u8]
}

/// The full stream a stored object compresses: header then body.
pub open spec fn frame(k: ObjectKind, body: Seq<u8>) -> Seq<u8> {
    header_bytes(k, body.len()) + body
}

/// The id of the object with kind `k` and body `body`: lowercase hex of
/// the SHA-1 of its frame.
pub open spec fn object_id_of(k: ObjectKind, body: Seq<u8>) -> Seq<char> {
    hex_of(sha1_of(frame(k, body)))
}

/// The kind a header tag denotes, if any.
pub open spec fn kind_of_bytes(b: Seq<u8>) -> Option<ObjectKind> {
    if b == kind_bytes(ObjectKind::Blob) {
        Some(ObjectKind::Blob)
    } else if b == kind_bytes(ObjectKind::Tree) {
        Some(ObjectKind::Tree)
    } else if b == kind_bytes(ObjectKind::Commit) {
        Some(ObjectKind::Commit)
    } else {
        None
    }
}

/// Outcome of reading a decompressed stream back as kind and body.
pub enum FrameParse {
    Parsed(ObjectKind, Seq<u8>),
    Corrupt,
    Unsupported,
}

/// How a decompressed stream is read back: split the header at the
/// first NUL, split kind from length at the first space, demand a
/// genuine decimal length no longer than what follows the NUL, and
/// take exactly that many bytes as the body.
pub open spec fn parse_frame(b: Seq<u8>) -> FrameParse {
    match find_byte(b, 0) {
        None => FrameParse::Corrupt,
        Some(z) => {
            let header = b.take(z as int);
            let rest = b.skip(z as int + 1);
            match find_byte(header, 32) {
                None => FrameParse::Corrupt,
                Some(sp) => {
                    let tag = header.take(sp as int);
                    let digits = header.skip(sp as int + 1);
                    if digits.len() == 0 || !all_dec_digits(digits) {
                        FrameParse::Corrupt
                    } else {
                        match kind_of_bytes(tag) {
                            None => FrameParse::Unsupported,
                            Some(k) => {
                                if dec_val(digits) > rest.len() {
                                    FrameParse::Corrupt
                                } else {
                                    FrameParse::Parsed(k, rest.take(dec_val(digits) as int))
                                }
                            },
                        }
                    }
                },
            }
        },
    }
}

/// Build the frame of an object in memory.
pub fn encode_frame(k: ObjectKind, body: &Vec<u8>) -> (r: Vec<u8>)
    ensures
        r@ == frame(k, body@),
{
    let mut out: Vec<u8> = Vec::new();
    match k {
        ObjectKind::Blob => {
            out.push(98);
            out.push(108);
            out.push(111);
            out.push(98);
        },
        ObjectKind::Tree => {
            out.push(116);
            out.push(114);
            out.push(101);
            out.push(101);
        },
        ObjectKind::Commit => {
            out.push(99);
            out.push(111);
            out.push(109);
            out.push(109);
            out.push(105);
            out.push(116);
        },
    }
    assert(out@ =~= kind_bytes(k));
    out.push(32);
    push_dec(&mut out, body.len() as u64);
    out.push(0);
    assert(out@ =~= header_bytes(k, body@.len()));
    out.extend_from_slice(body.as_slice());
    assert(out@ =~= frame(k, body@));
    out
}

/// The tag bytes make each kind, and no two kinds share a tag; none of
/// the tag bytes is a NUL or a space.
pub proof fn lemma_kind_bytes(k: ObjectKind)
    ensures
        kind_of_bytes(kind_bytes(k)) == Some(k),
        forall|j: int|
            0 <= j < kind_bytes(k).len() ==> kind_bytes(k)[j] != 0 && #[trigger] kind_bytes(k)[j]
                != 32,
{
    assert(kind_bytes(ObjectKind::Blob)[0] == 98);
    assert(kind_bytes(ObjectKind::Tree)[0] == 116);
    assert(kind_bytes(ObjectKind::Commit)[0] == 99);
}

/// Reading a frame back yields exactly the kind and body it was built
/// from.
pub proof fn lemma_parse_frame_round_trip(k: ObjectKind, body: Seq<u8>)
    ensures
        parse_frame(frame(k, body)) == FrameParse::Parsed(k, body),
{
    let tag = kind_bytes(k);
    let digits = dec_digits(body.len());
    let header = tag + seq![32u8] + digits;
    let f = frame(k, body);
    lemma_kind_bytes(k);
    lemma_dec_digits_val(body.len());
    assert(f =~= header + seq![0u8] + body);
    let z = header.len() as int;
    assert(forall|j: int| 0 <= j < tag.len() ==> f[j] == tag[j]);
    assert(forall|j: int|
        tag.len() + 1 <= j < z ==> f[j] == digits[j - tag.len() - 1] && is_dec_digit(
            digits[j - tag.len() - 1],
        ));
    assert(f[tag.len() as int] == 32);
    assert(f[z] == 0);
    assert(forall|j: int| 0 <= j < z ==> f[j] != 0);
    lemma_find_byte_first(f, 0, z);
    let header2 = f.take(z);
    assert(header2 =~= header);
    assert(forall|j: int| 0 <= j < tag.len() ==> header[j] != 32);
    lemma_find_byte_first(header, 32, tag.len() as int);
    assert(header.take(tag.len() as int) =~= tag);
    assert(header.skip(tag.len() as int + 1) =~= digits);
    let rest = f.skip(z + 1);
    assert(rest =~= body);
    assert(dec_val(digits) == body.len());
    assert(rest.take(body.len() as int) =~= body);
}

/// Split a decompressed stream into kind and body, or report how it is
/// unreadable.
pub fn read_frame(data: &Vec<u8>) -> (r: Result<(ObjectKind, Vec<u8>), GitError>)
    ensures
        match parse_frame(data@) {
            FrameParse::Parsed(k, body) => r is Ok && r.unwrap().0 == k && r.unwrap().1@ == body,
            FrameParse::Corrupt => r == Err::<(ObjectKind, Vec<u8>), GitError>(
                GitError::CorruptObject,
            ),
            FrameParse::Unsupported => r == Err::<(ObjectKind, Vec<u8>), GitError>(
                GitError::UnsupportedObjectKind,
            ),
        },
{
    let total = data.len();
    proof {
        assert(data@.subrange(0, data@.len() as int) =~= data@);
    }
    let z = match find_byte_from(data.as_slice(), 0, 0) {
        Some(z) => z,
        None => {
            return Err(GitError::CorruptObject);
        },
    };
    let ghost header = data@.take(z as int);
    let ghost rest = data@.skip(z as int + 1);
    let header_slice = &data.as_slice()[0..z];
    assert(header_slice@ =~= header);
    let sp = match find_byte_from(header_slice, 0, 32) {
        Some(sp) => sp,
        None => {
            assert(header_slice@.subrange(0, z as int) =~= header);
            return Err(GitError::CorruptObject);
        },
    };
    proof {
        assert(header_slice@.subrange(0, z as int) =~= header);
        lemma_find_byte_spec(header, 32);
    }
    let ghost tag = header.take(sp as int);
    let ghost digits = header.skip(sp as int + 1);
    let n = match parse_dec(header_slice, sp + 1, z) {
        DecParse::Value(n) => {
            proof {
                assert(header_slice@.subrange(sp as int + 1, z as int) =~= digits);
            }
            n
        },
        DecParse::NotDigits => {
            assert(header_slice@.subrange(sp as int + 1, z as int) =~= digits);
            return Err(GitError::CorruptObject);
        },
        DecParse::TooBig => {
            proof {
                assert(header_slice@.subrange(sp as int + 1, z as int) =~= digits);
            }
            match kind_from_slice(&data.as_slice()[0..sp]) {
                Some(_) => {
                    proof {
                        assert(data@.subrange(0, sp as int) =~= tag);
                        assert(rest.len() < total <= usize::MAX);
                        assert(rest.len() <= u64::MAX);
                    }
                    return Err(GitError::CorruptObject);
                },
                None => {
                    assert(data@.subrange(0, sp as int) =~= tag);
                    return Err(GitError::UnsupportedObjectKind);
                },
            }
        },
    };
    let k = match kind_from_slice(&data.as_slice()[0..sp]) {
        Some(k) => {
            proof {
                assert(data@.subrange(0, sp as int) =~= tag);
            }
            k
        },
        None => {
            assert(data@.subrange(0, sp as int) =~= tag);
            return Err(GitError::UnsupportedObjectKind);
        },
    };
    let avail = data.len() - z - 1;
    if n > avail as u64 {
        return Err(GitError::CorruptObject);
    }
    let body_slice = &data.as_slice()[z + 1..z + 1 + n as usize];
    let body = vstd::slice::slice_to_vec(body_slice);
    proof {
        assert(body_slice@ =~= rest.take(dec_val(digits) as int));
    }
    Ok((k, body))
}

/// Recognise a header tag.
fn kind_from_slice(s: &[u8]) -> (r: Option<ObjectKind>)
    ensures
        r == kind_of_bytes(s@),
{
    if s.len() == 4 && s[0] == 98 && s[1] == 108 && s[2] == 111 && s[3] == 98 {
        proof {
            assert(s@ =~= kind_bytes(ObjectKind::Blob));
        }
        Some(ObjectKind::Blob)
    } else if s.len() == 4 && s[0] == 116 && s[1] == 114 && s[2] == 101 && s[3] == 101 {
        proof {
            assert(s@ =~= kind_bytes(ObjectKind::Tree));
        }
        Some(ObjectKind::Tree)
    } else if s.len() == 6 && s[0] == 99 && s[1] == 111 && s[2] == 109 && s[3] == 109 && s[4]
        == 105 && s[5] == 116 {
        proof {
            assert(s@ =~= kind_bytes(ObjectKind::Commit));
        }
        Some(ObjectKind::Commit)
    } else {
        proof {
            if s@ == kind_bytes(ObjectKind::Blob) {
                assert(s@.len() == 4 && s@[0] == 98 && s@[1] == 108 && s@[2] == 111 && s@[3]
                    == 98);
            }
            if s@ == kind_bytes(ObjectKind::Tree) {
                assert(s@.len() == 4 && s@[0] == 116 && s@[1] == 114 && s@[2] == 101 && s@[3]
                    == 101);
            }
            if s@ == kind_bytes(ObjectKind::Commit) {
                assert(s@.len() == 6 && s@[0] == 99 && s@[1] == 111 && s@[2] == 109 && s@[3]
                    == 109 && s@[4] == 105 && s@[5] == 116);
            }
        }
        None
    }
}

/// Frame, hash and compress one object: the id is a function of kind
/// and body alone, and the compressed bytes inflate back to the frame.
pub fn write_object(k: ObjectKind, body: &Vec<u8>) -> (r: (ObjectId, Vec<u8>))
    ensures
        r.0@ == object_id_of(k, body@),
        r.0.wf(),
        inflate_of(r.1@) == Some(frame(k, body@)),
{
    let framed = encode_frame(k, body);
    let digest = sha1_digest(framed.as_slice());
    let id = ObjectId::from_raw_bytes(digest.as_slice());
    let compressed = zlib_compress(framed.as_slice());
    (id, compressed)
}

} // verus!
