//! Validated object identifiers: the 40-character lowercase hex form of
//! a 20-byte SHA-1 digest, and the store paths derived from it.
use vstd::prelude::*;
use vstd::string::StrSliceExecFns;
use vstd::string::StringExecFns;
use crate::GitError;
use crate::hashing::all_hex_chars;
use crate::hashing::bytes_of_hex;
use crate::hashing::hex_decode;
use crate::hashing::hex_encode;
use crate::hashing::hex_of;
use crate::hashing::is_hex_char;
use crate::hashing::lemma_hex_of_spec;
use crate::hashing::lemma_hex_round_trip;

verus! {

/// A well-formed id text: exactly forty lowercase hex characters.
pub open spec fn is_hex_id(s: Seq<char>) -> bool {
    s.len() == 40 && all_hex_chars(s)
}

/// Path of the object with id `id`, below the store root.
pub open spec fn path_of(id: Seq<char>) -> Seq<char> {
    ".git/objects/"@ + id.take(2) + "/"@ + id.skip(2)
}

/// Shard directory of the object with id `id`, below the store root.
pub open spec fn dir_of(id: Seq<char>) -> Seq<char> {
    ".git/objects/"@ + id.take(2) + "/"@
}

/// A validated object id; its view is the 40-character hex text.
#[derive(Debug)]
pub struct ObjectId {
    hex: String,
}

impl View for ObjectId {
    type V = Seq<char>;

    closed spec fn view(&self) -> Seq<char> {
        self.hex@
    }
}

impl ObjectId {
    pub open spec fn wf(&self) -> bool {
        is_hex_id(self@)
    }

    /// Accepts exactly the strings of forty lowercase hex characters;
    /// everything else is an invalid id.
    pub fn parse(text: &str) -> (r: Result<ObjectId, GitError>)
        ensures
            r is Ok <==> is_hex_id(text@),
            r is Ok ==> r.unwrap()@ == text@,
            r is Err ==> r.unwrap_err() == GitError::InvalidObjectId,
    {
        if text.unicode_len() != 40 {
            return Err(GitError::InvalidObjectId);
        }
        let mut i: usize = 0;
        while i < 40
            invariant
                i <= 40,
                text@.len() == 40,
                forall|j: int| 0 <= j < i ==> is_hex_char(#[trigger] text@[j]),
            decreases 40 - i,
        {
            let c = text.get_char(i);
            let u = c as u32;
            if !((48 <= u && u <= 57) || (97 <= u && u <= 102)) {
                assert(!is_hex_char(text@[i as int]));
                return Err(GitError::InvalidObjectId);
            }
            i += 1;
        }
        Ok(ObjectId { hex: String::from_str(text) })
    }

    /// The panicking form of `parse`: the caller owes a valid id text.
    pub fn new(oid: &str) -> (r: Self)
        requires
            is_hex_id(oid@),
        ensures
            r@ == oid@,
    {
        match Self::parse(oid) {
            Ok(id) => id,
            Err(_) => vstd::pervasive::unreached(),
        }
    }

    /// The hex text of this id.
    pub fn as_str(&self) -> (r: &str)
        ensures
            r@ == self@,
    {
        self.hex.as_str()
    }

    /// The hex text of this id as an owned string.
    pub fn to_string(&self) -> (r: String)
        ensures
            r@ == self@,
    {
        String::from_str(self.hex.as_str())
    }

    proof fn lemma_ascii(&self)
        requires
            self.wf(),
        ensures
            vstd::utf8::is_ascii_chars(self@),
    {
        assert forall|i: int| 0 <= i < self@.len() implies '\0' <= #[trigger] self@[i]
            <= '\u{7f}' by {
            assert(is_hex_char(self@[i]));
            crate::hashing::lemma_hex_char_ascii(self@[i]);
        }
    }

    /// Path of this object below the store root: the first two hex
    /// characters shard the remaining thirty-eight.
    pub fn path(&self) -> (r: String)
        requires
            self.wf(),
        ensures
            r@ == path_of(self@),
    {
        proof {
            self.lemma_ascii();
        }
        let mut out = String::from_str(".git/objects/");
        out.append(self.hex.as_str().substring_ascii(0, 2));
        out.append("/");
        out.append(self.hex.as_str().substring_ascii(2, 40));
        proof {
            assert(self@.subrange(0, 2) =~= self@.take(2));
            assert(self@.subrange(2, 40) =~= self@.skip(2));
        }
        out
    }

    /// Shard directory of this object below the store root.
    pub fn dir(&self) -> (r: String)
        requires
            self.wf(),
        ensures
            r@ == dir_of(self@),
    {
        proof {
            self.lemma_ascii();
        }
        let mut out = String::from_str(".git/objects/");
        out.append(self.hex.as_str().substring_ascii(0, 2));
        out.append("/");
        proof {
            assert(self@.subrange(0, 2) =~= self@.take(2));
        }
        out
    }

    /// The raw 20-byte form of this id, as embedded in tree entries.
    pub fn as_bytes(&self) -> (r: Vec<u8>)
        requires
            self.wf(),
        ensures
            r@ == bytes_of_hex(self@),
            r@.len() == 20,
    {
        proof {
            lemma_hex_round_trip(self@);
        }
        hex_decode(self.hex.as_str())
    }

    /// The id whose raw form is the 20 bytes `b`.
    pub fn from_raw_bytes(b: &[u8]) -> (r: Self)
        requires
            b@.len() == 20,
        ensures
            r@ == hex_of(b@),
            r.wf(),
    {
        proof {
            lemma_hex_of_spec(b@);
        }
        ObjectId { hex: hex_encode(b) }
    }
}

} // verus!
