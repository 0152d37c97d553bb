//! Hashing and hex: the SHA-1 digest behind every object id, and the
//! lowercase hex encoding its textual form uses.
use vstd::prelude::*;
use sha1::Digest;

verus! {

/// Is `c` a lowercase hexadecimal digit?
pub open spec fn is_hex_char(c: char) -> bool {
    (48 <= c as u32 <= 57) || (97 <= c as u32 <= 102)
}

/// The lowercase hex digit for a value below sixteen.
pub open spec fn hex_digit(n: u8) -> char
    recommends
        n < 16,
{
    if n < 10 {
        (48 + n as u32) as char
    } else {
        (87 + n as u32) as char
    }
}

/// Numeric value of a lowercase hex digit.
pub open spec fn hex_val(c: char) -> u8
    recommends
        is_hex_char(c),
{
    if 48 <= c as u32 <= 57 {
        (c as u32 - 48) as u8
    } else if 97 <= c as u32 <= 102 {
        (c as u32 - 87) as u8
    } else {
        0
    }
}

/// Lowercase hex rendering of a byte string, two digits per byte.
pub open spec fn hex_of(b: Seq<u8>) -> Seq<char>
    decreases b.len(),
{
    if b.len() == 0 {
        Seq::empty()
    } else {
        seq![hex_digit(b[0] / 16), hex_digit((b[0] % 16) as u8)] + hex_of(b.drop_first())
    }
}

/// The bytes an even run of hex digits denotes.
pub open spec fn bytes_of_hex(s: Seq<char>) -> Seq<u8>
    decreases s.len(),
{
    if s.len() < 2 {
        Seq::empty()
    } else {
        seq![(16 * hex_val(s[0]) + hex_val(s[1])) as u8] + bytes_of_hex(s.skip(2))
    }
}

/// A hex digit lies in the ASCII range.
pub proof fn lemma_hex_char_ascii(c: char)
    requires
        is_hex_char(c),
    ensures
        '\0' <= c <= '\u{7f}',
{
}

pub open spec fn all_hex_chars(s: Seq<char>) -> bool {
    forall|i: int| 0 <= i < s.len() ==> is_hex_char(#[trigger] s[i])
}

/// Hex rendering is twice as long as the bytes, consists of hex digits,
/// and reading it back yields the original bytes.
pub proof fn lemma_hex_of_spec(b: Seq<u8>)
    ensures
        hex_of(b).len() == 2 * b.len(),
        all_hex_chars(hex_of(b)),
        bytes_of_hex(hex_of(b)) == b,
    decreases b.len(),
{
    if b.len() == 0 {
        assert(bytes_of_hex(hex_of(b)) =~= b);
    } else {
        lemma_hex_of_spec(b.drop_first());
        let s = hex_of(b);
        let hi = b[0] / 16;
        let lo = (b[0] % 16) as u8;
        assert(hi < 16 && lo < 16);
        assert(hex_digit(hi) as u32 == if hi < 10 {
            48 + hi as u32
        } else {
            87 + hi as u32
        });
        assert(hex_digit(lo) as u32 == if lo < 10 {
            48 + lo as u32
        } else {
            87 + lo as u32
        });
        assert(hex_val(hex_digit(hi)) == hi);
        assert(hex_val(hex_digit(lo)) == lo);
        assert(s.skip(2) =~= hex_of(b.drop_first()));
        assert(16 * hi + lo == b[0]) by {
            vstd::arithmetic::div_mod::lemma_fundamental_div_mod(b[0] as int, 16);
        }
        assert(bytes_of_hex(s) =~= b);
    }
}

/// Rendering the bytes an even hex run denotes gives back the run.
pub proof fn lemma_hex_round_trip(s: Seq<char>)
    requires
        s.len() % 2 == 0,
        all_hex_chars(s),
    ensures
        bytes_of_hex(s).len() == s.len() / 2,
        hex_of(bytes_of_hex(s)) == s,
    decreases s.len(),
{
    if s.len() == 0 {
        assert(hex_of(bytes_of_hex(s)) =~= s);
    } else {
        assert(s.len() >= 2);
        lemma_hex_round_trip(s.skip(2));
        let v = (16 * hex_val(s[0]) + hex_val(s[1])) as u8;
        assert(hex_val(s[0]) < 16 && hex_val(s[1]) < 16);
        assert(v / 16 == hex_val(s[0]) && v % 16 == hex_val(s[1])) by {
            vstd::arithmetic::div_mod::lemma_fundamental_div_mod_converse(
                v as int,
                16,
                hex_val(s[0]) as int,
                hex_val(s[1]) as int,
            );
        }
        assert(hex_digit(hex_val(s[0])) == s[0]) by {
            vstd::utf8::char_u32_cast(s[0], s[0] as u32);
        }
        assert(hex_digit(hex_val(s[1])) == s[1]) by {
            vstd::utf8::char_u32_cast(s[1], s[1] as u32);
        }
        assert(bytes_of_hex(s).drop_first() =~= bytes_of_hex(s.skip(2)));
        assert(hex_of(bytes_of_hex(s)) =~= s);
    }
}

/// Relies on hex::encode: the lowercase hex string of the input bytes,
/// two digits per byte, most significant digit first.
#[verifier::external_body]
pub(crate) fn hex_encode(b: &[u8]) -> (r: String)
    ensures
        r@ == hex_of(b@),
{
    hex::encode(b)
}

/// Relies on hex::decode: on an even-length lowercase hex string it
/// succeeds and returns the denoted bytes.
#[verifier::external_body]
pub(crate) fn hex_decode(s: &str) -> (r: Vec<u8>)
    requires
        s@.len() % 2 == 0,
        all_hex_chars(s@),
    ensures
        r@ == bytes_of_hex(s@),
{
    hex::decode(s).unwrap()
}

/// The SHA-1 digest of a byte string: a fixed function of the input
/// alone, left uninterpreted here.
pub uninterp spec fn sha1_of(b: Seq<u8>) -> Seq<u8>;

/// Relies on sha1::Sha1 (via the Digest trait): the 20-byte SHA-1
/// digest, a function of the input bytes alone.
#[verifier::external_body]
pub(crate) fn sha1_digest(b: &[u8]) -> (r: Vec<u8>)
    ensures
        r@ == sha1_of(b@),
        r@.len() == 20,
{
    let mut h = sha1::Sha1::new();
    h.update(b);
    h.finalize().to_vec()
}

} // verus!
