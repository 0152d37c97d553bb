//! Byte-level utilities shared by the object codecs: scanning for a
//! delimiter byte, decimal length fields, and the byte-order comparison
//! that fixes the order of tree entries.
use vstd::prelude::*;

verus! {

/// Index of the first occurrence of `x` in `b`, if any.
pub open spec fn find_byte(b: Seq<u8>, x: u8) -> Option<nat>
    decreases b.len(),
{
    if b.len() == 0 {
        None
    } else if b[0] == x {
        Some(0nat)
    } else {
        match find_byte(b.drop_first(), x) {
            Some(i) => Some((i + 1) as nat),
            None => None,
        }
    }
}

/// What `find_byte` returns: the first index holding `x`, or nothing
/// when `x` does not occur.
pub proof fn lemma_find_byte_spec(b: Seq<u8>, x: u8)
    ensures
        match find_byte(b, x) {
            Some(i) => i < b.len() && b[i as int] == x && (forall|j: int|
                0 <= j < i ==> b[j] != x),
            None => forall|j: int| 0 <= j < b.len() ==> b[j] != x,
        },
    decreases b.len(),
{
    if b.len() != 0 && b[0] != x {
        lemma_find_byte_spec(b.drop_first(), x);
        assert(forall|j: int| 1 <= j < b.len() ==> b[j] == b.drop_first()[j - 1]);
    }
}

/// A first occurrence determines the result of `find_byte`.
pub proof fn lemma_find_byte_first(b: Seq<u8>, x: u8, i: int)
    requires
        0 <= i < b.len(),
        b[i] == x,
        forall|j: int| 0 <= j < i ==> b[j] != x,
    ensures
        find_byte(b, x) == Some(i as nat),
    decreases b.len(),
{
    if i > 0 {
        assert(forall|j: int| 0 <= j < i - 1 ==> b.drop_first()[j] == b[j + 1]);
        lemma_find_byte_first(b.drop_first(), x, i - 1);
    }
}

/// First occurrence of `x` in `v` at or after `from`, phrased over the
/// suffix that starts at `from`.
pub fn find_byte_from(v: &[u8], from: usize, x: u8) -> (r: Option<usize>)
    requires
        from <= v@.len(),
    ensures
        match r {
            Some(i) => from <= i < v@.len() && find_byte(
                v@.subrange(from as int, v@.len() as int),
                x,
            ) == Some((i - from) as nat),
            None => find_byte(v@.subrange(from as int, v@.len() as int), x) is None,
        },
{
    let ghost suffix = v@.subrange(from as int, v@.len() as int);
    let mut i: usize = from;
    while i < v.len()
        invariant
            from <= i <= v@.len(),
            suffix == v@.subrange(from as int, v@.len() as int),
            forall|j: int| 0 <= j < i - from ==> suffix[j] != x,
        decreases v@.len() - i,
    {
        if v[i] == x {
            proof {
                lemma_find_byte_first(suffix, x, i - from);
            }
            return Some(i);
        }
        i += 1;
    }
    proof {
        lemma_find_byte_spec(suffix, x);
        if find_byte(suffix, x) is Some {
            let k = find_byte(suffix, x).unwrap();
            assert(suffix[k as int] == x);
        }
    }
    None
}

/// Does `s` avoid the byte `x` entirely?
pub fn scan_free_of(s: &[u8], x: u8) -> (r: bool)
    ensures
        r <==> !s@.contains(x),
{
    proof {
        assert(s@.subrange(0, s@.len() as int) =~= s@);
    }
    match find_byte_from(s, 0, x) {
        Some(i) => {
            proof {
                lemma_find_byte_spec(s@, x);
            }
            assert(s@[i as int] == x);
            false
        },
        None => {
            proof {
                lemma_find_byte_spec(s@, x);
                if s@.contains(x) {
                    let i = choose|i: int| 0 <= i < s@.len() && s@[i] == x;
                }
            }
            true
        },
    }
}

/// The ASCII decimal digits of `n`, most significant first.
pub open spec fn dec_digits(n: nat) -> Seq<u8>
    decreases n,
{
    if n < 10 {
        seq![(48 + n) as u8]
    } else {
        dec_digits(n / 10) + seq![(48 + n % 10) as u8]
    }
}

pub open spec fn is_dec_digit(b: u8) -> bool {
    48 <= b <= 57
}

pub open spec fn all_dec_digits(s: Seq<u8>) -> bool {
    forall|i: int| 0 <= i < s.len() ==> is_dec_digit(#[trigger] s[i])
}

pub open spec fn digit_val(b: u8) -> nat {
    if is_dec_digit(b) {
        (b - 48) as nat
    } else {
        0
    }
}

/// The value of a run of ASCII digits, most significant first.
pub open spec fn dec_val(s: Seq<u8>) -> nat
    decreases s.len(),
{
    if s.len() == 0 {
        0
    } else {
        dec_val(s.drop_last()) * 10 + digit_val(s.last())
    }
}

/// Rendering a number and reading it back are inverse, and the digits
/// rendered are genuine digits.
pub proof fn lemma_dec_digits_val(n: nat)
    ensures
        dec_val(dec_digits(n)) == n,
        all_dec_digits(dec_digits(n)),
        dec_digits(n).len() >= 1,
    decreases n,
{
    if n < 10 {
        let s = dec_digits(n);
        assert(s =~= seq![(48 + n) as u8]);
        assert(s.drop_last() =~= Seq::<u8>::empty());
        assert(dec_val(s.drop_last()) == 0);
        assert(s.last() == (48 + n) as u8);
        assert(dec_val(s) == digit_val((48 + n) as u8));
    } else {
        lemma_dec_digits_val(n / 10);
        let s = dec_digits(n);
        assert(s.drop_last() =~= dec_digits(n / 10));
        assert(dec_val(s) == (n / 10) * 10 + n % 10);
        assert((n / 10) * 10 + n % 10 == n) by {
            vstd::arithmetic::div_mod::lemma_fundamental_div_mod(n as int, 10);
        }
    }
}

/// Extending a digit run by one digit multiplies its value by ten and
/// adds the new digit.
pub proof fn lemma_dec_val_extend(s: Seq<u8>, k: int)
    requires
        0 <= k < s.len(),
    ensures
        dec_val(s.subrange(0, k + 1)) == dec_val(s.subrange(0, k)) * 10 + digit_val(s[k]),
{
    let t = s.subrange(0, k + 1);
    assert(t.drop_last() =~= s.subrange(0, k));
    assert(t.last() == s[k]);
}

/// A digit run is worth at least any of its prefixes.
pub proof fn lemma_dec_val_prefix(s: Seq<u8>, k: int)
    requires
        0 <= k <= s.len(),
    ensures
        dec_val(s.subrange(0, k)) <= dec_val(s),
    decreases s.len() - k,
{
    if k == s.len() {
        assert(s.subrange(0, k) =~= s);
    } else {
        lemma_dec_val_extend(s, k);
        lemma_dec_val_prefix(s, k + 1);
    }
}

/// Append the decimal rendering of `n` to `out`.
pub fn push_dec(out: &mut Vec<u8>, n: u64)
    ensures
        final(out)@ == old(out)@ + dec_digits(n as nat),
    decreases n,
{
    if n < 10 {
        out.push(48 + n as u8);
        assert(out@ =~= old(out)@ + dec_digits(n as nat));
    } else {
        push_dec(out, n / 10);
        out.push(48 + (n % 10) as u8);
        assert(out@ =~= old(out)@ + dec_digits(n as nat));
    }
}

/// Outcome of reading a decimal length field.
pub enum DecParse {
    Value(u64),
    NotDigits,
    TooBig,
}

/// Read the digit run `v[start..end]` as a decimal number, telling an
/// empty or non-digit run apart from a value above `u64::MAX`.
pub fn parse_dec(v: &[u8], start: usize, end: usize) -> (r: DecParse)
    requires
        start <= end <= v@.len(),
    ensures
        ({
            let s = v@.subrange(start as int, end as int);
            match r {
                DecParse::Value(x) => s.len() >= 1 && all_dec_digits(s) && dec_val(s) == x,
                DecParse::NotDigits => s.len() == 0 || !all_dec_digits(s),
                DecParse::TooBig => s.len() >= 1 && all_dec_digits(s) && dec_val(s) > u64::MAX,
            }
        }),
{
    let ghost s = v@.subrange(start as int, end as int);
    if start == end {
        return DecParse::NotDigits;
    }
    let mut i: usize = start;
    while i < end
        invariant
            start <= i <= end <= v@.len(),
            s == v@.subrange(start as int, end as int),
            forall|j: int| 0 <= j < i - start ==> is_dec_digit(#[trigger] s[j]),
        decreases end - i,
    {
        let b = v[i];
        if b < 48 || b > 57 {
            assert(!is_dec_digit(s[i - start]));
            return DecParse::NotDigits;
        }
        i += 1;
    }
    assert(all_dec_digits(s));
    let mut acc: u64 = 0;
    i = start;
    while i < end
        invariant
            start <= i <= end <= v@.len(),
            s == v@.subrange(start as int, end as int),
            all_dec_digits(s),
            acc as nat == dec_val(s.subrange(0, i - start)),
        decreases end - i,
    {
        let b = v[i];
        assert(is_dec_digit(s[i - start]));
        let d = b - 48;
        if acc > (u64::MAX - d as u64) / 10 {
            proof {
                lemma_dec_val_extend(s, i - start);
                assert(dec_val(s.subrange(0, i - start + 1)) > u64::MAX) by {
                    vstd::arithmetic::div_mod::lemma_fundamental_div_mod(
                        (u64::MAX - d) as int,
                        10,
                    );
                }
                lemma_dec_val_prefix(s, i - start + 1);
            }
            return DecParse::TooBig;
        }
        proof {
            lemma_dec_val_extend(s, i - start);
            assert(acc * 10 + d <= u64::MAX) by {
                vstd::arithmetic::div_mod::lemma_fundamental_div_mod((u64::MAX - d) as int, 10);
            }
        }
        acc = acc * 10 + d as u64;
        i += 1;
    }
    proof {
        assert(s.subrange(0, end - start) =~= s);
    }
    DecParse::Value(acc)
}

/// Strict lexicographic order on byte strings; a proper prefix comes
/// before any extension of it.
pub open spec fn lex_lt(a: Seq<u8>, b: Seq<u8>) -> bool
    decreases a.len(),
{
    if b.len() == 0 {
        false
    } else if a.len() == 0 {
        true
    } else if a[0] < b[0] {
        true
    } else if a[0] > b[0] {
        false
    } else {
        lex_lt(a.drop_first(), b.drop_first())
    }
}

/// At most one of `lex_lt(a, b)` and `lex_lt(b, a)` holds.
pub proof fn lemma_lex_lt_asymmetric(a: Seq<u8>, b: Seq<u8>)
    requires
        lex_lt(a, b),
    ensures
        !lex_lt(b, a),
    decreases a.len(),
{
    if a.len() != 0 && b.len() != 0 && a[0] == b[0] {
        lemma_lex_lt_asymmetric(a.drop_first(), b.drop_first());
    }
}

/// Byte strings that each fail to precede the other are equal.
pub proof fn lemma_lex_lt_connected(a: Seq<u8>, b: Seq<u8>)
    requires
        !lex_lt(a, b),
        !lex_lt(b, a),
    ensures
        a == b,
    decreases a.len(),
{
    if a.len() == 0 || b.len() == 0 {
        assert(a =~= b);
    } else {
        lemma_lex_lt_connected(a.drop_first(), b.drop_first());
        assert(a =~= seq![a[0]] + a.drop_first());
        assert(b =~= seq![b[0]] + b.drop_first());
    }
}

/// Lexicographic order is transitive.
pub proof fn lemma_lex_lt_transitive(a: Seq<u8>, b: Seq<u8>, c: Seq<u8>)
    requires
        lex_lt(a, b),
        lex_lt(b, c),
    ensures
        lex_lt(a, c),
    decreases a.len(),
{
    if a.len() != 0 && b.len() != 0 && c.len() != 0 && a[0] == b[0] && b[0] == c[0] {
        lemma_lex_lt_transitive(a.drop_first(), b.drop_first(), c.drop_first());
    }
}

/// `lex_lt` looks only at the suffixes past a common prefix.
pub proof fn lemma_lex_lt_skip(a: Seq<u8>, b: Seq<u8>, i: int)
    requires
        0 <= i <= a.len(),
        i <= b.len(),
        forall|j: int| 0 <= j < i ==> a[j] == b[j],
    ensures
        lex_lt(a, b) == lex_lt(a.skip(i), b.skip(i)),
    decreases i,
{
    if i > 0 {
        assert(a.len() != 0 && b.len() != 0 && a[0] == b[0]);
        lemma_lex_lt_skip(a.drop_first(), b.drop_first(), i - 1);
        assert(a.drop_first().skip(i - 1) =~= a.skip(i));
        assert(b.drop_first().skip(i - 1) =~= b.skip(i));
    } else {
        assert(a.skip(0) =~= a);
        assert(b.skip(0) =~= b);
    }
}

/// Three-way byte-order comparison: `-1` when `a` comes first, `1` when
/// `b` does, `0` on equality.
pub fn lex_compare(a: &[u8], b: &[u8]) -> (r: i8)
    ensures
        -1 <= r <= 1,
        r == -1 <==> lex_lt(a@, b@),
        r == 1 <==> lex_lt(b@, a@),
        r == 0 <==> a@ == b@,
{
    let mut i: usize = 0;
    loop
        invariant
            i <= a@.len(),
            i <= b@.len(),
            forall|j: int| 0 <= j < i ==> a@[j] == b@[j],
        ensures
            (i <= a@.len() && i <= b@.len()) && (forall|j: int| 0 <= j < i ==> a@[j] == b@[j])
                && (i == a@.len() || i == b@.len() || a@[i as int] != b@[i as int]),
        decreases a@.len() - i,
    {
        if i == a.len() || i == b.len() {
            break;
        }
        if a[i] != b[i] {
            break;
        }
        i += 1;
    }
    proof {
        lemma_lex_lt_skip(a@, b@, i as int);
        lemma_lex_lt_skip(b@, a@, i as int);
    }
    if i == a.len() && i == b.len() {
        proof {
            assert(a@ =~= b@);
        }
        0
    } else if i == a.len() {
        proof {
            assert(a@.skip(i as int).len() == 0 && b@.skip(i as int).len() != 0);
            lemma_lex_lt_asymmetric(a@, b@);
        }
        -1
    } else if i == b.len() {
        proof {
            lemma_lex_lt_asymmetric(b@, a@);
        }
        1
    } else if a[i] < b[i] {
        proof {
            assert(a@.skip(i as int)[0] == a@[i as int]);
            assert(b@.skip(i as int)[0] == b@[i as int]);
            lemma_lex_lt_asymmetric(a@, b@);
        }
        -1
    } else {
        proof {
            assert(a@.skip(i as int)[0] == a@[i as int]);
            assert(b@.skip(i as int)[0] == b@[i as int]);
            lemma_lex_lt_asymmetric(b@, a@);
        }
        1
    }
}

} // verus!
