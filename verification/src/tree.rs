//! Tree objects: the sorted list of `(mode, name, child id)` entries, its
//! binary wire form, the parser that reads it back, and the listings
//! shown to the user. The entry order is load-bearing: the tree's id is
//! the hash of the serialized, sorted entry sequence, so two directories
//! with the same contents always hash identically.
use vstd::prelude::*;
use vstd::string::StringExecFns;
use vstd::utf8::decode_utf8;
use vstd::utf8::encode_utf8;
use vstd::utf8::valid_utf8;
use crate::GitError;
use crate::ObjectKind;
use crate::hashing::bytes_of_hex;
use crate::object::frame;
use crate::object::kind_word;
use crate::object::object_id_of;
use crate::object::write_object;
use crate::object_id::ObjectId;
use crate::object_id::is_hex_id;
use crate::hashing::lemma_hex_of_spec;
use crate::hashing::lemma_hex_round_trip;
use crate::hashing::hex_of;
use crate::wire::find_byte;
use crate::wire::find_byte_from;
use crate::wire::lemma_find_byte_first;
use crate::wire::lemma_find_byte_spec;
use crate::wire::lex_compare;
use crate::wire::lex_lt;
use crate::wire::lemma_lex_lt_asymmetric;
use crate::wire::lemma_lex_lt_connected;
use crate::wire::lemma_lex_lt_transitive;
use crate::zlib::inflate_of;

verus! {

/// The mathematical content of one tree entry: mode and name as text,
/// the child id as forty hex characters.
pub struct TreeEntryView {
    pub mode: Seq<char>,
    pub name: Seq<char>,
    pub id: Seq<char>,
}

/// One entry of a tree: a mode tag, a path segment, and the id of the
/// child blob or tree.
#[derive(Debug)]
pub struct TreeEntry {
    pub mode: String,
    pub name: String,
    pub id: ObjectId,
}

impl View for TreeEntry {
    type V = TreeEntryView;

    open spec fn view(&self) -> TreeEntryView {
        TreeEntryView { mode: self.mode@, name: self.name@, id: self.id@ }
    }
}

impl DeepView for TreeEntry {
    type V = TreeEntryView;

    open spec fn deep_view(&self) -> TreeEntryView {
        self.view()
    }
}

/// The two mode tags are pure ASCII digits, so their wire forms hold
/// no space byte.
proof fn lemma_mode_tags_wf()
    ensures
        !encode_utf8("100644"@).contains(32u8),
        !encode_utf8("40000"@).contains(32u8),
{
    reveal_strlit("100644");
    reveal_strlit("40000");
    let f = "100644"@;
    let d = "40000"@;
    assert(vstd::utf8::is_ascii_chars(f)) by {
        assert forall|i: int| 0 <= i < f.len() implies '\0' <= #[trigger] f[i] <= '\u{7f}' by {
            assert(f[i] == '1' || f[i] == '0' || f[i] == '6' || f[i] == '4');
        }
    }
    assert(vstd::utf8::is_ascii_chars(d)) by {
        assert forall|i: int| 0 <= i < d.len() implies '\0' <= #[trigger] d[i] <= '\u{7f}' by {
            assert(d[i] == '4' || d[i] == '0');
        }
    }
    vstd::utf8::is_ascii_chars_encode_utf8(f);
    vstd::utf8::is_ascii_chars_encode_utf8(d);
    if encode_utf8(f).contains(32u8) {
        let i = choose|i: int| 0 <= i < encode_utf8(f).len() && encode_utf8(f)[i] == 32;
        assert(encode_utf8(f)[i] == f[i] as u8);
        assert(f[i] == '1' || f[i] == '0' || f[i] == '6' || f[i] == '4');
        assert(f[i] as u8 != 32);
    }
    if encode_utf8(d).contains(32u8) {
        let i = choose|i: int| 0 <= i < encode_utf8(d).len() && encode_utf8(d)[i] == 32;
        assert(encode_utf8(d)[i] == d[i] as u8);
        assert(d[i] == '4' || d[i] == '0');
        assert(d[i] as u8 != 32);
    }
}

impl TreeEntry {
    /// A regular-file entry, mode `100644`, if the name can ride the
    /// wire: a name holding a NUL byte is refused.
    pub fn file(name: String, id: ObjectId) -> (r: Option<TreeEntry>)
        requires
            id.wf(),
        ensures
            r is Some <==> !encode_utf8(name@).contains(0u8),
            r is Some ==> r.unwrap()@ == (TreeEntryView {
                mode: "100644"@,
                name: name@,
                id: id@,
            }) && entry_wf(r.unwrap()@),
    {
        proof {
            lemma_mode_tags_wf();
        }
        let mode = String::from_str("100644");
        if crate::wire::scan_free_of(name.as_str().as_bytes(), 0) {
            Some(TreeEntry { mode, name, id })
        } else {
            None
        }
    }

    /// A directory entry, mode `40000`, if the name can ride the wire.
    pub fn directory(name: String, id: ObjectId) -> (r: Option<TreeEntry>)
        requires
            id.wf(),
        ensures
            r is Some <==> !encode_utf8(name@).contains(0u8),
            r is Some ==> r.unwrap()@ == (TreeEntryView {
                mode: "40000"@,
                name: name@,
                id: id@,
            }) && entry_wf(r.unwrap()@),
    {
        proof {
            lemma_mode_tags_wf();
        }
        let mode = String::from_str("40000");
        if crate::wire::scan_free_of(name.as_str().as_bytes(), 0) {
            Some(TreeEntry { mode, name, id })
        } else {
            None
        }
    }
}

/// The UTF-8 bytes of an entry's name: the sort key of a tree.
pub open spec fn name_bytes(e: TreeEntryView) -> Seq<u8> {
    encode_utf8(e.name)
}

/// An entry the wire form can carry: a valid child id, no NUL byte in
/// the name, no space in the mode.
pub open spec fn entry_wf(e: TreeEntryView) -> bool {
    &&& is_hex_id(e.id)
    &&& !encode_utf8(e.name).contains(0u8)
    &&& !encode_utf8(e.mode).contains(32u8)
}

pub open spec fn entries_wf(es: Seq<TreeEntryView>) -> bool {
    forall|i: int| 0 <= i < es.len() ==> entry_wf(#[trigger] es[i])
}

/// Strictly ascending byte-order of names.
pub open spec fn entry_lt(a: TreeEntryView, b: TreeEntryView) -> bool {
    lex_lt(name_bytes(a), name_bytes(b))
}

pub open spec fn strict_sorted(es: Seq<TreeEntryView>) -> bool {
    forall|i: int, j: int| #![trigger es[i], es[j]] 0 <= i < j < es.len() ==> entry_lt(es[i], es[j])
}

/// The wire form of one entry: mode, space, name, NUL, then the child
/// id as 20 raw bytes.
pub open spec fn encode_entry(e: TreeEntryView) -> Seq<u8> {
    encode_utf8(e.mode) + seq![32u8] + encode_utf8(e.name) + seq![0u8] + bytes_of_hex(e.id)
}

/// The body of a tree object: the entries' wire forms, back to back.
pub open spec fn encode_entries(es: Seq<TreeEntryView>) -> Seq<u8>
    decreases es.len(),
{
    if es.len() == 0 {
        Seq::empty()
    } else {
        encode_entry(es[0]) + encode_entries(es.drop_first())
    }
}

/// Serialization grows one entry at a time.
pub proof fn lemma_encode_entries_take(es: Seq<TreeEntryView>, i: int)
    requires
        0 <= i < es.len(),
    ensures
        encode_entries(es.take(i + 1)) == encode_entries(es.take(i)) + encode_entry(es[i]),
    decreases i,
{
    if i == 0 {
        let t = es.take(1);
        assert(t.len() == 1 && t[0] == es[0]);
        assert(t.drop_first() =~= Seq::<TreeEntryView>::empty());
        assert(encode_entries(t.drop_first()) == Seq::<u8>::empty());
        assert(encode_entries(t) == encode_entry(t[0]) + encode_entries(t.drop_first()));
        assert(es.take(0).len() == 0);
        assert(encode_entries(es.take(0)) == Seq::<u8>::empty());
        assert(encode_entries(es.take(1)) =~= encode_entries(es.take(0)) + encode_entry(es[0]));
    } else {
        lemma_encode_entries_take(es.drop_first(), i - 1);
        assert(es.take(i + 1).drop_first() =~= es.drop_first().take(i));
        assert(es.take(i).drop_first() =~= es.drop_first().take(i - 1));
        assert(encode_entries(es.take(i + 1)) == encode_entry(es[0]) + encode_entries(
            es.drop_first().take(i),
        ));
        assert(encode_entries(es.take(i)) == encode_entry(es[0]) + encode_entries(
            es.drop_first().take(i - 1),
        ));
        assert(encode_entries(es.take(i + 1)) =~= encode_entries(es.take(i)) + encode_entry(
            es[i],
        ));
    }
}

/// A tree: its id and its entries in strictly ascending name order.
#[derive(Debug)]
pub struct Tree {
    pub id: ObjectId,
    pub entries: Vec<TreeEntry>,
}

impl Tree {
    pub open spec fn wf(&self) -> bool {
        &&& self.id.wf()
        &&& strict_sorted(self.entries.deep_view())
        &&& entries_wf(self.entries.deep_view())
    }
}

/// Where a new entry lands in a sorted entry list: before the first
/// larger name; an entry whose name is already present is dropped.
pub open spec fn insert_sorted(es: Seq<TreeEntryView>, e: TreeEntryView) -> Seq<TreeEntryView>
    decreases es.len(),
{
    if es.len() == 0 {
        seq![e]
    } else if lex_lt(name_bytes(e), name_bytes(es[0])) {
        seq![e] + es
    } else if name_bytes(e) == name_bytes(es[0]) {
        es
    } else {
        seq![es[0]] + insert_sorted(es.drop_first(), e)
    }
}

/// The sorted list that a sequence of insertions builds, first to last.
pub open spec fn insert_all(es: Seq<TreeEntryView>) -> Seq<TreeEntryView>
    decreases es.len(),
{
    if es.len() == 0 {
        Seq::empty()
    } else {
        insert_sorted(insert_all(es.drop_last()), es.last())
    }
}

/// Does some entry of `es` carry the name whose bytes are `nb`?
pub open spec fn has_name(es: Seq<TreeEntryView>, nb: Seq<u8>) -> bool {
    exists|i: int| 0 <= i < es.len() && name_bytes(#[trigger] es[i]) == nb
}

/// What one insertion does to a sorted list: order is kept, the members
/// are the old ones plus the new entry, and a duplicate name changes
/// nothing.
pub proof fn lemma_insert_sorted_props(es: Seq<TreeEntryView>, e: TreeEntryView)
    requires
        strict_sorted(es),
    ensures
        strict_sorted(insert_sorted(es, e)),
        !has_name(es, name_bytes(e)) ==> insert_sorted(es, e).to_multiset()
            == es.to_multiset().insert(e),
        has_name(es, name_bytes(e)) ==> insert_sorted(es, e) == es,
        forall|nb: Seq<u8>|
            #[trigger] has_name(insert_sorted(es, e), nb) <==> has_name(es, nb) || nb
                == name_bytes(e),
        forall|i: int|
            0 <= i < insert_sorted(es, e).len() ==> #[trigger] insert_sorted(es, e)[i] == e
                || es.contains(insert_sorted(es, e)[i]),
    decreases es.len(),
{
    broadcast use vstd::seq_lib::group_to_multiset_ensures;
    broadcast use vstd::multiset::group_multiset_axioms;

    let r = insert_sorted(es, e);
    if es.len() == 0 {
        assert(r =~= seq![e]);
        assert(seq![e].drop_first() =~= Seq::<TreeEntryView>::empty());
        assert(r.to_multiset() =~= es.to_multiset().insert(e));
        assert forall|nb: Seq<u8>| #[trigger] has_name(r, nb) implies nb == name_bytes(e) by {
            let i = choose|i: int| 0 <= i < r.len() && name_bytes(r[i]) == nb;
            assert(i == 0);
        }
        assert(name_bytes(r[0]) == name_bytes(e));
    } else if lex_lt(name_bytes(e), name_bytes(es[0])) {
        assert(r =~= seq![e] + es);
        assert forall|i: int, j: int|
            #![trigger r[i], r[j]]
            0 <= i < j < r.len() implies entry_lt(r[i], r[j]) by {
            if i == 0 {
                if j == 1 {
                } else {
                    assert(entry_lt(es[0], es[j - 1]));
                    lemma_lex_lt_transitive(
                        name_bytes(e),
                        name_bytes(es[0]),
                        name_bytes(es[j - 1]),
                    );
                }
            }
        }
        assert(r.to_multiset() =~= es.to_multiset().insert(e)) by {
            vstd::seq_lib::lemma_multiset_commutative(seq![e], es);
            assert(seq![e] =~= Seq::<TreeEntryView>::empty().push(e));
        }
        assert forall|i: int|
            0 <= i < es.len() implies name_bytes(#[trigger] es[i]) != name_bytes(e) by {
            if i == 0 {
                lemma_lex_lt_asymmetric(name_bytes(e), name_bytes(es[0]));
            } else {
                assert(entry_lt(es[0], es[i]));
                lemma_lex_lt_transitive(name_bytes(e), name_bytes(es[0]), name_bytes(es[i]));
                lemma_lex_lt_asymmetric(name_bytes(e), name_bytes(es[i]));
            }
        }
        assert(!has_name(es, name_bytes(e)));
        assert forall|nb: Seq<u8>|
            #[trigger] has_name(r, nb) implies has_name(es, nb) || nb == name_bytes(e) by {
            let i = choose|i: int| 0 <= i < r.len() && name_bytes(r[i]) == nb;
            if i > 0 {
                assert(name_bytes(es[i - 1]) == nb);
            }
        }
        assert forall|nb: Seq<u8>|
            has_name(es, nb) || nb == name_bytes(e) implies #[trigger] has_name(r, nb) by {
            if has_name(es, nb) {
                let i = choose|i: int| 0 <= i < es.len() && name_bytes(es[i]) == nb;
                assert(name_bytes(r[i + 1]) == nb);
            } else {
                assert(name_bytes(r[0]) == nb);
            }
        }
    } else if name_bytes(e) == name_bytes(es[0]) {
        assert(r == es);
        assert(name_bytes(es[0]) == name_bytes(e));
        assert(has_name(es, name_bytes(e)));
    } else {
        if !lex_lt(name_bytes(es[0]), name_bytes(e)) {
            lemma_lex_lt_connected(name_bytes(e), name_bytes(es[0]));
        }
        assert(lex_lt(name_bytes(es[0]), name_bytes(e)));
        assert(strict_sorted(es.drop_first())) by {
            assert(forall|i: int, j: int|
                #![trigger es.drop_first()[i], es.drop_first()[j]]
                0 <= i < j < es.drop_first().len() ==> entry_lt(es[i + 1], es[j + 1]));
        }
        lemma_insert_sorted_props(es.drop_first(), e);
        let rt = insert_sorted(es.drop_first(), e);
        assert(r =~= seq![es[0]] + rt);
        assert forall|i: int, j: int|
            #![trigger r[i], r[j]]
            0 <= i < j < r.len() implies entry_lt(r[i], r[j]) by {
            if i > 0 {
                assert(rt[i - 1] == r[i] && rt[j - 1] == r[j]);
                assert(entry_lt(rt[i - 1], rt[j - 1]));
            } else {
                assert(r[j] == rt[j - 1]);
                if rt[j - 1] == e {
                } else {
                    assert(es.contains(rt[j - 1]));
                    let k = choose|k: int| 0 <= k < es.len() && es[k] == rt[j - 1];
                    if k > 0 {
                        assert(entry_lt(es[0], es[k]));
                    } else {
                        assert(rt[j - 1] == es[0]);
                        assert(false) by {
                            assert(rt[j - 1] == e || es.drop_first().contains(rt[j - 1]));
                            let k2 = choose|k2: int|
                                0 <= k2 < es.drop_first().len() && es.drop_first()[k2] == rt[j
                                    - 1];
                            assert(es[k2 + 1] == es[0]);
                            assert(entry_lt(es[0], es[k2 + 1]));
                            lemma_lex_lt_asymmetric(
                                name_bytes(es[0]),
                                name_bytes(es[k2 + 1]),
                            );
                        }
                    }
                }
            }
        }
        if !has_name(es, name_bytes(e)) {
            assert(!has_name(es.drop_first(), name_bytes(e))) by {
                if has_name(es.drop_first(), name_bytes(e)) {
                    let i = choose|i: int|
                        0 <= i < es.drop_first().len() && name_bytes(es.drop_first()[i])
                            == name_bytes(e);
                    assert(name_bytes(es[i + 1]) == name_bytes(e));
                }
            }
            assert(rt.to_multiset() == es.drop_first().to_multiset().insert(e));
            assert(r.to_multiset() =~= es.to_multiset().insert(e)) by {
                vstd::seq_lib::lemma_multiset_commutative(seq![es[0]], rt);
                vstd::seq_lib::lemma_multiset_commutative(seq![es[0]], es.drop_first());
                assert(seq![es[0]] =~= Seq::<TreeEntryView>::empty().push(es[0]));
                assert(es =~= seq![es[0]] + es.drop_first());
            }
        } else {
            assert(has_name(es.drop_first(), name_bytes(e))) by {
                let i = choose|i: int| 0 <= i < es.len() && name_bytes(es[i]) == name_bytes(e);
                assert(i != 0);
                assert(name_bytes(es.drop_first()[i - 1]) == name_bytes(e));
            }
            assert(rt == es.drop_first());
            assert(r =~= es);
        }
        assert forall|nb: Seq<u8>|
            #[trigger] has_name(r, nb) implies has_name(es, nb) || nb == name_bytes(e) by {
            let i = choose|i: int| 0 <= i < r.len() && name_bytes(r[i]) == nb;
            if i == 0 {
                assert(name_bytes(es[0]) == nb);
            } else {
                assert(has_name(rt, nb));
                if has_name(es.drop_first(), nb) {
                    let m = choose|m: int|
                        0 <= m < es.drop_first().len() && name_bytes(es.drop_first()[m]) == nb;
                    assert(name_bytes(es[m + 1]) == nb);
                }
            }
        }
        assert forall|nb: Seq<u8>|
            has_name(es, nb) || nb == name_bytes(e) implies #[trigger] has_name(r, nb) by {
            if has_name(es, nb) {
                let i = choose|i: int| 0 <= i < es.len() && name_bytes(es[i]) == nb;
                if i == 0 {
                    assert(name_bytes(r[0]) == nb);
                } else {
                    assert(name_bytes(es.drop_first()[i - 1]) == nb);
                    assert(has_name(es.drop_first(), nb));
                    assert(has_name(rt, nb));
                    let m = choose|m: int| 0 <= m < rt.len() && name_bytes(rt[m]) == nb;
                    assert(name_bytes(r[m + 1]) == nb);
                }
            } else {
                assert(has_name(rt, nb));
                let m = choose|m: int| 0 <= m < rt.len() && name_bytes(rt[m]) == nb;
                assert(name_bytes(r[m + 1]) == nb);
            }
        }
        assert forall|i: int|
            0 <= i < r.len() implies #[trigger] r[i] == e || es.contains(r[i]) by {
            if i > 0 {
                if rt[i - 1] == e {
                } else {
                    assert(es.drop_first().contains(rt[i - 1]));
                    let k = choose|k: int|
                        0 <= k < es.drop_first().len() && es.drop_first()[k] == rt[i - 1];
                    assert(es[k + 1] == r[i]);
                }
            }
        }
    }
}

/// Insert one entry into a sorted entry list, keeping the order and
/// dropping a duplicate name.
pub fn insert_entry(entries: &mut Vec<TreeEntry>, e: TreeEntry)
    requires
        strict_sorted(old(entries).deep_view()),
    ensures
        final(entries).deep_view() == insert_sorted(old(entries).deep_view(), e@),
{
    let ghost dv = entries.deep_view();
    let mut i: usize = 0;
    loop
        invariant
            i <= entries@.len(),
            strict_sorted(dv),
            dv == entries.deep_view(),
            forall|k: int| 0 <= k < i ==> entry_lt(#[trigger] dv[k], e@),
        ensures
            i <= entries@.len(),
            dv == entries.deep_view(),
            forall|k: int| 0 <= k < i ==> entry_lt(#[trigger] dv[k], e@),
            i < entries@.len() ==> !lex_lt(name_bytes(dv[i as int]), name_bytes(e@)),
        decreases entries@.len() - i,
    {
        if i == entries.len() {
            break;
        }
        let c = lex_compare(entries[i].name.as_str().as_bytes(), e.name.as_str().as_bytes());
        if c >= 0 {
            break;
        }
        i += 1;
    }
    proof {
        lemma_insert_sorted_take(dv, e@, i as int);
    }
    if i == entries.len() {
        entries.push(e);
        proof {
            assert(dv.skip(i as int) =~= Seq::<TreeEntryView>::empty());
            assert(entries.deep_view() =~= dv.take(i as int) + seq![e@]);
        }
    } else {
        let c = lex_compare(e.name.as_str().as_bytes(), entries[i].name.as_str().as_bytes());
        proof {
            assert(dv.skip(i as int)[0] == dv[i as int]);
        }
        if c < 0 {
            entries.insert(i, e);
            proof {
                assert(insert_sorted(dv.skip(i as int), e@) =~= seq![e@] + dv.skip(i as int));
                assert(entries.deep_view() =~= dv.take(i as int) + (seq![e@] + dv.skip(
                    i as int,
                )));
            }
        } else {
            proof {
                lemma_lex_lt_connected(name_bytes(e@), name_bytes(dv[i as int]));
                assert(insert_sorted(dv.skip(i as int), e@) == dv.skip(i as int));
                assert(entries.deep_view() =~= dv.take(i as int) + dv.skip(i as int));
            }
        }
    }
}

/// No two entries carry the same name.
pub open spec fn unique_names(es: Seq<TreeEntryView>) -> bool {
    forall|i: int, j: int|
        #![trigger es[i], es[j]]
        0 <= i < j < es.len() ==> name_bytes(es[i]) != name_bytes(es[j])
}

/// Inserting entries with pairwise distinct names, in any order, gives
/// a strictly sorted list holding exactly those entries.
pub proof fn lemma_insert_all_props(es: Seq<TreeEntryView>)
    requires
        unique_names(es),
    ensures
        strict_sorted(insert_all(es)),
        insert_all(es).to_multiset() == es.to_multiset(),
        forall|nb: Seq<u8>| #[trigger] has_name(insert_all(es), nb) <==> has_name(es, nb),
    decreases es.len(),
{
    broadcast use vstd::seq_lib::group_to_multiset_ensures;

    let r = insert_all(es);
    if es.len() == 0 {
    } else {
        let head = es.drop_last();
        let e = es.last();
        assert(unique_names(head)) by {
            assert(forall|i: int, j: int|
                #![trigger head[i], head[j]]
                0 <= i < j < head.len() ==> name_bytes(es[i]) != name_bytes(es[j]));
        }
        lemma_insert_all_props(head);
        lemma_insert_sorted_props(insert_all(head), e);
        assert(!has_name(head, name_bytes(e))) by {
            if has_name(head, name_bytes(e)) {
                let i = choose|i: int|
                    0 <= i < head.len() && name_bytes(head[i]) == name_bytes(e);
                assert(name_bytes(es[i]) == name_bytes(es[es.len() - 1]));
            }
        }
        assert(!has_name(insert_all(head), name_bytes(e)));
        assert(r.to_multiset() == insert_all(head).to_multiset().insert(e));
        assert(es =~= head.push(e));
        assert(es.to_multiset() == head.to_multiset().insert(e));
        assert forall|nb: Seq<u8>| #[trigger] has_name(es, nb) implies has_name(head, nb) || nb
            == name_bytes(e) by {
            let i = choose|i: int| 0 <= i < es.len() && name_bytes(es[i]) == nb;
            if i < es.len() - 1 {
                assert(name_bytes(head[i]) == nb);
            }
        }
        assert forall|nb: Seq<u8>|
            has_name(head, nb) || nb == name_bytes(e) implies #[trigger] has_name(es, nb) by {
            if has_name(head, nb) {
                let i = choose|i: int| 0 <= i < head.len() && name_bytes(head[i]) == nb;
                assert(name_bytes(es[i]) == nb);
            } else {
                assert(name_bytes(es[es.len() - 1]) == nb);
            }
        }
    }
}

/// Two strictly sorted entry lists holding the same entries are equal.
pub proof fn lemma_strict_sorted_unique(x: Seq<TreeEntryView>, y: Seq<TreeEntryView>)
    requires
        strict_sorted(x),
        strict_sorted(y),
        x.to_multiset() == y.to_multiset(),
    ensures
        x == y,
    decreases x.len(),
{
    broadcast use vstd::seq_lib::group_to_multiset_ensures;
    broadcast use vstd::multiset::group_multiset_axioms;

    if x.len() == 0 {
        assert(y.to_multiset().len() == 0);
        assert(x =~= y);
    } else if y.len() == 0 {
        assert(x.to_multiset().len() == 0);
    } else {
        assert(x.to_multiset().contains(x[0]));
        assert(y.to_multiset().contains(x[0]));
        assert(y.contains(x[0]));
        assert(y.to_multiset().contains(y[0]));
        assert(x.to_multiset().contains(y[0]));
        assert(x.contains(y[0]));
        let i = choose|i: int| 0 <= i < y.len() && y[i] == x[0];
        let j = choose|j: int| 0 <= j < x.len() && x[j] == y[0];
        if i > 0 && j > 0 {
            assert(entry_lt(y[0], y[i]));
            assert(entry_lt(x[0], x[j]));
            lemma_lex_lt_asymmetric(name_bytes(y[0]), name_bytes(x[0]));
            assert(false);
        }
        assert(x[0] == y[0]);
        assert(x.drop_first().to_multiset() =~= x.to_multiset().remove(x[0])) by {
            vstd::seq_lib::to_multiset_remove(x, 0);
            assert(x.remove(0) =~= x.drop_first());
        }
        assert(y.drop_first().to_multiset() =~= y.to_multiset().remove(y[0])) by {
            vstd::seq_lib::to_multiset_remove(y, 0);
            assert(y.remove(0) =~= y.drop_first());
        }
        assert(strict_sorted(x.drop_first())) by {
            assert(forall|p: int, q: int|
                #![trigger x.drop_first()[p], x.drop_first()[q]]
                0 <= p < q < x.drop_first().len() ==> entry_lt(x[p + 1], x[q + 1]));
        }
        assert(strict_sorted(y.drop_first())) by {
            assert(forall|p: int, q: int|
                #![trigger y.drop_first()[p], y.drop_first()[q]]
                0 <= p < q < y.drop_first().len() ==> entry_lt(y[p + 1], y[q + 1]));
        }
        lemma_strict_sorted_unique(x.drop_first(), y.drop_first());
        assert(x =~= seq![x[0]] + x.drop_first());
        assert(y =~= seq![y[0]] + y.drop_first());
    }
}

/// Order independence: a directory's entries, fed to the sorted
/// insertion in any order, build the same entry list — and so the same
/// serialized body and the same tree id — provided the names are
/// pairwise distinct.
pub proof fn lemma_order_independence(es1: Seq<TreeEntryView>, es2: Seq<TreeEntryView>)
    requires
        unique_names(es1),
        es1.to_multiset() == es2.to_multiset(),
    ensures
        insert_all(es1) == insert_all(es2),
        object_id_of(ObjectKind::Tree, encode_entries(insert_all(es1))) == object_id_of(
            ObjectKind::Tree,
            encode_entries(insert_all(es2)),
        ),
{
    broadcast use vstd::seq_lib::group_to_multiset_ensures;
    broadcast use vstd::multiset::group_multiset_axioms;

    assert(unique_names(es2)) by {
        es1.lemma_multiset_has_no_duplicates();
        es2.lemma_multiset_has_no_duplicates_conv();
        assert forall|i: int, j: int|
            #![trigger es2[i], es2[j]]
            0 <= i < j < es2.len() implies name_bytes(es2[i]) != name_bytes(es2[j]) by {
            if name_bytes(es2[i]) == name_bytes(es2[j]) {
                assert(es2[i] != es2[j]);
                assert(es2.to_multiset().contains(es2[i]));
                assert(es2.to_multiset().contains(es2[j]));
                assert(es1.contains(es2[i]));
                assert(es1.contains(es2[j]));
                let p = choose|p: int| 0 <= p < es1.len() && es1[p] == es2[i];
                let q = choose|q: int| 0 <= q < es1.len() && es1[q] == es2[j];
                assert(p != q);
                if p < q {
                    assert(name_bytes(es1[p]) != name_bytes(es1[q]));
                } else {
                    assert(name_bytes(es1[q]) != name_bytes(es1[p]));
                }
            }
        }
    }
    lemma_insert_all_props(es1);
    lemma_insert_all_props(es2);
    lemma_strict_sorted_unique(insert_all(es1), insert_all(es2));
}

impl Tree {
    /// Serialize a sorted entry list into a tree body.
    pub fn handle_entries(entries: &Vec<TreeEntry>) -> (r: Vec<u8>)
    requires
        entries_wf(entries.deep_view()),
    ensures
        r@ == encode_entries(entries.deep_view()),
{
    let ghost dv = entries.deep_view();
    let mut content: Vec<u8> = Vec::new();
    proof {
        assert(dv.take(0).len() == 0);
        assert(encode_entries(dv.take(0)) == Seq::<u8>::empty());
        assert(content@ =~= encode_entries(dv.take(0)));
    }
    let mut i: usize = 0;
    while i < entries.len()
        invariant
            i <= entries@.len(),
            dv == entries.deep_view(),
            entries_wf(dv),
            content@ == encode_entries(dv.take(i as int)),
        decreases entries@.len() - i,
    {
        let e = &entries[i];
        assert(entry_wf(dv[i as int]));
        content.extend_from_slice(e.mode.as_str().as_bytes());
        content.push(32);
        content.extend_from_slice(e.name.as_str().as_bytes());
        content.push(0);
        let idb = e.id.as_bytes();
        content.extend_from_slice(idb.as_slice());
        proof {
            lemma_encode_entries_take(dv, i as int);
            assert(content@ =~= encode_entries(dv.take(i as int)) + encode_entry(dv[i as int]));
        }
        i += 1;
    }
    proof {
        assert(dv.take(dv.len() as int) =~= dv);
    }
    content
}
}

/// Outcome of reading a tree body back into entries.
pub enum TreeParse {
    Entries(Seq<TreeEntryView>),
    Corrupt,
    BadName,
}

/// How a tree body is read back, entry by entry: split the mode at the
/// first space, the name at the first NUL, take exactly 20 raw id
/// bytes, and repeat on the remainder. A missing delimiter or fewer
/// than 20 remaining bytes is corruption; a mode or name that is not
/// valid text is a bad name.
pub open spec fn parse_entries(b: Seq<u8>) -> TreeParse
    decreases b.len(),
{
    if b.len() == 0 {
        TreeParse::Entries(Seq::empty())
    } else {
        match find_byte(b, 32) {
            None => TreeParse::Corrupt,
            Some(sp) => {
                if sp + 1 >= b.len() {
                    TreeParse::Corrupt
                } else {
                    let after = b.skip(sp as int + 1);
                    match find_byte(after, 0) {
                        None => TreeParse::Corrupt,
                        Some(np) => {
                            if np + 21 > after.len() {
                                TreeParse::Corrupt
                            } else {
                                let mode_b = b.take(sp as int);
                                let name_b = after.take(np as int);
                                let id20 = after.subrange(np as int + 1, np as int + 21);
                                let rest = after.skip(np as int + 21);
                                if !valid_utf8(mode_b) || !valid_utf8(name_b) {
                                    TreeParse::BadName
                                } else {
                                    tree_parse_prepend(
                                        seq![
                                            TreeEntryView {
                                                mode: decode_utf8(mode_b),
                                                name: decode_utf8(name_b),
                                                id: hex_of(id20),
                                            },
                                        ],
                                        parse_entries(rest),
                                    )
                                }
                            }
                        },
                    }
                }
            },
        }
    }
}

/// Entries already read stand before whatever the rest parses to.
pub open spec fn tree_parse_prepend(acc: Seq<TreeEntryView>, t: TreeParse) -> TreeParse {
    match t {
        TreeParse::Entries(es) => TreeParse::Entries(acc + es),
        other => other,
    }
}

/// Whatever a tree body parses to can ride the wire again: parsed
/// entries carry valid ids, names free of NUL, modes free of spaces.
pub proof fn lemma_parse_entries_wf(b: Seq<u8>)
    ensures
        parse_entries(b) matches TreeParse::Entries(es) ==> entries_wf(es),
    decreases b.len(),
{
    broadcast use vstd::utf8::group_utf8_lib;

    if b.len() == 0 {
    } else {
        match find_byte(b, 32) {
            None => {},
            Some(sp) => {
                lemma_find_byte_spec(b, 32);
                if sp + 1 >= b.len() {
                } else {
                    let after = b.skip(sp as int + 1);
                    match find_byte(after, 0) {
                        None => {},
                        Some(np) => {
                            lemma_find_byte_spec(after, 0);
                            if np + 21 > after.len() {
                            } else {
                                let mode_b = b.take(sp as int);
                                let name_b = after.take(np as int);
                                let id20 = after.subrange(np as int + 1, np as int + 21);
                                let rest = after.skip(np as int + 21);
                                if !valid_utf8(mode_b) || !valid_utf8(name_b) {
                                } else {
                                    lemma_parse_entries_wf(rest);
                                    let e = TreeEntryView {
                                        mode: decode_utf8(mode_b),
                                        name: decode_utf8(name_b),
                                        id: hex_of(id20),
                                    };
                                    assert(entry_wf(e)) by {
                                        lemma_hex_of_spec(id20);
                                        assert(encode_utf8(e.mode) == mode_b);
                                        assert(encode_utf8(e.name) == name_b);
                                        if mode_b.contains(32u8) {
                                            let i = choose|i: int|
                                                0 <= i < mode_b.len() && mode_b[i] == 32;
                                            assert(b[i] == 32);
                                        }
                                        if name_b.contains(0u8) {
                                            let i = choose|i: int|
                                                0 <= i < name_b.len() && name_b[i] == 0;
                                            assert(after[i] == 0);
                                        }
                                    }
                                    match parse_entries(rest) {
                                        TreeParse::Entries(tail) => {
                                            assert(forall|i: int|
                                                0 <= i < tail.len() ==> (seq![e] + tail)[i + 1]
                                                    == #[trigger] tail[i]);
                                        },
                                        _ => {},
                                    }
                                }
                            }
                        },
                    }
                }
            },
        }
    }
}

/// Relies on String::from_utf8: it succeeds exactly on valid UTF-8 and
/// yields the text those bytes encode.
#[verifier::external_body]
fn bytes_to_string(b: Vec<u8>) -> (r: Option<String>)
    ensures
        r is Some <==> valid_utf8(b@),
        r is Some ==> r.unwrap()@ == decode_utf8(b@),
{
    String::from_utf8(b).ok()
}

/// Read a tree body back into its entries in wire order.
fn parse_tree_entries(v: &Vec<u8>) -> (r: Result<Vec<TreeEntry>, GitError>)
    ensures
        match parse_entries(v@) {
            TreeParse::Entries(es) => r is Ok && r.unwrap().deep_view() == es,
            TreeParse::Corrupt => r == Err::<Vec<TreeEntry>, GitError>(GitError::CorruptObject),
            TreeParse::BadName => r == Err::<Vec<TreeEntry>, GitError>(GitError::NonUtf8Name),
        },
{
    let mut raw: Vec<TreeEntry> = Vec::new();
    let mut pos: usize = 0;
    let total = v.len();
    proof {
        assert(v@.skip(0) =~= v@);
        assert(tree_parse_prepend(raw.deep_view(), parse_entries(v@.skip(0))) == parse_entries(
            v@,
        )) by {
            match parse_entries(v@) {
                TreeParse::Entries(es) => {
                    assert(raw.deep_view() + es =~= es);
                },
                _ => {},
            }
        }
    }
    while pos < total
        invariant
            pos <= total,
            total == v@.len(),
            parse_entries(v@) == tree_parse_prepend(
                raw.deep_view(),
                parse_entries(v@.skip(pos as int)),
            ),
        decreases total - pos,
    {
        let ghost b = v@.skip(pos as int);
        proof {
            assert(b =~= v@.subrange(pos as int, v@.len() as int));
        }
        let sp = match find_byte_from(v.as_slice(), pos, 32) {
            Some(sp) => sp,
            None => {
                return Err(GitError::CorruptObject);
            },
        };
        proof {
            lemma_find_byte_spec(b, 32);
        }
        if sp + 1 >= total {
            return Err(GitError::CorruptObject);
        }
        let ghost after = b.skip((sp - pos) as int + 1);
        proof {
            assert(after =~= v@.subrange(sp as int + 1, v@.len() as int));
        }
        let np = match find_byte_from(v.as_slice(), sp + 1, 0) {
            Some(np) => np,
            None => {
                return Err(GitError::CorruptObject);
            },
        };
        proof {
            lemma_find_byte_spec(after, 0);
        }
        if total - np < 21 {
            return Err(GitError::CorruptObject);
        }
        let mode_vec = vstd::slice::slice_to_vec(&v.as_slice()[pos..sp]);
        let name_vec = vstd::slice::slice_to_vec(&v.as_slice()[sp + 1..np]);
        let id_slice = &v.as_slice()[np + 1..np + 21];
        proof {
            assert(mode_vec@ =~= b.take((sp - pos) as int));
            assert(name_vec@ =~= after.take((np - sp - 1) as int));
            assert(id_slice@ =~= after.subrange(
                (np - sp - 1) as int + 1,
                (np - sp - 1) as int + 21,
            ));
        }
        let mode = match bytes_to_string(mode_vec) {
            Some(s) => s,
            None => {
                return Err(GitError::NonUtf8Name);
            },
        };
        let name = match bytes_to_string(name_vec) {
            Some(s) => s,
            None => {
                return Err(GitError::NonUtf8Name);
            },
        };
        let id = ObjectId::from_raw_bytes(id_slice);
        let entry = TreeEntry { mode, name, id };
        let ghost rest = after.skip((np - sp - 1) as int + 21);
        let ghost old_raw = raw.deep_view();
        proof {
            assert(rest =~= v@.skip(np as int + 21));
            assert(parse_entries(b) == tree_parse_prepend(
                seq![entry@],
                parse_entries(rest),
            ));
        }
        raw.push(entry);
        pos = np + 21;
        proof {
            assert(raw.deep_view() =~= old_raw.push(entry@));
            assert(parse_entries(v@) == tree_parse_prepend(
                raw.deep_view(),
                parse_entries(v@.skip(pos as int)),
            )) by {
                match parse_entries(v@.skip(pos as int)) {
                    TreeParse::Entries(tail) => {
                        assert(old_raw + (seq![entry@] + tail) =~= raw.deep_view() + tail);
                    },
                    _ => {},
                }
            }
        }
    }
    proof {
        assert(v@.skip(total as int).len() == 0);
        match parse_entries(v@) {
            TreeParse::Entries(es) => {
                assert(es == raw.deep_view() + Seq::<TreeEntryView>::empty());
                assert(raw.deep_view() + Seq::<TreeEntryView>::empty() =~= raw.deep_view());
            },
            _ => {},
        }
    }
    Ok(raw)
}

/// Sort entries by name, dropping duplicate names, by inserting them
/// first to last.
fn sort_entries(entries: Vec<TreeEntry>) -> (r: Vec<TreeEntry>)
    ensures
        r.deep_view() == insert_all(entries.deep_view()),
        strict_sorted(r.deep_view()),
        entries_wf(entries.deep_view()) ==> entries_wf(r.deep_view()),
{
    let ghost orig = entries.deep_view();
    let mut rest = entries;
    let total = rest.len();
    let mut sorted: Vec<TreeEntry> = Vec::new();
    let mut j: usize = 0;
    proof {
        assert(rest.deep_view() =~= orig.skip(0));
        assert(orig.take(0).len() == 0);
        assert(sorted.deep_view() =~= insert_all(orig.take(0)));
    }
    while rest.len() > 0
        invariant
            orig.len() == total,
            j <= orig.len(),
            rest.deep_view() == orig.skip(j as int),
            sorted.deep_view() == insert_all(orig.take(j as int)),
            strict_sorted(sorted.deep_view()),
            forall|i: int|
                0 <= i < sorted.deep_view().len() ==> orig.contains(
                    #[trigger] sorted.deep_view()[i],
                ),
        decreases rest@.len(),
    {
        let ghost pre_sorted = sorted.deep_view();
        let ghost pre_rest = rest@;
        let ghost pre_dv = rest.deep_view();
        let e = rest.remove(0);
        proof {
            assert(pre_rest.len() > 0);
            assert(pre_dv.len() == pre_rest.len());
            assert(pre_dv.len() == orig.skip(j as int).len());
            assert(orig.skip(j as int).len() == orig.len() - j);
            assert(j < orig.len());
            assert(e == pre_rest[0]);
            assert(e@ == pre_dv[0]);
            assert(e@ == orig.skip(j as int)[0]);
            assert(orig.skip(j as int)[0] == orig.subrange(j as int, orig.len() as int)[0]);
            assert(e@ == orig[j as int]);
            assert(rest.deep_view().len() == pre_dv.len() - 1);
            assert forall|i: int| 0 <= i < rest.deep_view().len() implies rest.deep_view()[i]
                == orig.skip(j as int + 1)[i] by {
                assert(rest@[i] == pre_rest[i + 1]);
                assert(rest.deep_view()[i] == pre_dv[i + 1]);
                assert(pre_dv[i + 1] == orig.skip(j as int)[i + 1]);
                assert(orig.skip(j as int)[i + 1] == orig.subrange(j as int, orig.len() as int)[i
                    + 1]);
                assert(orig.skip(j as int)[i + 1] == orig[j as int + i + 1]);
                assert(orig.skip(j as int + 1)[i] == orig.subrange(
                    j as int + 1,
                    orig.len() as int,
                )[i]);
                assert(orig.skip(j as int + 1)[i] == orig[j as int + 1 + i]);
            }
            assert(rest.deep_view() =~= orig.skip(j as int + 1));
            lemma_insert_sorted_props(pre_sorted, e@);
        }
        insert_entry(&mut sorted, e);
        j += 1;
        proof {
            assert(orig.take(j as int).drop_last() =~= orig.take(j as int - 1));
            assert(orig.take(j as int).last() == orig[j as int - 1]);
            assert(sorted.deep_view() == insert_all(orig.take(j as int)));
            assert forall|i: int|
                0 <= i < sorted.deep_view().len() implies orig.contains(
                #[trigger] sorted.deep_view()[i],
            ) by {
                if sorted.deep_view()[i] == e@ {
                    assert(orig[j as int - 1] == e@);
                } else {
                    assert(pre_sorted.contains(sorted.deep_view()[i]));
                }
            }
        }
    }
    proof {
        assert(orig.take(orig.len() as int) =~= orig);
        if entries_wf(orig) {
            assert forall|i: int|
                0 <= i < sorted.deep_view().len() implies entry_wf(
                #[trigger] sorted.deep_view()[i],
            ) by {
                let k = choose|k: int| 0 <= k < orig.len() && orig[k] == sorted.deep_view()[i];
                assert(entry_wf(orig[k]));
            }
        }
    }
    sorted
}

impl Tree {
    /// Read a stored tree body back: parse the entries and keep them in
    /// name order under the id the object was fetched by.
    pub fn from_object(id: ObjectId, obj: &Vec<u8>) -> (r: Result<Self, GitError>)
        requires
            id.wf(),
        ensures
            match parse_entries(obj@) {
                TreeParse::Entries(es) => r is Ok && r.unwrap().id@ == id@
                    && r.unwrap().entries.deep_view() == insert_all(es) && r.unwrap().wf(),
                TreeParse::Corrupt => r == Err::<Tree, GitError>(GitError::CorruptObject),
                TreeParse::BadName => r == Err::<Tree, GitError>(GitError::NonUtf8Name),
            },
    {
        let raw = match parse_tree_entries(obj) {
            Ok(v) => v,
            Err(e) => {
                return Err(e);
            },
        };
        proof {
            lemma_parse_entries_wf(obj@);
        }
        let entries = sort_entries(raw);
        Ok(Tree { id, entries })
    }

    /// Build and serialize the tree of one directory from its entries,
    /// in whatever order the directory walk found them: sort, encode,
    /// hash, compress. The compressed bytes inflate back to the tree's
    /// frame, ready to be published under its id.
    pub fn write(entries: Vec<TreeEntry>) -> (r: (Self, Vec<u8>))
        requires
            entries_wf(entries.deep_view()),
        ensures
            r.0.wf(),
            r.0.entries.deep_view() == insert_all(entries.deep_view()),
            r.0.id@ == object_id_of(
                ObjectKind::Tree,
                encode_entries(insert_all(entries.deep_view())),
            ),
            inflate_of(r.1@) == Some(
                frame(ObjectKind::Tree, encode_entries(insert_all(entries.deep_view()))),
            ),
    {
        let sorted = sort_entries(entries);
        let content = Tree::handle_entries(&sorted);
        let (id, compressed) = write_object(ObjectKind::Tree, &content);
        (Tree { id, entries: sorted }, compressed)
    }
}

/// Inserting the entries of an already sorted list rebuilds that list.
pub proof fn lemma_insert_all_sorted_identity(es: Seq<TreeEntryView>)
    requires
        strict_sorted(es),
    ensures
        insert_all(es) == es,
    decreases es.len(),
{
    if es.len() > 0 {
        let head = es.drop_last();
        assert(strict_sorted(head)) by {
            assert(forall|p: int, q: int|
                #![trigger head[p], head[q]]
                0 <= p < q < head.len() ==> entry_lt(es[p], es[q]));
        }
        lemma_insert_all_sorted_identity(head);
        assert(forall|k: int| 0 <= k < head.len() ==> entry_lt(#[trigger] head[k], es.last()));
        lemma_insert_sorted_take(head, es.last(), head.len() as int);
        assert(head.take(head.len() as int) =~= head);
        assert(head.skip(head.len() as int).len() == 0);
        assert(insert_sorted(head.skip(head.len() as int), es.last()) == seq![es.last()]);
        assert(head + seq![es.last()] =~= es);
    }
}

/// Parsing peels one well-formed entry off the front of a body.
#[verifier::rlimit(100)]
proof fn lemma_parse_encode_step(e0: TreeEntryView, rest: Seq<u8>)
    requires
        entry_wf(e0),
    ensures
        parse_entries(encode_entry(e0) + rest) == tree_parse_prepend(
            seq![e0],
            parse_entries(rest),
        ),
{
    broadcast use vstd::utf8::group_utf8_lib;

    let m = encode_utf8(e0.mode);
    let n = encode_utf8(e0.name);
    let idb = bytes_of_hex(e0.id);
    lemma_hex_round_trip(e0.id);
    let b = encode_entry(e0) + rest;
    assert(b =~= m + seq![32u8] + n + seq![0u8] + idb + rest);
    let sp = m.len() as int;
    assert(b[sp] == 32);
    assert forall|j: int| 0 <= j < sp implies b[j] != 32 by {
        assert(b[j] == m[j]);
        if m[j] == 32 {
            assert(m.contains(32u8));
        }
    }
    lemma_find_byte_first(b, 32, sp);
    assert(b.len() >= m.len() + 22);
    let after = b.skip(sp + 1);
    assert(after =~= n + seq![0u8] + idb + rest);
    let np = n.len() as int;
    assert(after[np] == 0);
    assert forall|j: int| 0 <= j < np implies after[j] != 0 by {
        assert(after[j] == n[j]);
        if n[j] == 0 {
            assert(n.contains(0u8));
        }
    }
    lemma_find_byte_first(after, 0, np);
    assert(np + 21 <= after.len());
    assert(b.take(sp) =~= m);
    assert(after.take(np) =~= n);
    assert(after.subrange(np + 1, np + 21) =~= idb);
    assert(after.skip(np + 21) =~= rest);
    let ev = TreeEntryView {
        mode: decode_utf8(b.take(sp)),
        name: decode_utf8(after.take(np)),
        id: hex_of(after.subrange(np + 1, np + 21)),
    };
    assert(ev == e0);
}

/// Decoding an encoded entry list yields it back: the delimiters are
/// unambiguous because well-formed names hold no NUL and well-formed
/// modes no space.
pub proof fn lemma_parse_encode(es: Seq<TreeEntryView>)
    requires
        entries_wf(es),
    ensures
        parse_entries(encode_entries(es)) == TreeParse::Entries(es),
    decreases es.len(),
{
    if es.len() == 0 {
        assert(encode_entries(es).len() == 0);
        assert(es =~= Seq::<TreeEntryView>::empty());
    } else {
        assert(entries_wf(es.drop_first())) by {
            assert(forall|i: int|
                0 <= i < es.drop_first().len() ==> #[trigger] es.drop_first()[i] == es[i + 1]);
        }
        lemma_parse_encode(es.drop_first());
        lemma_parse_encode_step(es[0], encode_entries(es.drop_first()));
        assert(encode_entries(es) == encode_entry(es[0]) + encode_entries(es.drop_first()));
        assert(parse_entries(encode_entries(es)) == tree_parse_prepend(
            seq![es[0]],
            TreeParse::Entries(es.drop_first()),
        ));
        assert(seq![es[0]] + es.drop_first() =~= es);
    }
}

/// Round trip: an entry list with strictly ascending unique names comes
/// back unchanged from its own wire form.
pub proof fn lemma_tree_round_trip(es: Seq<TreeEntryView>)
    requires
        strict_sorted(es),
        entries_wf(es),
    ensures
        parse_entries(encode_entries(es)) == TreeParse::Entries(es),
        insert_all(es) == es,
{
    lemma_parse_encode(es);
    lemma_insert_all_sorted_identity(es);
}

/// The name-only listing: one name per line, in tree order.
pub open spec fn name_listing(es: Seq<TreeEntryView>) -> Seq<char>
    decreases es.len(),
{
    if es.len() == 0 {
        Seq::empty()
    } else {
        es[0].name + "\n"@ + name_listing(es.drop_first())
    }
}

/// The full listing: `mode kind id`, a tab, then the name, one entry
/// per line, in tree order.
pub open spec fn full_listing(es: Seq<TreeEntryView>, kinds: Seq<ObjectKind>) -> Seq<char>
    decreases es.len(),
{
    if es.len() == 0 {
        Seq::empty()
    } else {
        es[0].mode + " "@ + kind_word(kinds[0]) + " "@ + es[0].id + "\t"@ + es[0].name + "\n"@
            + full_listing(es.drop_first(), kinds.drop_first())
    }
}

proof fn lemma_name_listing_take(es: Seq<TreeEntryView>, i: int)
    requires
        0 <= i < es.len(),
    ensures
        name_listing(es.take(i + 1)) == name_listing(es.take(i)) + es[i].name + "\n"@,
    decreases i,
{
    if i == 0 {
        let t = es.take(1);
        assert(t.len() == 1 && t[0] == es[0]);
        assert(t.drop_first() =~= Seq::<TreeEntryView>::empty());
        assert(name_listing(t.drop_first()) == Seq::<char>::empty());
        assert(es.take(0).len() == 0);
        assert(name_listing(es.take(0)) == Seq::<char>::empty());
        assert(name_listing(es.take(1)) =~= name_listing(es.take(0)) + es[0].name + "\n"@);
    } else {
        lemma_name_listing_take(es.drop_first(), i - 1);
        assert(es.take(i + 1).drop_first() =~= es.drop_first().take(i));
        assert(es.take(i).drop_first() =~= es.drop_first().take(i - 1));
        assert(name_listing(es.take(i + 1)) =~= name_listing(es.take(i)) + es[i].name + "\n"@);
    }
}

proof fn lemma_full_listing_take(es: Seq<TreeEntryView>, kinds: Seq<ObjectKind>, i: int)
    requires
        0 <= i < es.len(),
        i < kinds.len(),
    ensures
        full_listing(es.take(i + 1), kinds.take(i + 1)) == full_listing(es.take(i), kinds.take(i))
            + es[i].mode + " "@ + kind_word(kinds[i]) + " "@ + es[i].id + "\t"@ + es[i].name
            + "\n"@,
    decreases i,
{
    if i == 0 {
        let t = es.take(1);
        assert(t.len() == 1 && t[0] == es[0]);
        assert(t.drop_first() =~= Seq::<TreeEntryView>::empty());
        assert(kinds.take(1)[0] == kinds[0]);
        assert(kinds.take(1).drop_first() =~= Seq::<ObjectKind>::empty());
        assert(full_listing(t.drop_first(), kinds.take(1).drop_first()) == Seq::<char>::empty());
        assert(es.take(0).len() == 0);
        assert(full_listing(es.take(0), kinds.take(0)) == Seq::<char>::empty());
        assert(full_listing(es.take(1), kinds.take(1)) =~= full_listing(es.take(0), kinds.take(0))
            + es[0].mode + " "@ + kind_word(kinds[0]) + " "@ + es[0].id + "\t"@ + es[0].name
            + "\n"@);
    } else {
        lemma_full_listing_take(es.drop_first(), kinds.drop_first(), i - 1);
        assert(es.take(i + 1).drop_first() =~= es.drop_first().take(i));
        assert(es.take(i).drop_first() =~= es.drop_first().take(i - 1));
        assert(kinds.take(i + 1).drop_first() =~= kinds.drop_first().take(i));
        assert(kinds.take(i).drop_first() =~= kinds.drop_first().take(i - 1));
        assert(kinds.take(i + 1)[0] == kinds[0] && kinds.take(i)[0] == kinds[0]);
        assert(es.take(i + 1)[0] == es[0] && es.take(i)[0] == es[0]);
        assert(full_listing(es.take(i + 1), kinds.take(i + 1)) =~= full_listing(
            es.take(i),
            kinds.take(i),
        ) + es[i].mode + " "@ + kind_word(kinds[i]) + " "@ + es[i].id + "\t"@ + es[i].name
            + "\n"@);
    }
}

impl Tree {
    /// Render the tree for the user: names alone, or mode, kind, id and
    /// name per entry. The kind of each child, read from the store by
    /// the caller, is handed in alongside.
    pub fn to_string(&self, name_only: bool, kinds: &Vec<ObjectKind>) -> (r: String)
        requires
            !name_only ==> kinds@.len() == self.entries@.len(),
        ensures
            name_only ==> r@ == name_listing(self.entries.deep_view()),
            !name_only ==> r@ == full_listing(self.entries.deep_view(), kinds@),
    {
        let ghost dv = self.entries.deep_view();
        let mut out = String::new();
        let mut i: usize = 0;
        if name_only {
            proof {
                assert(dv.take(0).len() == 0);
                assert(out@ =~= name_listing(dv.take(0)));
            }
            while i < self.entries.len()
                invariant
                    i <= self.entries@.len(),
                    dv == self.entries.deep_view(),
                    out@ == name_listing(dv.take(i as int)),
                decreases self.entries@.len() - i,
            {
                out.append(self.entries[i].name.as_str());
                out.append("\n");
                proof {
                    lemma_name_listing_take(dv, i as int);
                    assert(out@ =~= name_listing(dv.take(i as int + 1)));
                }
                i += 1;
            }
            proof {
                assert(dv.take(dv.len() as int) =~= dv);
            }
        } else {
            proof {
                assert(dv.take(0).len() == 0);
                assert(out@ =~= full_listing(dv.take(0), kinds@.take(0)));
            }
            while i < self.entries.len()
                invariant
                    i <= self.entries@.len(),
                    kinds@.len() == self.entries@.len(),
                    dv == self.entries.deep_view(),
                    out@ == full_listing(dv.take(i as int), kinds@.take(i as int)),
                decreases self.entries@.len() - i,
            {
                let e = &self.entries[i];
                out.append(e.mode.as_str());
                out.append(" ");
                out.append(crate::object::kind_str(kinds[i]));
                out.append(" ");
                out.append(e.id.as_str());
                out.append("\t");
                out.append(e.name.as_str());
                out.append("\n");
                proof {
                    lemma_full_listing_take(dv, kinds@, i as int);
                    assert(out@ =~= full_listing(dv.take(i as int + 1), kinds@.take(i as int + 1)));
                }
                i += 1;
            }
            proof {
                assert(dv.take(dv.len() as int) =~= dv);
                assert(kinds@.take(kinds@.len() as int) =~= kinds@);
            }
        }
        out
    }
}

/// Insertion past a prefix of smaller names skips that prefix.
proof fn lemma_insert_sorted_take(es: Seq<TreeEntryView>, e: TreeEntryView, i: int)
    requires
        strict_sorted(es),
        0 <= i <= es.len(),
        forall|k: int| 0 <= k < i ==> entry_lt(#[trigger] es[k], e),
    ensures
        insert_sorted(es, e) == es.take(i) + insert_sorted(es.skip(i), e),
    decreases i,
{
    if i == 0 {
        assert(es.skip(0) =~= es);
        assert(insert_sorted(es, e) =~= es.take(0) + insert_sorted(es, e));
    } else {
        assert(entry_lt(es[0], e));
        lemma_lex_lt_asymmetric(name_bytes(es[0]), name_bytes(e));
        assert(name_bytes(e) != name_bytes(es[0])) by {
            if name_bytes(e) == name_bytes(es[0]) {
                assert(lex_lt(name_bytes(es[0]), name_bytes(e)));
            }
        }
        assert(strict_sorted(es.drop_first())) by {
            assert(forall|p: int, q: int|
                #![trigger es.drop_first()[p], es.drop_first()[q]]
                0 <= p < q < es.drop_first().len() ==> entry_lt(es[p + 1], es[q + 1]));
        }
        assert(forall|k: int|
            0 <= k < i - 1 ==> entry_lt(#[trigger] es.drop_first()[k], e));
        lemma_insert_sorted_take(es.drop_first(), e, i - 1);
        assert(es.drop_first().skip(i - 1) =~= es.skip(i));
        assert(insert_sorted(es, e) == seq![es[0]] + insert_sorted(es.drop_first(), e));
        assert(seq![es[0]] + (es.drop_first().take(i - 1) + insert_sorted(es.skip(i), e))
            =~= es.take(i) + insert_sorted(es.skip(i), e));
    }
}

} // verus!
