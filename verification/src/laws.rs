//! What holds of the store whatever it holds: the laws that the operations
//! keep, proved over the maps of the store.

use crate::bytes::{
    lemma_lex_asymmetric, lemma_lex_between, lemma_lex_irreflexive, lex_le, lex_lt,
};
use crate::codec::{canonical, text_indexable, ValueView, SEPARATOR, TAG_NUMBER, TAG_TEXT};
use crate::document::{
    distinct_names, doc_bytes, lemma_doc_round_trip, lemma_lookup_at, lemma_parsed_storable,
    storable, DocView,
};
use crate::engine::{ascending, between, every_key, lists, with_prefix};
use crate::index::{
    doc_indexable, entry_key, entry_keys, entry_prefix, field_indexable, lemma_entry_key_has_prefix,
    lemma_entry_key_injective, lemma_first_separator, lemma_number_entries_ordered,
    lemma_number_in_range, lemma_prefix_tells_pair, lemma_text_in_range, range_bound,
};
use crate::model::{empty_store, owned_entries, OpView, StoreModel};
use crate::number::number_bytes;
use crate::query::{
    filter_map, follow, held, held_matching, matches_text, number_of, owner, record, Entry,
};
use crate::store::insertions;
use vstd::prelude::*;
use vstd::utf8::{
    decode_utf8, decode_utf8_encode_utf8, encode_utf8, encode_utf8_decode_utf8,
    encode_utf8_valid_utf8, valid_utf8,
};

verus! {

/// A document that the store can hold and the index can take.
pub open spec fn acceptable(d: DocView) -> bool {
    storable(d) && distinct_names(d) && doc_indexable(d)
}

/// The index keys of two documents with different keys differ.
pub proof fn lemma_entries_tell_owner(k1: Seq<u8>, d1: DocView, k2: Seq<u8>, d2: DocView, x: Seq<u8>)
    requires
        doc_indexable(d1),
        doc_indexable(d2),
        entry_keys(k1, d1).contains(x),
        entry_keys(k2, d2).contains(x),
    ensures
        k1 == k2,
{
    let e1 = entry_keys(k1, d1);
    let e2 = entry_keys(k2, d2);
    let i = choose|i: int| 0 <= i < e1.len() && e1[i] == x;
    let j = choose|j: int| 0 <= j < e2.len() && e2[j] == x;
    assert(field_indexable(d1[i]));
    assert(field_indexable(d2[j]));
    lemma_entry_key_injective(d1[i], k1, d2[j], k2);
}

/// The index keys that a content gave a document tell the document.
proof fn lemma_owned_tell_owner(
    k1: Seq<u8>,
    was: Option<DocView>,
    k2: Seq<u8>,
    d2: DocView,
    x: Seq<u8>,
)
    requires
        doc_indexable(d2),
        owned_entries(k1, was).contains(x),
        entry_keys(k2, d2).contains(x),
    ensures
        k1 == k2,
{
    if was is Some && doc_indexable(was->0) {
        lemma_entries_tell_owner(k1, was->0, k2, d2, x);
    } else {
        assert(owned_entries(k1, was) =~= Seq::<Seq<u8>>::empty());
    }
}

/// The index after an insertion: the index keys of the new content, under
/// the key of the document, and what the index had but for the index keys
/// of the old content.
pub proof fn lemma_index_after_insert(s: StoreModel, key: Seq<u8>, d: DocView, k: Seq<u8>)
    ensures
        s.inserted(key, d).index.contains_key(k) == (entry_keys(key, d).contains(k) || (
        s.index.contains_key(k) && !owned_entries(key, s.document(key)).contains(k))),
        entry_keys(key, d).contains(k) ==> s.inserted(key, d).index[k] == key,
        s.inserted(key, d).index.contains_key(k) && !entry_keys(key, d).contains(k) ==> s.inserted(
            key,
            d,
        ).index[k] == s.index[k],
{
}

/// The index after a deletion: what the index had but for the index keys of
/// the content of the document.
pub proof fn lemma_index_after_delete(s: StoreModel, key: Seq<u8>, k: Seq<u8>)
    ensures
        s.deleted(key).index.contains_key(k) == (s.index.contains_key(k) && !owned_entries(
            key,
            s.document(key),
        ).contains(k)),
        s.deleted(key).index.contains_key(k) ==> s.deleted(key).index[k] == s.index[k],
{
    assert(!Seq::<Seq<u8>>::empty().contains(k));
}

/// Round trip: after `d` is inserted under `key`, the document under `key`
/// is `d`.
pub proof fn lemma_get_after_insert(s: StoreModel, key: Seq<u8>, d: DocView)
    requires
        storable(d),
        distinct_names(d),
    ensures
        s.inserted(key, d).document(key) == Some(d),
{
    lemma_doc_round_trip(d);
}

/// An insertion leaves the documents under other keys as they were.
pub proof fn lemma_insert_elsewhere(s: StoreModel, key: Seq<u8>, d: DocView, other: Seq<u8>)
    requires
        other != key,
    ensures
        s.inserted(key, d).document(other) == s.document(other),
{
}

/// Deleting where there is no document changes nothing.
pub proof fn lemma_delete_absent(s: StoreModel, key: Seq<u8>)
    requires
        !s.data.contains_key(key),
    ensures
        s.deleted(key) == s,
{
    let t = s.deleted(key);
    assert(t.data =~= s.data);
    assert forall|k: Seq<u8>| #[trigger] t.index.dom().contains(k) == s.index.dom().contains(k) by {
        lemma_index_after_delete(s, key, k);
        assert(!Seq::<Seq<u8>>::empty().contains(k));
    }
    assert(t.index =~= s.index);
}

/// The store that holds nothing is consistent.
pub proof fn lemma_empty_consistent()
    ensures
        empty_store().consistent(),
{
}

/// An insertion keeps the index and the primary store in step.
pub proof fn lemma_insert_consistent(s: StoreModel, key: Seq<u8>, d: DocView)
    requires
        s.consistent(),
        acceptable(d),
    ensures
        s.inserted(key, d).consistent(),
{
    let t = s.inserted(key, d);
    let was = s.document(key);
    let old_keys = owned_entries(key, was);
    let new_keys = entry_keys(key, d);
    lemma_get_after_insert(s, key, d);
    assert forall|k: Seq<u8>| #[trigger] t.index.contains_key(k) implies {
        &&& t.document(t.index[k]) is Some
        &&& doc_indexable(t.document(t.index[k])->0)
        &&& entry_keys(t.index[k], t.document(t.index[k])->0).contains(k)
    } by {
        lemma_index_after_insert(s, key, d, k);
        if !new_keys.contains(k) {
            let o = s.index[k];
            assert(s.index.contains_key(k));
            if o == key {
                assert(was is Some && doc_indexable(was->0));
                assert(old_keys == entry_keys(key, was->0));
            }
            lemma_insert_elsewhere(s, key, d, o);
        }
    }
    assert forall|owner_key: Seq<u8>| #[trigger] t.document(owner_key) is Some implies {
        &&& doc_indexable(t.document(owner_key)->0)
        &&& forall|k: Seq<u8>|
            entry_keys(owner_key, t.document(owner_key)->0).contains(k)
                ==> #[trigger] t.index.contains_key(k) && t.index[k] == owner_key
    } by {
        if owner_key == key {
            assert forall|k: Seq<u8>| entry_keys(key, d).contains(k) implies #[trigger]
                t.index.contains_key(k) && t.index[k] == key by {
                lemma_index_after_insert(s, key, d, k);
            }
        } else {
            lemma_insert_elsewhere(s, key, d, owner_key);
            let other = s.document(owner_key)->0;
            assert(s.document(owner_key) is Some);
            assert(doc_indexable(other));
            assert forall|k: Seq<u8>| entry_keys(owner_key, other).contains(k) implies #[trigger]
                t.index.contains_key(k) && t.index[k] == owner_key by {
                lemma_index_after_insert(s, key, d, k);
                assert(s.index.contains_key(k) && s.index[k] == owner_key);
                if new_keys.contains(k) {
                    lemma_entries_tell_owner(key, d, owner_key, other, k);
                }
                if old_keys.contains(k) {
                    lemma_owned_tell_owner(key, was, owner_key, other, k);
                }
            }
        }
    }
}

/// A deletion keeps the index and the primary store in step.
pub proof fn lemma_delete_consistent(s: StoreModel, key: Seq<u8>)
    requires
        s.consistent(),
    ensures
        s.deleted(key).consistent(),
{
    let t = s.deleted(key);
    let was = s.document(key);
    let old_keys = owned_entries(key, was);
    assert forall|k: Seq<u8>| #[trigger] t.index.contains_key(k) implies {
        &&& t.document(t.index[k]) is Some
        &&& doc_indexable(t.document(t.index[k])->0)
        &&& entry_keys(t.index[k], t.document(t.index[k])->0).contains(k)
    } by {
        lemma_index_after_delete(s, key, k);
        let o = s.index[k];
        assert(s.index.contains_key(k));
        if o == key {
            assert(was is Some && doc_indexable(was->0));
            assert(old_keys == entry_keys(key, was->0));
        }
        assert(t.document(o) == s.document(o));
    }
    assert forall|owner_key: Seq<u8>| #[trigger] t.document(owner_key) is Some implies {
        &&& doc_indexable(t.document(owner_key)->0)
        &&& forall|k: Seq<u8>|
            entry_keys(owner_key, t.document(owner_key)->0).contains(k)
                ==> #[trigger] t.index.contains_key(k) && t.index[k] == owner_key
    } by {
        assert(owner_key != key);
        assert(t.document(owner_key) == s.document(owner_key));
        let other = s.document(owner_key)->0;
        assert(s.document(owner_key) is Some);
        assert forall|k: Seq<u8>| entry_keys(owner_key, other).contains(k) implies #[trigger]
            t.index.contains_key(k) && t.index[k] == owner_key by {
            lemma_index_after_delete(s, key, k);
            assert(s.index.contains_key(k) && s.index[k] == owner_key);
            if old_keys.contains(k) {
                lemma_owned_tell_owner(key, was, owner_key, other, k);
            }
        }
    }
}

/// Delete completeness: after the document under `key` is deleted from a
/// consistent store, the key has no document and no index entry names it.
pub proof fn lemma_delete_complete(s: StoreModel, key: Seq<u8>)
    requires
        s.consistent(),
    ensures
        s.deleted(key).document(key) is None,
        forall|k: Seq<u8>| #[trigger]
            s.deleted(key).index.contains_key(k) ==> s.deleted(key).index[k] != key,
{
    let t = s.deleted(key);
    lemma_delete_consistent(s, key);
    assert forall|k: Seq<u8>| #[trigger] t.index.contains_key(k) implies t.index[k] != key by {
        assert(t.document(t.index[k]) is Some);
    }
}

/// What `filter_map` holds: what `f` makes of some item of the list.
pub proof fn lemma_filter_map_contains<A, B>(s: Seq<A>, f: spec_fn(A) -> Option<B>, x: B)
    ensures
        filter_map(s, f).contains(x) == exists|j: int|
            0 <= j < s.len() && f(#[trigger] s[j]) == Some(x),
    decreases s.len(),
{
    if s.len() > 0 {
        let rest = s.drop_last();
        let r = filter_map(rest, f);
        let all = filter_map(s, f);
        lemma_filter_map_contains(rest, f, x);
        if all.contains(x) {
            let i = choose|i: int| 0 <= i < all.len() && all[i] == x;
            if i < r.len() {
                assert(r[i] == x);
                let j = choose|j: int| 0 <= j < rest.len() && f(#[trigger] rest[j]) == Some(x);
                assert(f(s[j]) == Some(x));
            } else {
                assert(f(s[s.len() - 1]) == Some(x));
            }
        }
        if exists|j: int| 0 <= j < s.len() && f(#[trigger] s[j]) == Some(x) {
            let j = choose|j: int| 0 <= j < s.len() && f(#[trigger] s[j]) == Some(x);
            if j < rest.len() {
                assert(f(rest[j]) == Some(x));
                let i = choose|i: int| 0 <= i < r.len() && r[i] == x;
                assert(all[i] == x);
            } else {
                assert(all[all.len() - 1] == x);
            }
        }
    }
}

/// Delete completeness, as the scans see it: after the document under
/// `key` is deleted from a consistent store, no scan for the equality of a
/// pair gives `key`.
pub proof fn lemma_delete_leaves_no_match(
    s: StoreModel,
    key: Seq<u8>,
    prefix: Seq<u8>,
    found: Seq<Entry>,
)
    requires
        s.consistent(),
        lists(found, s.deleted(key).index, with_prefix(prefix)),
    ensures
        !filter_map(found, owner()).contains(key),
{
    lemma_delete_complete(s, key);
    lemma_filter_map_contains(found, owner(), key);
    if filter_map(found, owner()).contains(key) {
        let j = choose|j: int| 0 <= j < found.len() && owner()(#[trigger] found[j]) == Some(key);
        assert(s.deleted(key).index.contains_key(found[j].0));
    }
}

/// Two insertions under different keys, one after the other, leave both
/// documents as they were given, each with all its index keys in the index
/// under its own key, and the store consistent.
pub proof fn lemma_distinct_inserts(
    s: StoreModel,
    k1: Seq<u8>,
    d1: DocView,
    k2: Seq<u8>,
    d2: DocView,
)
    requires
        s.consistent(),
        acceptable(d1),
        acceptable(d2),
        k1 != k2,
    ensures
        s.inserted(k1, d1).inserted(k2, d2).consistent(),
        s.inserted(k1, d1).inserted(k2, d2).document(k1) == Some(d1),
        s.inserted(k1, d1).inserted(k2, d2).document(k2) == Some(d2),
        forall|k: Seq<u8>|
            entry_keys(k1, d1).contains(k) ==> #[trigger] s.inserted(k1, d1).inserted(
                k2,
                d2,
            ).index.contains_key(k) && s.inserted(k1, d1).inserted(k2, d2).index[k] == k1,
        forall|k: Seq<u8>|
            entry_keys(k2, d2).contains(k) ==> #[trigger] s.inserted(k1, d1).inserted(
                k2,
                d2,
            ).index.contains_key(k) && s.inserted(k1, d1).inserted(k2, d2).index[k] == k2,
{
    let a = s.inserted(k1, d1);
    let t = a.inserted(k2, d2);
    lemma_insert_consistent(s, k1, d1);
    lemma_insert_consistent(a, k2, d2);
    lemma_get_after_insert(s, k1, d1);
    lemma_get_after_insert(a, k2, d2);
    lemma_insert_elsewhere(a, k2, d2, k1);
    assert(t.document(k1) is Some);
    assert(t.document(k2) is Some);
}

/// A mutation that the store can hold and the index can take.
pub open spec fn op_acceptable(op: OpView) -> bool {
    match op {
        OpView::Insert { key, doc } => acceptable(doc),
        OpView::Delete { key } => true,
    }
}

/// Mutations applied one after the other keep the index and the primary
/// store in step.
pub proof fn lemma_after_all_consistent(s: StoreModel, ops: Seq<OpView>)
    requires
        s.consistent(),
        forall|i: int| 0 <= i < ops.len() ==> op_acceptable(#[trigger] ops[i]),
    ensures
        s.after_all(ops).consistent(),
    decreases ops.len(),
{
    if ops.len() > 0 {
        let rest = ops.drop_last();
        assert forall|i: int| 0 <= i < rest.len() implies op_acceptable(#[trigger] rest[i]) by {
            assert(rest[i] == ops[i]);
        }
        lemma_after_all_consistent(s, rest);
        let last = ops.last();
        assert(last == ops[ops.len() - 1]);
        assert(op_acceptable(last));
        match last {
            OpView::Insert { key, doc } => {
                lemma_insert_consistent(s.after_all(rest), key, doc);
            },
            OpView::Delete { key } => {
                lemma_delete_consistent(s.after_all(rest), key);
            },
        }
    }
}

/// The documents after records are inserted one after the other, where the
/// records are those that `src` holds under their keys: under the key of a
/// record, what `src` holds; under another key, what there was.
pub proof fn lemma_documents_after_insertions(
    start: StoreModel,
    recs: Seq<(Seq<char>, DocView)>,
    src: StoreModel,
    key: Seq<u8>,
)
    requires
        forall|j: int|
            0 <= j < recs.len() ==> src.document(encode_utf8((#[trigger] recs[j]).0)) == Some(
                recs[j].1,
            ),
    ensures
        start.after_all(insertions(recs)).document(key) == if exists|j: int|
            0 <= j < recs.len() && encode_utf8((#[trigger] recs[j]).0) == key {
            src.document(key)
        } else {
            start.document(key)
        },
    decreases recs.len(),
{
    let ops = insertions(recs);
    if recs.len() > 0 {
        let rest = recs.drop_last();
        let last = recs.last();
        assert(last == recs[recs.len() - 1]);
        assert(ops.drop_last() =~= insertions(rest));
        assert(ops.last() == OpView::Insert { key: encode_utf8(last.0), doc: last.1 });
        assert forall|j: int| 0 <= j < rest.len() implies src.document(
            encode_utf8((#[trigger] rest[j]).0),
        ) == Some(rest[j].1) by {
            assert(rest[j] == recs[j]);
        }
        lemma_documents_after_insertions(start, rest, src, key);
        let before = start.after_all(insertions(rest));
        let last_key = encode_utf8(last.0);
        assert(src.document(last_key) == Some(last.1));
        lemma_parsed_storable(src.data[last_key]);
        lemma_get_after_insert(before, last_key, last.1);
        if key != last_key {
            lemma_insert_elsewhere(before, last_key, last.1, key);
        }
        if exists|j: int| 0 <= j < rest.len() && encode_utf8((#[trigger] rest[j]).0) == key {
            let j = choose|j: int| 0 <= j < rest.len() && encode_utf8((#[trigger] rest[j]).0) == key;
            assert(recs[j] == rest[j]);
        }
        if exists|j: int| 0 <= j < recs.len() && encode_utf8((#[trigger] recs[j]).0) == key {
            let j = choose|j: int| 0 <= j < recs.len() && encode_utf8((#[trigger] recs[j]).0) == key;
            if j < rest.len() {
                assert(rest[j] == recs[j]);
            }
        }
    }
}

/// Export and import: the records of a store, inserted into a store that
/// holds nothing, give under every key the document that the first store
/// has under it. A key that is not UTF-8 is not exported.
pub proof fn lemma_import_restores(s: StoreModel, found: Seq<Entry>, key: Seq<u8>)
    requires
        lists(found, s.data, every_key()),
    ensures
        empty_store().after_all(insertions(filter_map(found, record()))).document(key)
            == if valid_utf8(key) {
            s.document(key)
        } else {
            None
        },
{
    let recs = filter_map(found, record());
    assert forall|j: int| 0 <= j < recs.len() implies s.document(
        encode_utf8((#[trigger] recs[j]).0),
    ) == Some(recs[j].1) by {
        lemma_filter_map_contains(found, record(), recs[j]);
        assert(recs.contains(recs[j]));
        let i = choose|i: int| 0 <= i < found.len() && record()(#[trigger] found[i]) == Some(recs[j]);
        decode_utf8_encode_utf8(found[i].0);
        assert(s.data.contains_key(found[i].0));
    }
    lemma_documents_after_insertions(empty_store(), recs, s, key);
    if exists|j: int| 0 <= j < recs.len() && encode_utf8((#[trigger] recs[j]).0) == key {
        let j = choose|j: int| 0 <= j < recs.len() && encode_utf8((#[trigger] recs[j]).0) == key;
        encode_utf8_valid_utf8(recs[j].0);
    } else {
        if valid_utf8(key) && s.document(key) is Some {
            assert(every_key()(key));
            let i = choose|i: int| 0 <= i < found.len() && (#[trigger] found[i]).0 == key;
            let x = (decode_utf8(key), s.document(key)->0);
            assert(record()(found[i]) == Some(x));
            lemma_filter_map_contains(found, record(), x);
            let j = choose|j: int| 0 <= j < recs.len() && recs[j] == x;
            decode_utf8_encode_utf8(key);
            assert(encode_utf8(recs[j].0) == key);
        }
    }
}

/// A consistent store has no orphans: reconciliation leaves it as it is.
pub proof fn lemma_reconcile_consistent(s: StoreModel)
    requires
        s.consistent(),
    ensures
        s.no_orphans(),
        s.reconciled() == s,
{
    assert forall|k: Seq<u8>| #[trigger] s.index.contains_key(k) implies s.data.contains_key(
        s.index[k],
    ) by {
        assert(s.document(s.index[k]) is Some);
    }
    assert(s.reconciled().index =~= s.index);
}

/// After reconciliation no index key names an owner that the primary store
/// lacks, and reconciling once more changes nothing.
pub proof fn lemma_reconciled_has_no_orphans(s: StoreModel)
    ensures
        s.reconciled().no_orphans(),
        s.reconciled().reconciled() == s.reconciled(),
{
    assert(s.reconciled().reconciled().index =~= s.reconciled().index);
}

/// In a consistent store, every index key of a document is in the index,
/// under the key of the document.
pub proof fn lemma_entry_in_index(s: StoreModel, key: Seq<u8>, k: Seq<u8>)
    requires
        s.consistent(),
        s.document(key) is Some,
        entry_keys(key, s.document(key)->0).contains(k),
    ensures
        doc_indexable(s.document(key)->0),
        s.index.contains_key(k),
        s.index[k] == key,
{
}

/// Multiplicity: in a consistent store, a scan for the equality of a pair
/// gives the keys of exactly the documents that hold the pair, however many
/// they are.
pub proof fn lemma_equality_scan_exact(
    s: StoreModel,
    f: (Seq<char>, ValueView),
    found: Seq<Entry>,
    key: Seq<u8>,
)
    requires
        s.consistent(),
        field_indexable(f),
        lists(found, s.index, with_prefix(entry_prefix(f.0, f.1))),
    ensures
        filter_map(found, owner()).contains(key) == (s.document(key) is Some && s.document(
            key,
        )->0.contains(f)),
{
    let prefix = entry_prefix(f.0, f.1);
    lemma_filter_map_contains(found, owner(), key);
    if filter_map(found, owner()).contains(key) {
        let j = choose|j: int| 0 <= j < found.len() && owner()(#[trigger] found[j]) == Some(key);
        let k = found[j].0;
        assert(s.index.contains_key(k) && s.index[k] == key);
        let d = s.document(key)->0;
        let keys = entry_keys(key, d);
        let i = choose|i: int| 0 <= i < keys.len() && keys[i] == k;
        assert(field_indexable(d[i]));
        lemma_prefix_tells_pair(d[i], key, f);
        assert(d.contains(f));
    }
    if s.document(key) is Some && s.document(key)->0.contains(f) {
        let d = s.document(key)->0;
        let i = choose|i: int| 0 <= i < d.len() && d[i] == f;
        let k = entry_key(f.0, f.1, key);
        assert(entry_keys(key, d)[i] == k);
        assert(entry_keys(key, d).contains(k));
        lemma_entry_in_index(s, key, k);
        lemma_entry_key_has_prefix(f, key);
        assert(with_prefix(prefix)(k));
        let j = choose|j: int| 0 <= j < found.len() && (#[trigger] found[j]).0 == k;
        assert(owner()(found[j]) == Some(key));
    }
}

/// Whether the document `d` holds in `field` a number from `start`,
/// included, to `end`, not included.
pub open spec fn holds_number_within(d: DocView, field: Seq<char>, start: int, end: int) -> bool {
    exists|i: int|
        0 <= i < d.len() && (#[trigger] d[i]).0 == field && d[i].1 is Number && start
            <= d[i].1->Number_0 < end
}

/// An index key between two bounds of a field whose values have the tag
/// `tag` is the index key of a value of that field with that tag.
proof fn lemma_between_tagged(
    field: Seq<char>,
    tag: u8,
    a: Seq<u8>,
    b: Seq<u8>,
    f: (Seq<char>, ValueView),
    key: Seq<u8>,
)
    requires
        text_indexable(field),
        field_indexable(f),
        lex_le(encode_utf8(field) + seq![SEPARATOR] + seq![tag] + a, entry_key(f.0, f.1, key)),
        lex_lt(entry_key(f.0, f.1, key), encode_utf8(field) + seq![SEPARATOR] + seq![tag] + b),
    ensures
        f.0 == field,
        canonical(f.1).len() > 0,
        canonical(f.1)[0] == tag,
{
    let q = encode_utf8(field) + seq![SEPARATOR] + seq![tag];
    let k = entry_key(f.0, f.1, key);
    lemma_lex_between(q, a, b, k);
    let rest = k.skip(q.len() as int);
    assert(k =~= q + rest);
    let t1 = seq![tag] + rest;
    let t2 = canonical(f.1) + seq![SEPARATOR] + key;
    assert(k =~= encode_utf8(field) + seq![SEPARATOR] + t1);
    assert(k =~= encode_utf8(f.0) + seq![SEPARATOR] + t2);
    lemma_first_separator(encode_utf8(field), encode_utf8(f.0), t1, t2);
    encode_utf8_decode_utf8(field);
    encode_utf8_decode_utf8(f.0);
    assert(t2[0] == canonical(f.1)[0]);
    assert(t1[0] == tag);
}

/// Range ordering: in a consistent store, a scan of a field from one number
/// to another gives the keys of exactly the documents that hold in the
/// field a number from the first, included, to the second, not included.
pub proof fn lemma_range_scan_exact(
    s: StoreModel,
    field: Seq<char>,
    start: int,
    end: int,
    found: Seq<Entry>,
    key: Seq<u8>,
)
    requires
        s.consistent(),
        text_indexable(field),
        i64::MIN <= start <= i64::MAX,
        i64::MIN <= end <= i64::MAX,
        lists(
            found,
            s.index,
            between(
                range_bound(field, ValueView::Number(start)),
                range_bound(field, ValueView::Number(end)),
            ),
        ),
    ensures
        filter_map(found, owner()).contains(key) == (s.document(key) is Some
            && holds_number_within(s.document(key)->0, field, start, end)),
{
    let lo = range_bound(field, ValueView::Number(start));
    let hi = range_bound(field, ValueView::Number(end));
    lemma_filter_map_contains(found, owner(), key);
    if filter_map(found, owner()).contains(key) {
        let j = choose|j: int| 0 <= j < found.len() && owner()(#[trigger] found[j]) == Some(key);
        let k = found[j].0;
        assert(s.index.contains_key(k) && s.index[k] == key);
        assert(between(lo, hi)(k));
        let d = s.document(key)->0;
        let keys = entry_keys(key, d);
        let i = choose|i: int| 0 <= i < keys.len() && keys[i] == k;
        assert(field_indexable(d[i]));
        assert(lo =~= encode_utf8(field) + seq![SEPARATOR] + seq![TAG_NUMBER] + number_bytes(start));
        assert(hi =~= encode_utf8(field) + seq![SEPARATOR] + seq![TAG_NUMBER] + number_bytes(end));
        lemma_between_tagged(field, TAG_NUMBER, number_bytes(start), number_bytes(end), d[i], key);
        lemma_number_in_range(field, d[i].1->Number_0, key, start, end);
        assert(holds_number_within(d, field, start, end));
    }
    if s.document(key) is Some && holds_number_within(s.document(key)->0, field, start, end) {
        let d = s.document(key)->0;
        let i = choose|i: int|
            0 <= i < d.len() && (#[trigger] d[i]).0 == field && d[i].1 is Number && start
                <= d[i].1->Number_0 < end;
        let n = d[i].1->Number_0;
        let k = entry_key(field, ValueView::Number(n), key);
        assert(d[i].1 == ValueView::Number(n));
        assert(entry_keys(key, d)[i] == k);
        assert(entry_keys(key, d).contains(k));
        lemma_entry_in_index(s, key, k);
        assert(field_indexable(d[i]));
        lemma_number_in_range(field, n, key, start, end);
        assert(between(lo, hi)(k));
        let j = choose|j: int| 0 <= j < found.len() && (#[trigger] found[j]).0 == k;
        assert(owner()(found[j]) == Some(key));
    }
}

/// Two insertions under different keys give the same store in either
/// order: whichever of two writers comes first, the outcome is one.
pub proof fn lemma_distinct_inserts_commute(
    s: StoreModel,
    k1: Seq<u8>,
    d1: DocView,
    k2: Seq<u8>,
    d2: DocView,
)
    requires
        doc_indexable(d1),
        doc_indexable(d2),
        k1 != k2,
    ensures
        s.inserted(k1, d1).inserted(k2, d2) == s.inserted(k2, d2).inserted(k1, d1),
{
    let a = s.inserted(k1, d1);
    let b = s.inserted(k2, d2);
    let t = a.inserted(k2, d2);
    let u = b.inserted(k1, d1);
    let new1 = entry_keys(k1, d1);
    let new2 = entry_keys(k2, d2);
    let old1 = owned_entries(k1, s.document(k1));
    let old2 = owned_entries(k2, s.document(k2));
    assert(t.data =~= u.data);
    lemma_insert_elsewhere(s, k1, d1, k2);
    lemma_insert_elsewhere(s, k2, d2, k1);
    assert forall|k: Seq<u8>| #[trigger]
        t.index.dom().contains(k) == u.index.dom().contains(k) && (t.index.dom().contains(k)
            ==> t.index[k] == u.index[k]) by {
        lemma_index_after_insert(s, k1, d1, k);
        lemma_index_after_insert(s, k2, d2, k);
        lemma_index_after_insert(a, k2, d2, k);
        lemma_index_after_insert(b, k1, d1, k);
        if new1.contains(k) && new2.contains(k) {
            lemma_entries_tell_owner(k1, d1, k2, d2, k);
        }
        if new1.contains(k) && old2.contains(k) {
            lemma_owned_tell_owner(k2, s.document(k2), k1, d1, k);
        }
        if new2.contains(k) && old1.contains(k) {
            lemma_owned_tell_owner(k1, s.document(k1), k2, d2, k);
        }
    }
    assert(t.index =~= u.index);
}

/// Whether the document `d` holds in `field` a text whose UTF-8 bytes lie
/// from those of `start`, included, to those of `end`, not included.
pub open spec fn holds_text_within(
    d: DocView,
    field: Seq<char>,
    start: Seq<char>,
    end: Seq<char>,
) -> bool {
    exists|i: int|
        0 <= i < d.len() && (#[trigger] d[i]).0 == field && d[i].1 is Text && lex_le(
            encode_utf8(start),
            encode_utf8(d[i].1->Text_0),
        ) && lex_lt(encode_utf8(d[i].1->Text_0), encode_utf8(end))
}

/// Range ordering for texts: in a consistent store, a scan of a field from
/// one text to another gives the keys of exactly the documents that hold
/// in the field a text from the first, included, to the second, not
/// included, in the order of their UTF-8 bytes.
pub proof fn lemma_text_range_scan_exact(
    s: StoreModel,
    field: Seq<char>,
    start: Seq<char>,
    end: Seq<char>,
    found: Seq<Entry>,
    key: Seq<u8>,
)
    requires
        s.consistent(),
        text_indexable(field),
        text_indexable(start),
        text_indexable(end),
        lists(
            found,
            s.index,
            between(
                range_bound(field, ValueView::Text(start)),
                range_bound(field, ValueView::Text(end)),
            ),
        ),
    ensures
        filter_map(found, owner()).contains(key) == (s.document(key) is Some && holds_text_within(
            s.document(key)->0,
            field,
            start,
            end,
        )),
{
    let lo = range_bound(field, ValueView::Text(start));
    let hi = range_bound(field, ValueView::Text(end));
    lemma_filter_map_contains(found, owner(), key);
    if filter_map(found, owner()).contains(key) {
        let j = choose|j: int| 0 <= j < found.len() && owner()(#[trigger] found[j]) == Some(key);
        let k = found[j].0;
        assert(s.index.contains_key(k) && s.index[k] == key);
        assert(between(lo, hi)(k));
        let d = s.document(key)->0;
        let keys = entry_keys(key, d);
        let i = choose|i: int| 0 <= i < keys.len() && keys[i] == k;
        assert(field_indexable(d[i]));
        assert(lo =~= encode_utf8(field) + seq![SEPARATOR] + seq![TAG_TEXT] + encode_utf8(start));
        assert(hi =~= encode_utf8(field) + seq![SEPARATOR] + seq![TAG_TEXT] + encode_utf8(end));
        lemma_between_tagged(field, TAG_TEXT, encode_utf8(start), encode_utf8(end), d[i], key);
        assert(d[i].1 is Text);
        lemma_text_in_range(field, d[i].1->Text_0, key, start, end);
        assert(holds_text_within(d, field, start, end));
    }
    if s.document(key) is Some && holds_text_within(s.document(key)->0, field, start, end) {
        let d = s.document(key)->0;
        let i = choose|i: int|
            0 <= i < d.len() && (#[trigger] d[i]).0 == field && d[i].1 is Text && lex_le(
                encode_utf8(start),
                encode_utf8(d[i].1->Text_0),
            ) && lex_lt(encode_utf8(d[i].1->Text_0), encode_utf8(end));
        let t = d[i].1->Text_0;
        let k = entry_key(field, ValueView::Text(t), key);
        assert(d[i].1 == ValueView::Text(t));
        assert(entry_keys(key, d)[i] == k);
        assert(entry_keys(key, d).contains(k));
        lemma_entry_in_index(s, key, k);
        assert(field_indexable(d[i]));
        lemma_text_in_range(field, t, key, start, end);
        assert(between(lo, hi)(k));
        let j = choose|j: int| 0 <= j < found.len() && (#[trigger] found[j]).0 == k;
        assert(owner()(found[j]) == Some(key));
    }
}

/// Range ordering, the order of what comes out: in a list of index entries
/// in the order of their keys, an entry of a number of a field never comes
/// before an entry of a smaller number of that field. The order is
/// numeric, not that of the digits as text.
pub proof fn lemma_scan_orders_numbers(
    found: Seq<Entry>,
    field: Seq<char>,
    i: int,
    a: int,
    k1: Seq<u8>,
    j: int,
    b: int,
    k2: Seq<u8>,
)
    requires
        ascending(found),
        0 <= i < j < found.len(),
        i64::MIN <= a <= i64::MAX,
        i64::MIN <= b <= i64::MAX,
        found[i].0 == entry_key(field, ValueView::Number(a), k1),
        found[j].0 == entry_key(field, ValueView::Number(b), k2),
    ensures
        a <= b,
{
    assert(lex_lt(found[i].0, found[j].0));
    if b < a {
        lemma_number_entries_ordered(field, b, k2, a, k1);
        lemma_lex_asymmetric(found[i].0, found[j].0);
    }
}

/// Where `f` makes something of every item of a list, `filter_map` keeps
/// every place of the list.
pub proof fn lemma_filter_map_total<A, B>(s: Seq<A>, f: spec_fn(A) -> Option<B>)
    requires
        forall|i: int| 0 <= i < s.len() ==> f(#[trigger] s[i]) is Some,
    ensures
        filter_map(s, f).len() == s.len(),
        forall|i: int| 0 <= i < s.len() ==> Some(#[trigger] filter_map(s, f)[i]) == f(s[i]),
    decreases s.len(),
{
    if s.len() > 0 {
        let rest = s.drop_last();
        assert forall|i: int| 0 <= i < rest.len() implies f(#[trigger] rest[i]) is Some by {
            assert(rest[i] == s[i]);
        }
        lemma_filter_map_total(rest, f);
        assert(f(s[s.len() - 1]) is Some);
        assert forall|i: int| 0 <= i < s.len() implies Some(#[trigger] filter_map(s, f)[i]) == f(
            s[i],
        ) by {
            if i < rest.len() {
                assert(rest[i] == s[i]);
                assert(filter_map(s, f)[i] == filter_map(rest, f)[i]);
            }
        }
    }
}

/// Whether the document under `key` holds the pair `f`.
pub open spec fn holds_pair(s: StoreModel, key: Seq<u8>, f: (Seq<char>, ValueView)) -> bool {
    s.document(key) is Some && s.document(key)->0.contains(f)
}

/// Multiplicity, one entry for each owner: in a consistent store, the
/// index entries of a pair lead each to a document that holds the pair,
/// and no two of them name the same owner.
pub proof fn lemma_equality_scan_once(s: StoreModel, f: (Seq<char>, ValueView), found: Seq<Entry>)
    requires
        s.consistent(),
        field_indexable(f),
        lists(found, s.index, with_prefix(entry_prefix(f.0, f.1))),
    ensures
        filter_map(found, owner()).len() == found.len(),
        filter_map(found, follow(s.data)).len() == found.len(),
        forall|i: int|
            0 <= i < found.len() ==> (#[trigger] filter_map(found, owner())[i]) == found[i].1,
        forall|i: int|
            0 <= i < found.len() ==> Some(#[trigger] filter_map(found, follow(s.data))[i])
                == s.document(found[i].1),
        forall|i: int| 0 <= i < found.len() ==> holds_pair(s, (#[trigger] found[i]).1, f),
        forall|i: int, j: int|
            0 <= i < j < found.len() ==> (#[trigger] found[i]).1 != (#[trigger] found[j]).1,
{
    assert forall|i: int| 0 <= i < found.len() implies holds_pair(s, (#[trigger] found[i]).1, f)
        && found[i].0 == entry_key(f.0, f.1, found[i].1) by {
        let k = found[i].0;
        let o = found[i].1;
        assert(s.index.contains_key(k) && s.index[k] == o);
        assert(with_prefix(entry_prefix(f.0, f.1))(k));
        let d = s.document(o)->0;
        let keys = entry_keys(o, d);
        let p = choose|p: int| 0 <= p < keys.len() && keys[p] == k;
        assert(field_indexable(d[p]));
        lemma_prefix_tells_pair(d[p], o, f);
        assert(d.contains(f));
    }
    assert forall|i: int| 0 <= i < found.len() implies follow(s.data)(#[trigger] found[i])
        is Some by {
        assert(holds_pair(s, found[i].1, f));
    }
    lemma_filter_map_total(found, owner());
    lemma_filter_map_total(found, follow(s.data));
    assert forall|i: int, j: int| 0 <= i < j < found.len() implies (#[trigger] found[i]).1 != (
    #[trigger] found[j]).1 by {
        assert(holds_pair(s, found[i].1, f));
        assert(holds_pair(s, found[j].1, f));
        assert(lex_lt(found[i].0, found[j].0));
        if found[i].1 == found[j].1 {
            lemma_lex_irreflexive(found[i].0);
        }
    }
}

/// `owners` are the keys of exactly the documents that hold the pair `f`,
/// each of them once.
pub open spec fn exact_owners(
    s: StoreModel,
    f: (Seq<char>, ValueView),
    owners: Seq<Seq<u8>>,
) -> bool {
    &&& owners.no_duplicates()
    &&& forall|key: Seq<u8>| #[trigger] owners.contains(key) == holds_pair(s, key, f)
}

/// `docs` are the documents under `owners`, place by place.
pub open spec fn documents_of(s: StoreModel, owners: Seq<Seq<u8>>, docs: Seq<DocView>) -> bool {
    &&& docs.len() == owners.len()
    &&& forall|i: int| 0 <= i < owners.len() ==> Some(#[trigger] docs[i]) == s.document(owners[i])
}

/// Multiplicity: in a consistent store, what a scan for the equality of a
/// pair gives are the keys of exactly the documents that hold the pair, each
/// once, and what a query for it gives are the documents under those keys,
/// place by place.
pub proof fn lemma_equality_query(s: StoreModel, f: (Seq<char>, ValueView), found: Seq<Entry>)
    requires
        s.consistent(),
        field_indexable(f),
        lists(found, s.index, with_prefix(entry_prefix(f.0, f.1))),
    ensures
        exact_owners(s, f, filter_map(found, owner())),
        documents_of(s, filter_map(found, owner()), filter_map(found, follow(s.data))),
{
    let owners = filter_map(found, owner());
    lemma_equality_scan_once(s, f, found);
    assert forall|key: Seq<u8>| #[trigger] owners.contains(key) == holds_pair(s, key, f) by {
        lemma_equality_scan_exact(s, f, found, key);
    }
    assert forall|i: int, j: int| 0 <= i < owners.len() && 0 <= j < owners.len() && i
        != j implies owners[i] != owners[j] by {
        if i < j {
            assert(found[i].1 != found[j].1);
        } else {
            assert(found[j].1 != found[i].1);
        }
    }
}

/// `owners` are the keys of exactly the documents that hold in `field` a
/// number from `start`, included, to `end`, not included, each of them once.
pub open spec fn exact_owners_within(
    s: StoreModel,
    field: Seq<char>,
    start: int,
    end: int,
    owners: Seq<Seq<u8>>,
) -> bool {
    &&& owners.no_duplicates()
    &&& forall|key: Seq<u8>| #[trigger]
        owners.contains(key) == (s.document(key) is Some && holds_number_within(
            s.document(key)->0,
            field,
            start,
            end,
        ))
}

/// The number that the document under `key` holds in `field`.
pub open spec fn number_under(s: StoreModel, key: Seq<u8>, field: Seq<char>) -> Option<int> {
    match s.document(key) {
        Some(d) => number_of(d, field),
        None => None,
    }
}

/// The documents under `owners` hold numbers in `field`, and the numbers
/// never fall from one place to the next.
pub open spec fn rising_numbers(s: StoreModel, field: Seq<char>, owners: Seq<Seq<u8>>) -> bool {
    &&& forall|i: int|
        0 <= i < owners.len() ==> number_under(s, #[trigger] owners[i], field) is Some
    &&& forall|i: int, j: int|
        0 <= i < j < owners.len() ==> number_under(s, #[trigger] owners[i], field)->0
            <= number_under(s, #[trigger] owners[j], field)->0
}

/// What a listed entry of a numeric range is: the index key of a number of
/// the field, within the range, in the document that the entry names.
proof fn lemma_range_entry(
    s: StoreModel,
    field: Seq<char>,
    start: int,
    end: int,
    found: Seq<Entry>,
    i: int,
)
    requires
        s.consistent(),
        text_indexable(field),
        i64::MIN <= start <= i64::MAX,
        i64::MIN <= end <= i64::MAX,
        lists(
            found,
            s.index,
            between(
                range_bound(field, ValueView::Number(start)),
                range_bound(field, ValueView::Number(end)),
            ),
        ),
        0 <= i < found.len(),
    ensures
        s.document(found[i].1) is Some,
        number_under(s, found[i].1, field) is Some,
        start <= number_under(s, found[i].1, field)->0 < end,
        i64::MIN <= number_under(s, found[i].1, field)->0 <= i64::MAX,
        found[i].0 == entry_key(
            field,
            ValueView::Number(number_under(s, found[i].1, field)->0),
            found[i].1,
        ),
{
    let lo = range_bound(field, ValueView::Number(start));
    let hi = range_bound(field, ValueView::Number(end));
    let k = found[i].0;
    let o = found[i].1;
    assert(s.index.contains_key(k) && s.index[k] == o);
    assert(between(lo, hi)(k));
    let d = s.document(o)->0;
    let keys = entry_keys(o, d);
    let p = choose|p: int| 0 <= p < keys.len() && keys[p] == k;
    assert(field_indexable(d[p]));
    assert(lo =~= encode_utf8(field) + seq![SEPARATOR] + seq![TAG_NUMBER] + number_bytes(start));
    assert(hi =~= encode_utf8(field) + seq![SEPARATOR] + seq![TAG_NUMBER] + number_bytes(end));
    lemma_between_tagged(field, TAG_NUMBER, number_bytes(start), number_bytes(end), d[p], o);
    lemma_number_in_range(field, d[p].1->Number_0, o, start, end);
    lemma_lookup_at(d, p);
    assert(d[p].1 == ValueView::Number(d[p].1->Number_0));
}

/// Range ordering: in a consistent store, what a scan of a field from one
/// number to another gives are the keys of exactly the documents that hold
/// in the field a number from the first, included, to the second, not
/// included, each once and in the order of their numbers; what the query
/// gives are the documents under those keys, place by place.
pub proof fn lemma_range_query(
    s: StoreModel,
    field: Seq<char>,
    start: int,
    end: int,
    found: Seq<Entry>,
)
    requires
        s.consistent(),
        text_indexable(field),
        i64::MIN <= start <= i64::MAX,
        i64::MIN <= end <= i64::MAX,
        lists(
            found,
            s.index,
            between(
                range_bound(field, ValueView::Number(start)),
                range_bound(field, ValueView::Number(end)),
            ),
        ),
    ensures
        exact_owners_within(s, field, start, end, filter_map(found, owner())),
        rising_numbers(s, field, filter_map(found, owner())),
        documents_of(s, filter_map(found, owner()), filter_map(found, follow(s.data))),
{
    let owners = filter_map(found, owner());
    assert forall|i: int| 0 <= i < found.len() implies follow(s.data)(#[trigger] found[i])
        is Some by {
        lemma_range_entry(s, field, start, end, found, i);
    }
    lemma_filter_map_total(found, owner());
    lemma_filter_map_total(found, follow(s.data));
    assert forall|i: int| 0 <= i < owners.len() implies owners[i] == found[i].1 by {
        assert(Some(owners[i]) == owner()(found[i]));
    }
    assert forall|key: Seq<u8>| #[trigger]
        owners.contains(key) == (s.document(key) is Some && holds_number_within(
            s.document(key)->0,
            field,
            start,
            end,
        )) by {
        lemma_range_scan_exact(s, field, start, end, found, key);
    }
    assert forall|i: int, j: int| 0 <= i < j < owners.len() implies owners[i] != owners[j]
        && number_under(s, owners[i], field)->0 <= number_under(s, owners[j], field)->0 by {
        lemma_range_entry(s, field, start, end, found, i);
        lemma_range_entry(s, field, start, end, found, j);
        let a = number_under(s, found[i].1, field)->0;
        let b = number_under(s, found[j].1, field)->0;
        lemma_scan_orders_numbers(found, field, i, a, found[i].1, j, b, found[j].1);
        assert(lex_lt(found[i].0, found[j].0));
        if found[i].1 == found[j].1 {
            lemma_lex_irreflexive(found[i].0);
        }
    }
    assert forall|i: int| 0 <= i < owners.len() implies number_under(
        s,
        #[trigger] owners[i],
        field,
    ) is Some by {
        lemma_range_entry(s, field, start, end, found, i);
    }
    assert forall|i: int, j: int| 0 <= i < owners.len() && 0 <= j < owners.len() && i
        != j implies owners[i] != owners[j] by {
        if i < j {
        } else {
            assert(owners[j] != owners[i]);
        }
    }
    assert forall|i: int| 0 <= i < owners.len() implies Some(
        #[trigger] filter_map(found, follow(s.data))[i],
    ) == s.document(owners[i]) by {
        assert(Some(filter_map(found, follow(s.data))[i]) == follow(s.data)(found[i]));
    }
}

/// What `list` gives: a document is listed exactly where some key of the
/// primary store holds it.
pub proof fn lemma_list_exact(s: StoreModel, found: Seq<Entry>, d: DocView)
    requires
        lists(found, s.data, every_key()),
    ensures
        filter_map(found, held()).contains(d) == exists|key: Seq<u8>|
            #[trigger] s.document(key) == Some(d),
{
    lemma_filter_map_contains(found, held(), d);
    if filter_map(found, held()).contains(d) {
        let j = choose|j: int| 0 <= j < found.len() && held()(#[trigger] found[j]) == Some(d);
        assert(s.data.contains_key(found[j].0));
        assert(s.document(found[j].0) == Some(d));
    }
    if exists|key: Seq<u8>| #[trigger] s.document(key) == Some(d) {
        let key = choose|key: Seq<u8>| #[trigger] s.document(key) == Some(d);
        assert(every_key()(key));
        let j = choose|j: int| 0 <= j < found.len() && (#[trigger] found[j]).0 == key;
        assert(held()(found[j]) == Some(d));
    }
}

/// What `list` gives where no record is corrupt: one document for each key
/// of the primary store, in the order of the keys.
pub proof fn lemma_list_in_order(s: StoreModel, found: Seq<Entry>)
    requires
        lists(found, s.data, every_key()),
        forall|key: Seq<u8>| !s.corrupt(key),
    ensures
        filter_map(found, held()).len() == found.len(),
        forall|i: int|
            0 <= i < found.len() ==> Some(#[trigger] filter_map(found, held())[i]) == s.document(
                found[i].0,
            ),
{
    assert forall|i: int| 0 <= i < found.len() implies held()(#[trigger] found[i]) is Some by {
        assert(s.data.contains_key(found[i].0));
        assert(!s.corrupt(found[i].0));
    }
    lemma_filter_map_total(found, held());
    assert forall|i: int| 0 <= i < found.len() implies Some(
        #[trigger] filter_map(found, held())[i],
    ) == s.document(found[i].0) by {
        assert(s.data.contains_key(found[i].0));
    }
}

/// What `full_text_search` gives: a document is found exactly where some
/// key of the primary store holds it and some text field of it holds the
/// needle.
pub proof fn lemma_search_exact(s: StoreModel, found: Seq<Entry>, needle: Seq<u8>, d: DocView)
    requires
        lists(found, s.data, every_key()),
    ensures
        filter_map(found, held_matching(needle)).contains(d) == (matches_text(d, needle)
            && exists|key: Seq<u8>| #[trigger] s.document(key) == Some(d)),
{
    lemma_filter_map_contains(found, held_matching(needle), d);
    if filter_map(found, held_matching(needle)).contains(d) {
        let j = choose|j: int|
            0 <= j < found.len() && held_matching(needle)(#[trigger] found[j]) == Some(d);
        assert(s.data.contains_key(found[j].0));
        assert(s.document(found[j].0) == Some(d));
    }
    if matches_text(d, needle) && exists|key: Seq<u8>| #[trigger] s.document(key) == Some(d) {
        let key = choose|key: Seq<u8>| #[trigger] s.document(key) == Some(d);
        assert(every_key()(key));
        let j = choose|j: int| 0 <= j < found.len() && (#[trigger] found[j]).0 == key;
        assert(held_matching(needle)(found[j]) == Some(d));
    }
}

/// In a consistent store the index is what the primary store makes it:
/// two consistent stores with one primary store have one index.
pub proof fn lemma_index_determined(a: StoreModel, b: StoreModel)
    requires
        a.consistent(),
        b.consistent(),
        a.data == b.data,
    ensures
        a == b,
{
    assert forall|k: Seq<u8>| #[trigger] a.index.dom().contains(k) == b.index.dom().contains(k)
        && (a.index.dom().contains(k) ==> a.index[k] == b.index[k]) by {
        if a.index.contains_key(k) {
            let o = a.index[k];
            assert(a.document(o) is Some);
            assert(b.document(o) == a.document(o));
            lemma_entry_in_index(b, o, k);
        }
        if b.index.contains_key(k) {
            let o = b.index[k];
            assert(b.document(o) is Some);
            assert(a.document(o) == b.document(o));
            lemma_entry_in_index(a, o, k);
        }
    }
    assert(a.index =~= b.index);
}

/// The stored form that the last of `recs` with the key `key` gives it.
pub open spec fn last_bytes(recs: Seq<(Seq<char>, DocView)>, key: Seq<u8>) -> Option<Seq<u8>>
    decreases recs.len(),
{
    if recs.len() == 0 {
        None
    } else if encode_utf8(recs.last().0) == key {
        Some(doc_bytes(recs.last().1))
    } else {
        last_bytes(recs.drop_last(), key)
    }
}

/// The primary store after records are inserted one after the other: under
/// the key of a record, the stored form of the last record with that key;
/// under another key, what there was.
pub proof fn lemma_data_after_insertions(
    start: StoreModel,
    recs: Seq<(Seq<char>, DocView)>,
    key: Seq<u8>,
)
    ensures
        start.after_all(insertions(recs)).data.contains_key(key) == (start.data.contains_key(key)
            || last_bytes(recs, key) is Some),
        start.after_all(insertions(recs)).data.contains_key(key) ==> start.after_all(
            insertions(recs),
        ).data[key] == match last_bytes(recs, key) {
            Some(b) => b,
            None => start.data[key],
        },
    decreases recs.len(),
{
    let ops = insertions(recs);
    if recs.len() > 0 {
        let rest = recs.drop_last();
        let last = recs.last();
        assert(ops.drop_last() =~= insertions(rest));
        assert(ops.last() == OpView::Insert { key: encode_utf8(last.0), doc: last.1 });
        lemma_data_after_insertions(start, rest, key);
    }
}

/// Import twice: in a consistent store, inserting the same records once
/// more, one after the other, changes nothing.
pub proof fn lemma_import_idempotent(start: StoreModel, recs: Seq<(Seq<char>, DocView)>)
    requires
        start.consistent(),
        forall|i: int| 0 <= i < recs.len() ==> acceptable((#[trigger] recs[i]).1),
    ensures
        start.after_all(insertions(recs)).after_all(insertions(recs)) == start.after_all(
            insertions(recs),
        ),
{
    let ops = insertions(recs);
    let once = start.after_all(ops);
    let twice = once.after_all(ops);
    assert forall|i: int| 0 <= i < ops.len() implies op_acceptable(#[trigger] ops[i]) by {
        assert(acceptable(recs[i].1));
    }
    lemma_after_all_consistent(start, ops);
    lemma_after_all_consistent(once, ops);
    assert forall|k: Seq<u8>| #[trigger] twice.data.dom().contains(k) == once.data.dom().contains(k)
        && (twice.data.dom().contains(k) ==> twice.data[k] == once.data[k]) by {
        lemma_data_after_insertions(start, recs, k);
        lemma_data_after_insertions(once, recs, k);
    }
    assert(twice.data =~= once.data);
    lemma_index_determined(twice, once);
}

/// An insertion that succeeds leaves the other documents their index
/// keys: in a consistent store, every index key of a document under
/// another key stays in the index, under the key of its document.
pub proof fn lemma_insert_keeps_others(
    s: StoreModel,
    key: Seq<u8>,
    d: DocView,
    other: Seq<u8>,
    k: Seq<u8>,
)
    requires
        s.consistent(),
        acceptable(d),
        other != key,
        s.document(other) is Some,
        entry_keys(other, s.document(other)->0).contains(k),
    ensures
        s.inserted(key, d).document(other) == s.document(other),
        s.inserted(key, d).index.contains_key(k),
        s.inserted(key, d).index[k] == other,
{
    lemma_insert_consistent(s, key, d);
    lemma_insert_elsewhere(s, key, d, other);
    lemma_entry_in_index(s.inserted(key, d), other, k);
}

/// An insertion touches the index keys of its own document only: an index
/// key that comes, goes or changes its owner is an index key of the new
/// content or of the old content of the key.
pub proof fn lemma_insert_touches_own_entries(s: StoreModel, key: Seq<u8>, d: DocView, k: Seq<u8>)
    requires
        !entry_keys(key, d).contains(k),
        !owned_entries(key, s.document(key)).contains(k),
    ensures
        s.inserted(key, d).index.contains_key(k) == s.index.contains_key(k),
        s.index.contains_key(k) ==> s.inserted(key, d).index[k] == s.index[k],
{
}

} // verus!
