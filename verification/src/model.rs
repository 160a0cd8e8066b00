//! The store as the contracts see it: the two maps that the engine holds,
//! and what each operation makes of them.

use crate::codec::ValueView;
use crate::document::{doc_bytes, parse_doc, DocView};
use crate::engine::{between, every_key, lists, with_prefix};
use crate::index::{doc_indexable, entry_keys, entry_prefix, range_bound};
use crate::query::{listing, Entry};
use vstd::prelude::*;

verus! {

/// What the store holds: the primary store, from a document's key to its
/// stored form, and the index, from an index key to the key of the document
/// that owns it.
pub struct StoreModel {
    pub data: Map<Seq<u8>, Seq<u8>>,
    pub index: Map<Seq<u8>, Seq<u8>>,
}

/// The store that holds nothing.
pub open spec fn empty_store() -> StoreModel {
    StoreModel { data: Map::empty(), index: Map::empty() }
}

/// The index with each of `keys` set to `owner`.
pub open spec fn put_entries(
    index: Map<Seq<u8>, Seq<u8>>,
    keys: Seq<Seq<u8>>,
    owner: Seq<u8>,
) -> Map<Seq<u8>, Seq<u8>> {
    Map::new(
        |k: Seq<u8>| index.contains_key(k) || keys.contains(k),
        |k: Seq<u8>|
            if keys.contains(k) {
                owner
            } else {
                index[k]
            },
    )
}

/// The index without `keys`.
pub open spec fn drop_entries(index: Map<Seq<u8>, Seq<u8>>, keys: Seq<Seq<u8>>) -> Map<
    Seq<u8>,
    Seq<u8>,
> {
    Map::new(|k: Seq<u8>| index.contains_key(k) && !keys.contains(k), |k: Seq<u8>| index[k])
}

/// Those of `before` that are not among `after`: the index keys that a
/// document loses when its content changes.
pub open spec fn stale(before: Seq<Seq<u8>>, after: Seq<Seq<u8>>) -> Seq<Seq<u8>> {
    before.filter(|k: Seq<u8>| !after.contains(k))
}

/// The index keys that the content `was` gave the document `key`. Content
/// that cannot enter the index gave it none.
pub open spec fn owned_entries(key: Seq<u8>, was: Option<DocView>) -> Seq<Seq<u8>> {
    match was {
        Some(d) => if doc_indexable(d) {
            entry_keys(key, d)
        } else {
            Seq::empty()
        },
        None => Seq::empty(),
    }
}

/// One staged mutation as the contracts see it.
pub struct MutationView {
    /// The key of the document.
    pub key: Seq<u8>,
    /// The stored form that the key gets; none where the document leaves.
    pub body: Option<Seq<u8>>,
    /// The index keys that the document gets.
    pub add: Seq<Seq<u8>>,
    /// The index keys that the document loses.
    pub retract: Seq<Seq<u8>>,
}

/// The mutation that sets the document `key` to `d`, where its content was
/// `was`.
pub open spec fn insertion(key: Seq<u8>, d: DocView, was: Option<DocView>) -> MutationView {
    MutationView {
        key,
        body: Some(doc_bytes(d)),
        add: entry_keys(key, d),
        retract: stale(owned_entries(key, was), entry_keys(key, d)),
    }
}

/// The mutation that removes the document `key`, where its content was
/// `was`.
pub open spec fn deletion(key: Seq<u8>, was: Option<DocView>) -> MutationView {
    MutationView { key, body: None, add: Seq::empty(), retract: owned_entries(key, was) }
}

/// One mutation of the closed set that the coordinator takes, as the
/// contracts see it.
pub enum OpView {
    /// Sets the document `key` to `doc`.
    Insert { key: Seq<u8>, doc: DocView },
    /// Removes the document `key`.
    Delete { key: Seq<u8> },
}

/// Whether the coordinator takes the mutation: an insertion of a document
/// with a field that cannot enter the index is refused.
pub open spec fn op_valid(op: OpView) -> bool {
    match op {
        OpView::Insert { key, doc } => doc_indexable(doc),
        OpView::Delete { key } => true,
    }
}

/// The mutations that the coordinator takes.
pub open spec fn valid_ops() -> spec_fn(OpView) -> bool {
    |op: OpView| op_valid(op)
}

/// Whether the coordinator takes every one of `ops`.
pub open spec fn all_valid(ops: Seq<OpView>) -> bool {
    forall|i: int| 0 <= i < ops.len() ==> op_valid(#[trigger] ops[i])
}

impl StoreModel {
    /// The store after one mutation.
    pub open spec fn after(self, op: OpView) -> StoreModel {
        match op {
            OpView::Insert { key, doc } => self.inserted(key, doc),
            OpView::Delete { key } => self.deleted(key),
        }
    }

    /// The store after the mutations `ops`, one after the other.
    pub open spec fn after_all(self, ops: Seq<OpView>) -> StoreModel
        decreases ops.len(),
    {
        if ops.len() == 0 {
            self
        } else {
            self.after_all(ops.drop_last()).after(ops.last())
        }
    }

    /// The index entries of the pair `(field, v)`, in the order of their
    /// keys, which is the order of the keys of the documents.
    pub open spec fn equal_entries(self, field: Seq<char>, v: ValueView) -> Seq<Entry> {
        listing(self.index, with_prefix(entry_prefix(field, v)))
    }

    /// The index entries of `field` from the value `start`, included, to the
    /// value `end`, not included, in the order of their keys.
    pub open spec fn range_entries(self, field: Seq<char>, start: ValueView, end: ValueView) -> Seq<
        Entry,
    > {
        listing(self.index, between(range_bound(field, start), range_bound(field, end)))
    }

    /// The entries of the primary store, in the order of their keys.
    pub open spec fn all_records(self) -> Seq<Entry> {
        listing(self.data, every_key())
    }

    /// The entries of the index, in the order of their keys.
    pub open spec fn all_entries(self) -> Seq<Entry> {
        listing(self.index, every_key())
    }

    /// `all_entries` lists the entries of the index: each of them once, in
    /// the order of their keys, and nothing else.
    pub open spec fn entries_listed(self) -> bool {
        lists(self.all_entries(), self.index, every_key())
    }

    /// `equal_entries` lists the index entries of the pair: each of them
    /// once, in the order of their keys, and nothing else.
    pub open spec fn equal_listed(self, field: Seq<char>, v: ValueView) -> bool {
        lists(self.equal_entries(field, v), self.index, with_prefix(entry_prefix(field, v)))
    }

    /// `range_entries` lists the index entries between the two bounds: each
    /// of them once, in the order of their keys, and nothing else.
    pub open spec fn range_listed(self, field: Seq<char>, start: ValueView, end: ValueView) -> bool {
        lists(
            self.range_entries(field, start, end),
            self.index,
            between(range_bound(field, start), range_bound(field, end)),
        )
    }

    /// `all_records` lists the entries of the primary store: each of them
    /// once, in the order of their keys, and nothing else.
    pub open spec fn records_listed(self) -> bool {
        lists(self.all_records(), self.data, every_key())
    }

    /// The document under `key`: none where the key is absent or its bytes
    /// are no stored form.
    pub open spec fn document(self, key: Seq<u8>) -> Option<DocView> {
        if self.data.contains_key(key) {
            parse_doc(self.data[key])
        } else {
            None
        }
    }

    /// Whether the record under `key` is corrupt: the key is there, and its
    /// bytes are no stored form.
    pub open spec fn corrupt(self, key: Seq<u8>) -> bool {
        self.data.contains_key(key) && self.document(key) is None
    }

    /// The store after a mutation: the new index keys are in, the document
    /// is written or gone, the index keys that it lost are out.
    pub open spec fn applied(self, m: MutationView) -> StoreModel {
        StoreModel {
            data: match m.body {
                Some(b) => self.data.insert(m.key, b),
                None => self.data.remove(m.key),
            },
            index: drop_entries(put_entries(self.index, m.add, m.key), m.retract),
        }
    }

    /// The store after `d` is inserted under `key`: the key has the stored
    /// form of `d`; the index has lost the index keys of what the key had,
    /// and has the index keys of `d` under the key.
    pub open spec fn inserted(self, key: Seq<u8>, d: DocView) -> StoreModel {
        StoreModel {
            data: self.data.insert(key, doc_bytes(d)),
            index: put_entries(
                drop_entries(self.index, owned_entries(key, self.document(key))),
                entry_keys(key, d),
                key,
            ),
        }
    }

    /// The store after the document under `key` is deleted: the key is
    /// gone, and the index has lost the index keys of what the key had.
    pub open spec fn deleted(self, key: Seq<u8>) -> StoreModel {
        StoreModel {
            data: self.data.remove(key),
            index: drop_entries(self.index, owned_entries(key, self.document(key))),
        }
    }

    /// The store after reconciliation: the index keys whose owner is absent
    /// from the primary store are out.
    pub open spec fn reconciled(self) -> StoreModel {
        StoreModel {
            data: self.data,
            index: Map::new(
                |k: Seq<u8>| self.index.contains_key(k) && self.data.contains_key(self.index[k]),
                |k: Seq<u8>| self.index[k],
            ),
        }
    }

    /// No index key names an owner that the primary store lacks.
    pub open spec fn no_orphans(self) -> bool {
        forall|k: Seq<u8>| #[trigger]
            self.index.contains_key(k) ==> self.data.contains_key(self.index[k])
    }

    /// The index and the primary store agree: every index key is one of the
    /// index keys of the document that it names, and every document has each
    /// of its index keys in the index, under its own key.
    pub open spec fn consistent(self) -> bool {
        &&& forall|k: Seq<u8>| #[trigger]
            self.index.contains_key(k) ==> {
                &&& self.document(self.index[k]) is Some
                &&& doc_indexable(self.document(self.index[k])->0)
                &&& entry_keys(self.index[k], self.document(self.index[k])->0).contains(k)
            }
        &&& forall|key: Seq<u8>| #[trigger]
            self.document(key) is Some ==> {
                &&& doc_indexable(self.document(key)->0)
                &&& forall|k: Seq<u8>|
                    entry_keys(key, self.document(key)->0).contains(k)
                        ==> #[trigger] self.index.contains_key(k) && self.index[k] == key
            }
    }
}

/// A key is among the first `i + 1` of a list where it is among the first
/// `i` or is the next.
pub proof fn lemma_take_contains(keys: Seq<Seq<u8>>, i: int, k: Seq<u8>)
    requires
        0 <= i < keys.len(),
    ensures
        keys.take(i + 1).contains(k) == (keys.take(i).contains(k) || k == keys[i]),
{
    let a = keys.take(i);
    let b = keys.take(i + 1);
    if b.contains(k) {
        let j = choose|j: int| 0 <= j < b.len() && b[j] == k;
        if j < i {
            assert(a[j] == k);
        }
    }
    if a.contains(k) {
        let j = choose|j: int| 0 <= j < a.len() && a[j] == k;
        assert(b[j] == k);
    }
    if k == keys[i] {
        assert(b[i] == k);
    }
}

/// Setting one more key.
pub proof fn lemma_put_step(
    index: Map<Seq<u8>, Seq<u8>>,
    keys: Seq<Seq<u8>>,
    i: int,
    owner: Seq<u8>,
)
    requires
        0 <= i < keys.len(),
    ensures
        put_entries(index, keys.take(i), owner).insert(keys[i], owner) == put_entries(
            index,
            keys.take(i + 1),
            owner,
        ),
{
    let a = put_entries(index, keys.take(i), owner).insert(keys[i], owner);
    let b = put_entries(index, keys.take(i + 1), owner);
    assert forall|k: Seq<u8>| #[trigger] a.dom().contains(k) == b.dom().contains(k) by {
        lemma_take_contains(keys, i, k);
    }
    assert forall|k: Seq<u8>| a.dom().contains(k) implies #[trigger] a[k] == b[k] by {
        lemma_take_contains(keys, i, k);
    }
    assert(a =~= b);
}

/// Removing one more key.
pub proof fn lemma_drop_step(index: Map<Seq<u8>, Seq<u8>>, keys: Seq<Seq<u8>>, i: int)
    requires
        0 <= i < keys.len(),
    ensures
        drop_entries(index, keys.take(i)).remove(keys[i]) == drop_entries(index, keys.take(i + 1)),
{
    let a = drop_entries(index, keys.take(i)).remove(keys[i]);
    let b = drop_entries(index, keys.take(i + 1));
    assert forall|k: Seq<u8>| #[trigger] a.dom().contains(k) == b.dom().contains(k) by {
        lemma_take_contains(keys, i, k);
    }
    assert forall|k: Seq<u8>| a.dom().contains(k) implies #[trigger] a[k] == b[k] by {
        lemma_take_contains(keys, i, k);
    }
    assert(a =~= b);
}

/// Setting no key, and removing none, changes nothing.
pub proof fn lemma_no_entries(index: Map<Seq<u8>, Seq<u8>>, owner: Seq<u8>)
    ensures
        put_entries(index, Seq::empty(), owner) == index,
        drop_entries(index, Seq::empty()) == index,
{
    assert(put_entries(index, Seq::empty(), owner) =~= index);
    assert(drop_entries(index, Seq::empty()) =~= index);
}

/// What is stale: a key of `before` that is not among `after`.
pub proof fn lemma_stale_contains(before: Seq<Seq<u8>>, after: Seq<Seq<u8>>, k: Seq<u8>)
    ensures
        stale(before, after).contains(k) == (before.contains(k) && !after.contains(k)),
    decreases before.len(),
{
    reveal(Seq::filter);
    let pred = |k: Seq<u8>| !after.contains(k);
    if before.len() > 0 {
        let rest = before.drop_last();
        let last = before.last();
        lemma_stale_contains(rest, after, k);
        let f = rest.filter(pred);
        if before.contains(k) {
            let j = choose|j: int| 0 <= j < before.len() && before[j] == k;
            if j < rest.len() {
                assert(rest[j] == k);
            }
        }
        if rest.contains(k) {
            let j = choose|j: int| 0 <= j < rest.len() && rest[j] == k;
            assert(before[j] == k);
        }
        assert(before[before.len() - 1] == last);
        if pred(last) {
            let g = f.push(last);
            assert(stale(before, after) == g);
            if g.contains(k) {
                let j = choose|j: int| 0 <= j < g.len() && g[j] == k;
                if j < f.len() {
                    assert(f[j] == k);
                }
            }
            if f.contains(k) {
                let j = choose|j: int| 0 <= j < f.len() && f[j] == k;
                assert(g[j] == k);
            }
            assert(g[f.len() as int] == last);
        } else {
            assert(stale(before, after) == f);
        }
    }
}

/// Committing the staged insertion of `d` under `key` gives the store
/// after the insertion: taking out what is stale after the new index keys
/// are in is taking out the old ones first.
pub proof fn lemma_applied_insertion(s: StoreModel, key: Seq<u8>, d: DocView)
    ensures
        s.applied(insertion(key, d, s.document(key))) == s.inserted(key, d),
{
    let a = s.applied(insertion(key, d, s.document(key)));
    let b = s.inserted(key, d);
    let old_keys = owned_entries(key, s.document(key));
    let new_keys = entry_keys(key, d);
    assert forall|k: Seq<u8>| #[trigger] a.index.dom().contains(k) == b.index.dom().contains(k) by {
        lemma_stale_contains(old_keys, new_keys, k);
    }
    assert forall|k: Seq<u8>| a.index.dom().contains(k) implies #[trigger] a.index[k]
        == b.index[k] by {
        lemma_stale_contains(old_keys, new_keys, k);
    }
    assert(a.index =~= b.index);
}

/// Committing the staged deletion of the document under `key` gives the
/// store after the deletion.
pub proof fn lemma_applied_deletion(s: StoreModel, key: Seq<u8>)
    ensures
        s.applied(deletion(key, s.document(key))) == s.deleted(key),
{
    let a = s.applied(deletion(key, s.document(key)));
    let b = s.deleted(key);
    assert forall|k: Seq<u8>| !Seq::<Seq<u8>>::empty().contains(k) by {}
    assert(a.index =~= b.index);
}

} // verus!
