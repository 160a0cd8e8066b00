//! The document store: a primary store of documents and a secondary index
//! over their fields, kept in step by one coordinator.

use crate::bytes::{lemma_lex_irreflexive, lex_lt, views};
use crate::codec::{text_of_utf8, Value, ValueView};
use crate::document::{DocView, Document};
use crate::engine::{
    between, engine_flush, engine_get, engine_open, engine_open_temporary, engine_put,
    engine_range, engine_remove, engine_scan_all, engine_scan_prefix, every_key, lists,
    opened_at, pairs, stored, with_prefix,
};
use crate::error::StoreError;
use crate::index::{
    doc_indexable, document_entry_keys, entry_prefix_bytes, field_indexable, range_bound_bytes,
};
use crate::laws::{
    documents_of, exact_owners, exact_owners_within, lemma_delete_consistent,
    lemma_equality_query, lemma_insert_consistent, lemma_range_query,
    lemma_reconcile_consistent, rising_numbers,
};
use crate::model::{
    all_valid, drop_entries, empty_store, lemma_applied_deletion, lemma_applied_insertion,
    lemma_drop_step, lemma_no_entries, lemma_put_step, op_valid, put_entries, valid_ops, OpView,
    StoreModel,
};
use crate::query::{
    aggregate_documents, aggregate_of, count_of, doc_views, document_matches, filter_map, follow,
    held, held_matching, key_text, leads_nowhere, lemma_filter_map_step, lemma_listing, owner,
    record, sum_of, unreadable_key, Aggregate, AggregateOp,
};
use crate::stage::{stage_delete, stage_insert, MutationRecord};
use vstd::prelude::*;
use vstd::slice::slice_to_vec;
use vstd::string::{StringExecFns, StringSliceAdditionalSpecFns};
use vstd::utf8::{encode_utf8, encode_utf8_decode_utf8, encode_utf8_valid_utf8};

verus! {

/// A document as the contracts see it, where there may be none.
pub open spec fn owned_doc_view(d: Option<Document>) -> Option<DocView> {
    match d {
        Some(d) => Some(d@),
        None => None,
    }
}

/// Takes every entry out of a store of the engine.
fn empty_out(db: &mut sled::Db) -> (r: Result<(), StoreError>)
    ensures
        r is Ok ==> stored(*final(db)) == Map::<Seq<u8>, Seq<u8>>::empty(),
        r matches Err(e) ==> e == StoreError::Storage,
{
    let found = match engine_scan_all(db) {
        Ok(found) => found,
        Err(_) => {
            return Err(StoreError::Storage);
        },
    };
    let ghost all = pairs(found@);
    let mut i: usize = 0;
    while i < found.len()
        invariant
            i <= found.len(),
            all == pairs(found@),
            forall|k: Seq<u8>| #[trigger]
                stored(*db).contains_key(k) ==> exists|j: int|
                    i <= j < all.len() && (#[trigger] all[j]).0 == k,
        decreases found.len() - i,
    {
        let ghost held = stored(*db);
        match engine_remove(db, found[i].0.as_slice()) {
            Ok(_) => {},
            Err(_) => {
                return Err(StoreError::Storage);
            },
        }
        proof {
            assert forall|k: Seq<u8>| #[trigger] stored(*db).contains_key(k) implies exists|j: int|
                i + 1 <= j < all.len() && (#[trigger] all[j]).0 == k by {
                assert(held.contains_key(k));
                let j = choose|j: int| i <= j < all.len() && (#[trigger] all[j]).0 == k;
                assert(j != i);
            }
        }
        i += 1;
    }
    assert(stored(*db) =~= Map::<Seq<u8>, Seq<u8>>::empty());
    Ok(())
}

/// The store: the primary store of documents and the index over them.
pub struct Neemo {
    data: sled::Db,
    index: sled::Db,
}

impl View for Neemo {
    type V = StoreModel;

    closed spec fn view(&self) -> StoreModel {
        StoreModel { data: stored(self.data), index: stored(self.index) }
    }
}

/// The directories of the two stores of the database under `path`: `data`
/// for the primary store and `index` for the index, in this order.
pub fn sub_store_paths(path: &str) -> (r: (String, String))
    ensures
        r.0@ == path@ + "/data"@,
        r.1@ == path@ + "/index"@,
{
    let mut data_path = String::from_str(path);
    data_path.append("/data");
    let mut index_path = String::from_str(path);
    index_path.append("/index");
    (data_path, index_path)
}

impl Neemo {
    /// Where the store lies: the directory of the primary store and the
    /// directory of the index.
    pub closed spec fn place(&self) -> (Seq<char>, Seq<char>) {
        (opened_at(self.data), opened_at(self.index))
    }

    /// Opens the store under the directory `path`, with the primary store
    /// in `data` and the index in `index` below it, and reconciles the
    /// index: whatever a stop on the way left behind, no index key of the
    /// opened store names a document that the primary store lacks.
    pub fn new(path: &str) -> (r: Result<Neemo, StoreError>)
        ensures
            r matches Ok(s) ==> s.place() == (path@ + "/data"@, path@ + "/index"@),
            r matches Ok(s) ==> s@.no_orphans(),
            r matches Err(e) ==> e == StoreError::Storage,
    {
        let (data_path, index_path) = sub_store_paths(path);
        let data = match engine_open(data_path.as_str()) {
            Ok(db) => db,
            Err(_) => {
                return Err(StoreError::Storage);
            },
        };
        let index = match engine_open(index_path.as_str()) {
            Ok(db) => db,
            Err(_) => {
                return Err(StoreError::Storage);
            },
        };
        let mut store = Neemo { data, index };
        match store.reconcile() {
            Ok(_) => Ok(store),
            Err(e) => Err(e),
        }
    }

    /// Opens an empty store that lasts as long as the value.
    pub fn temporary() -> (r: Result<Neemo, StoreError>)
        ensures
            r matches Ok(s) ==> s@ == empty_store(),
            r matches Err(e) ==> e == StoreError::Storage,
    {
        let mut data = match engine_open_temporary() {
            Ok(db) => db,
            Err(_) => {
                return Err(StoreError::Storage);
            },
        };
        let mut index = match engine_open_temporary() {
            Ok(db) => db,
            Err(_) => {
                return Err(StoreError::Storage);
            },
        };
        match empty_out(&mut data) {
            Ok(()) => {},
            Err(e) => {
                return Err(e);
            },
        }
        match empty_out(&mut index) {
            Ok(()) => {},
            Err(e) => {
                return Err(e);
            },
        }
        Ok(Neemo { data, index })
    }

    /// Reads the document under the raw key `key`. Bytes that are no stored
    /// form count as no document.
    fn fetch(&self, key: &[u8]) -> (r: Result<Option<Document>, StoreError>)
        ensures
            r matches Ok(found) ==> owned_doc_view(found) == self@.document(key@),
            r matches Err(e) ==> e == StoreError::Storage,
    {
        match engine_get(&self.data, key) {
            Ok(Some(bytes)) => Ok(Document::decode(bytes.as_slice())),
            Ok(None) => Ok(None),
            Err(_) => Err(StoreError::Storage),
        }
    }

    /// Reads the document under the raw key `key`. An absent key gives
    /// none; bytes that are no stored form give a corruption error.
    fn read(&self, key: &[u8]) -> (r: Result<Option<Document>, StoreError>)
        ensures
            r matches Ok(Some(d)) ==> self@.document(key@) == Some(d@),
            r matches Ok(None) ==> !self@.data.contains_key(key@),
            r matches Err(e) ==> e == StoreError::Storage || (e == StoreError::Corruption
                && self@.corrupt(key@)),
    {
        match engine_get(&self.data, key) {
            Ok(Some(bytes)) => match Document::decode(bytes.as_slice()) {
                Some(d) => Ok(Some(d)),
                None => Err(StoreError::Corruption),
            },
            Ok(None) => Ok(None),
            Err(_) => Err(StoreError::Storage),
        }
    }

    /// The document under `key`. An absent key gives none; bytes that are
    /// no stored form give a corruption error.
    pub fn get(&self, key: &str) -> (r: Result<Option<Document>, StoreError>)
        ensures
            r matches Ok(Some(d)) ==> self@.document(key.spec_bytes()) == Some(d@),
            r matches Ok(None) ==> !self@.data.contains_key(key.spec_bytes()),
            r matches Err(e) ==> e == StoreError::Storage || (e == StoreError::Corruption
                && self@.corrupt(key.spec_bytes())),
    {
        self.read(key.as_bytes())
    }

    /// Commits a staged mutation: writes the new index keys, then the
    /// document, then takes out the index keys that the document lost, so
    /// that a stop on the way leaves index keys too many, never too few.
    /// Both stores are flushed before it returns.
    fn commit(&mut self, m: &MutationRecord) -> (r: Result<(), StoreError>)
        ensures
            final(self).place() == old(self).place(),
            r is Ok ==> final(self)@ == old(self)@.applied(m@),
            r matches Err(e) ==> e == StoreError::Storage,
    {
        let key = m.key();
        let add = m.added();
        let retract = m.retracted();
        let ghost before = self@;
        let ghost adds = m@.add;
        let ghost retracts = m@.retract;
        let mut i: usize = 0;
        proof {
            lemma_no_entries(before.index, key@);
            assert(adds.take(0) =~= Seq::<Seq<u8>>::empty());
        }
        while i < add.len()
            invariant
                self.place() == old(self).place(),
                i <= add.len(),
                adds == views(add@),
                self@.data == before.data,
                self@.index == put_entries(before.index, adds.take(i as int), key@),
            decreases add.len() - i,
        {
            match engine_put(&mut self.index, add[i].as_slice(), key.as_slice()) {
                Ok(_) => {},
                Err(_) => {
                    return Err(StoreError::Storage);
                },
            }
            proof {
                lemma_put_step(before.index, adds, i as int, key@);
            }
            i += 1;
        }
        assert(adds.take(i as int) =~= adds);
        let ghost filled = self@.index;
        match m.body() {
            Some(b) => match engine_put(&mut self.data, key.as_slice(), b.as_slice()) {
                Ok(_) => {},
                Err(_) => {
                    return Err(StoreError::Storage);
                },
            },
            None => match engine_remove(&mut self.data, key.as_slice()) {
                Ok(_) => {},
                Err(_) => {
                    return Err(StoreError::Storage);
                },
            },
        }
        let ghost written = self@.data;
        let mut j: usize = 0;
        proof {
            lemma_no_entries(filled, key@);
            assert(retracts.take(0) =~= Seq::<Seq<u8>>::empty());
        }
        while j < retract.len()
            invariant
                self.place() == old(self).place(),
                j <= retract.len(),
                retracts == views(retract@),
                self@.data == written,
                self@.index == drop_entries(filled, retracts.take(j as int)),
            decreases retract.len() - j,
        {
            match engine_remove(&mut self.index, retract[j].as_slice()) {
                Ok(_) => {},
                Err(_) => {
                    return Err(StoreError::Storage);
                },
            }
            proof {
                lemma_drop_step(filled, retracts, j as int);
            }
            j += 1;
        }
        assert(retracts.take(j as int) =~= retracts);
        self.flush()
    }

    /// Sets the document under the raw key `raw` to `doc`.
    fn put(&mut self, raw: &[u8], doc: &Document) -> (r: Result<(), StoreError>)
        ensures
            final(self).place() == old(self).place(),
            !doc_indexable(doc@) ==> r == Err::<(), StoreError>(StoreError::Encoding),
            !doc_indexable(doc@) ==> final(self)@ == old(self)@,
            doc_indexable(doc@) ==> (r is Ok ==> final(self)@ == old(self)@.inserted(raw@, doc@)),
            doc_indexable(doc@) ==> (r matches Err(e) ==> e == StoreError::Storage),
            r is Ok && old(self)@.consistent() ==> final(self)@.consistent(),
    {
        match document_entry_keys(raw, doc) {
            Ok(_) => {},
            Err(e) => {
                return Err(e);
            },
        }
        let was = match self.fetch(raw) {
            Ok(found) => found,
            Err(e) => {
                return Err(e);
            },
        };
        let staged = match stage_insert(raw, doc, was.as_ref()) {
            Ok(m) => m,
            Err(e) => {
                return Err(e);
            },
        };
        proof {
            lemma_applied_insertion(self@, raw@, doc@);
            if self@.consistent() {
                lemma_insert_consistent(self@, raw@, doc@);
            }
        }
        self.commit(&staged)
    }

    /// Removes the document under the raw key `raw` and gives back what it
    /// was. A record whose bytes are no stored form is left as it is, with
    /// a corruption error: the index keys that it owns cannot be told.
    fn take(&mut self, raw: &[u8]) -> (r: Result<Option<Document>, StoreError>)
        ensures
            final(self).place() == old(self).place(),
            r matches Ok(was) ==> final(self)@ == old(self)@.deleted(raw@) && owned_doc_view(was)
                == old(self)@.document(raw@),
            r is Ok ==> !old(self)@.corrupt(raw@),
            r matches Err(e) ==> e == StoreError::Storage || e == StoreError::Corruption,
            r matches Err(StoreError::Corruption) ==> old(self)@.corrupt(raw@),
            r matches Err(StoreError::Corruption) ==> final(self)@ == old(self)@,
            r is Ok && old(self)@.consistent() ==> final(self)@.consistent(),
    {
        let was = match self.read(raw) {
            Ok(found) => found,
            Err(e) => {
                return Err(e);
            },
        };
        let staged = stage_delete(raw, was.as_ref());
        proof {
            lemma_applied_deletion(self@, raw@);
            if self@.consistent() {
                lemma_delete_consistent(self@, raw@);
            }
        }
        match self.commit(&staged) {
            Ok(()) => Ok(was),
            Err(e) => Err(e),
        }
    }

    /// Inserts `doc` under `key`, in place of what the key had. A document
    /// with a field that cannot enter the index is refused before anything
    /// is written.
    pub fn insert(&mut self, key: &str, doc: Document) -> (r: Result<(), StoreError>)
        ensures
            final(self).place() == old(self).place(),
            !doc_indexable(doc@) ==> r == Err::<(), StoreError>(StoreError::Encoding),
            !doc_indexable(doc@) ==> final(self)@ == old(self)@,
            doc_indexable(doc@) ==> (r is Ok ==> final(self)@ == old(self)@.inserted(
                key.spec_bytes(),
                doc@,
            )),
            doc_indexable(doc@) ==> (r matches Err(e) ==> e == StoreError::Storage),
            r is Ok && old(self)@.consistent() ==> final(self)@.consistent(),
    {
        self.put(key.as_bytes(), &doc)
    }

    /// Deletes the document under `key` and gives back what it was. Where
    /// the key has no document, nothing changes. A record whose bytes are
    /// no stored form is left as it is, with a corruption error.
    pub fn delete(&mut self, key: &str) -> (r: Result<Option<Document>, StoreError>)
        ensures
            final(self).place() == old(self).place(),
            r matches Ok(was) ==> final(self)@ == old(self)@.deleted(key.spec_bytes())
                && owned_doc_view(was) == old(self)@.document(key.spec_bytes()),
            r is Ok ==> !old(self)@.corrupt(key.spec_bytes()),
            r matches Err(e) ==> e == StoreError::Storage || e == StoreError::Corruption,
            r matches Err(StoreError::Corruption) ==> old(self)@.corrupt(key.spec_bytes()),
            r matches Err(StoreError::Corruption) ==> final(self)@ == old(self)@,
            r is Ok && old(self)@.consistent() ==> final(self)@.consistent(),
    {
        self.take(key.as_bytes())
    }

    /// Writes what is pending in both stores to disk.
    pub fn flush(&self) -> (r: Result<(), StoreError>)
        ensures
            r matches Err(e) ==> e == StoreError::Storage,
    {
        match engine_flush(&self.data) {
            Ok(_) => {},
            Err(_) => {
                return Err(StoreError::Storage);
            },
        }
        match engine_flush(&self.index) {
            Ok(_) => Ok(()),
            Err(_) => Err(StoreError::Storage),
        }
    }
}

/// A list of texts as the contracts see it.
pub open spec fn text_views(v: Seq<String>) -> Seq<Seq<char>> {
    Seq::new(v.len(), |i: int| v[i]@)
}

/// A list of keyed documents as the contracts see it.
pub open spec fn record_views(v: Seq<(String, Document)>) -> Seq<(Seq<char>, DocView)> {
    Seq::new(v.len(), |i: int| (v[i].0@, v[i].1@))
}

/// The insertions that put the records `v` into a store.
pub open spec fn insertions(v: Seq<(Seq<char>, DocView)>) -> Seq<OpView> {
    Seq::new(v.len(), |i: int| OpView::Insert { key: encode_utf8(v[i].0), doc: v[i].1 })
}

/// One mutation of the closed set that the coordinator takes.
#[derive(Debug, Clone, PartialEq, Eq)]
pub enum Mutation {
    /// Sets the document `key` to `doc`.
    Insert { key: String, doc: Document },
    /// Removes the document `key`.
    Delete { key: String },
}

impl View for Mutation {
    type V = OpView;

    open spec fn view(&self) -> OpView {
        match self {
            Mutation::Insert { key, doc } => OpView::Insert { key: encode_utf8(key@), doc: doc@ },
            Mutation::Delete { key } => OpView::Delete { key: encode_utf8(key@) },
        }
    }
}

/// A list of mutations as the contracts see it.
pub open spec fn op_views(v: Seq<Mutation>) -> Seq<OpView> {
    Seq::new(v.len(), |i: int| v[i]@)
}

/// The aggregate that the word `op` names.
pub open spec fn op_of(op: Seq<char>) -> Option<AggregateOp> {
    if op == "sum"@ {
        Some(AggregateOp::Sum)
    } else if op == "count"@ {
        Some(AggregateOp::Count)
    } else if op == "avg"@ {
        Some(AggregateOp::Avg)
    } else {
        None
    }
}

/// The aggregate that the word `op` names: `sum`, `count` or `avg`.
pub fn parse_op(op: &str) -> (r: Option<AggregateOp>)
    ensures
        r == op_of(op@),
{
    let word = String::from_str(op);
    if word == String::from_str("sum") {
        Some(AggregateOp::Sum)
    } else if word == String::from_str("count") {
        Some(AggregateOp::Count)
    } else if word == String::from_str("avg") {
        Some(AggregateOp::Avg)
    } else {
        None
    }
}

/// The owners that the index entries `found` name.
fn owners_of(found: &Vec<(Vec<u8>, Vec<u8>)>) -> (r: Vec<Vec<u8>>)
    ensures
        views(r@) == filter_map(pairs(found@), owner()),
{
    let ghost all = pairs(found@);
    let mut out: Vec<Vec<u8>> = Vec::new();
    let mut i: usize = 0;
    assert(all.take(0) =~= Seq::<(Seq<u8>, Seq<u8>)>::empty());
    assert(views(out@) =~= Seq::<Seq<u8>>::empty());
    while i < found.len()
        invariant
            i <= found.len(),
            all == pairs(found@),
            views(out@) == filter_map(all.take(i as int), owner()),
        decreases found.len() - i,
    {
        let ghost kept = views(out@);
        proof {
            lemma_filter_map_step(all, owner(), i as int);
        }
        out.push(slice_to_vec(found[i].1.as_slice()));
        assert(views(out@) =~= kept.push(found@[i as int].1@));
        i += 1;
    }
    assert(all.take(i as int) =~= all);
    out
}

/// Whether the coordinator takes every one of `ops`.
fn all_ops_valid(ops: &Vec<Mutation>) -> (r: bool)
    ensures
        r == all_valid(op_views(ops@)),
{
    let mut i: usize = 0;
    while i < ops.len()
        invariant
            i <= ops.len(),
            forall|j: int| 0 <= j < i ==> op_valid(#[trigger] op_views(ops@)[j]),
        decreases ops.len() - i,
    {
        match &ops[i] {
            Mutation::Insert { key, doc } => {
                if document_entry_keys(key.as_str().as_bytes(), doc).is_err() {
                    assert(!op_valid(op_views(ops@)[i as int]));
                    return false;
                }
            },
            Mutation::Delete { key } => {},
        }
        i += 1;
    }
    true
}

impl Neemo {
    /// The documents that the index entries `found` lead to. An entry whose
    /// owner is absent or does not decode is passed over.
    fn resolve(&self, found: &Vec<(Vec<u8>, Vec<u8>)>) -> (r: Result<Vec<Document>, StoreError>)
        ensures
            r matches Ok(docs) ==> doc_views(docs@) == filter_map(
                pairs(found@),
                follow(self@.data),
            ),
            r matches Err(e) ==> e == StoreError::Storage,
    {
        let ghost all = pairs(found@);
        let mut out: Vec<Document> = Vec::new();
        let mut i: usize = 0;
        assert(all.take(0) =~= Seq::<(Seq<u8>, Seq<u8>)>::empty());
        assert(doc_views(out@) =~= Seq::<DocView>::empty());
        while i < found.len()
            invariant
                i <= found.len(),
                all == pairs(found@),
                doc_views(out@) == filter_map(all.take(i as int), follow(self@.data)),
            decreases found.len() - i,
        {
            let ghost kept = doc_views(out@);
            proof {
                lemma_filter_map_step(all, follow(self@.data), i as int);
            }
            match self.fetch(found[i].1.as_slice()) {
                Ok(Some(d)) => {
                    out.push(d);
                    assert(doc_views(out@) =~= kept.push(d@));
                },
                Ok(None) => {},
                Err(e) => {
                    return Err(e);
                },
            }
            i += 1;
        }
        assert(all.take(i as int) =~= all);
        Ok(out)
    }

    /// The entries of the primary store, in the order of their keys.
    fn records(&self) -> (r: Result<Vec<(Vec<u8>, Vec<u8>)>, StoreError>)
        ensures
            r is Ok ==> self@.records_listed(),
            r matches Ok(found) ==> pairs(found@) == self@.all_records(),
            r matches Err(e) ==> e == StoreError::Storage,
    {
        match engine_scan_all(&self.data) {
            Ok(found) => {
                proof {
                    lemma_listing(pairs(found@), self@.data, every_key());
                }
                Ok(found)
            },
            Err(_) => Err(StoreError::Storage),
        }
    }

    /// The index entries of the pair `(field, value)`.
    fn equal_entries(&self, field: &str, value: &Value) -> (r: Result<
        Vec<(Vec<u8>, Vec<u8>)>,
        StoreError,
    >)
        ensures
            r is Ok ==> self@.equal_listed(field@, value@),
            !field_indexable((field@, value@)) ==> r == Err::<
                Vec<(Vec<u8>, Vec<u8>)>,
                StoreError,
            >(StoreError::Encoding),
            field_indexable((field@, value@)) ==> (r matches Ok(found) ==> pairs(found@)
                == self@.equal_entries(field@, value@)),
            field_indexable((field@, value@)) ==> (r matches Err(e) ==> e == StoreError::Storage),
    {
        let prefix = match entry_prefix_bytes(field, value) {
            Ok(p) => p,
            Err(e) => {
                return Err(e);
            },
        };
        match engine_scan_prefix(&self.index, prefix.as_slice()) {
            Ok(found) => {
                proof {
                    lemma_listing(
                        pairs(found@),
                        self@.index,
                        with_prefix(prefix@),
                    );
                }
                Ok(found)
            },
            Err(_) => Err(StoreError::Storage),
        }
    }

    /// The index entries of `field` from `start`, included, to `end`, not
    /// included.
    fn range_entries(&self, field: &str, start: &Value, end: &Value) -> (r: Result<
        Vec<(Vec<u8>, Vec<u8>)>,
        StoreError,
    >)
        ensures
            r is Ok ==> self@.range_listed(field@, start@, end@),
            !(field_indexable((field@, start@)) && field_indexable((field@, end@))) ==> r == Err::<
                Vec<(Vec<u8>, Vec<u8>)>,
                StoreError,
            >(StoreError::Encoding),
            field_indexable((field@, start@)) && field_indexable((field@, end@)) ==> (r matches Ok(
                found,
            ) ==> pairs(found@) == self@.range_entries(field@, start@, end@)),
            field_indexable((field@, start@)) && field_indexable((field@, end@)) ==> (
            r matches Err(e) ==> e == StoreError::Storage),
    {
        let lo = match range_bound_bytes(field, start) {
            Ok(b) => b,
            Err(e) => {
                return Err(e);
            },
        };
        let hi = match range_bound_bytes(field, end) {
            Ok(b) => b,
            Err(e) => {
                return Err(e);
            },
        };
        match engine_range(&self.index, lo.as_slice(), hi.as_slice()) {
            Ok(found) => {
                proof {
                    lemma_listing(
                        pairs(found@),
                        self@.index,
                        between(lo@, hi@),
                    );
                }
                Ok(found)
            },
            Err(_) => Err(StoreError::Storage),
        }
    }

    /// The keys of the documents that hold `value` in `field`, in the order
    /// of the keys. A pair that cannot enter the index is refused.
    pub fn equality_scan(&self, field: &str, value: &Value) -> (r: Result<
        Vec<Vec<u8>>,
        StoreError,
    >)
        ensures
            r matches Ok(keys) ==> (self@.consistent() ==> exact_owners(
                self@,
                (field@, value@),
                views(keys@),
            )),
            r is Ok ==> self@.equal_listed(field@, value@),
            !field_indexable((field@, value@)) ==> r == Err::<Vec<Vec<u8>>, StoreError>(
                StoreError::Encoding,
            ),
            field_indexable((field@, value@)) ==> (r matches Ok(keys) ==> views(keys@)
                == filter_map(self@.equal_entries(field@, value@), owner())),
            field_indexable((field@, value@)) ==> (r matches Err(e) ==> e == StoreError::Storage),
    {
        match self.equal_entries(field, value) {
            Ok(found) => {
                proof {
                    if self@.consistent() {
                        lemma_equality_query(self@, (field@, value@), pairs(found@));
                    }
                }
                Ok(owners_of(&found))
            },
            Err(e) => Err(e),
        }
    }

    /// The keys of the documents whose value in `field` lies from `start`,
    /// included, to `end`, not included, in the order of the values. A bound
    /// that cannot enter the index is refused.
    pub fn range_scan(&self, field: &str, start: &Value, end: &Value) -> (r: Result<
        Vec<Vec<u8>>,
        StoreError,
    >)
        ensures
            r matches Ok(keys) ==> (self@.consistent() && start@ is Number && end@ is Number
                ==> exact_owners_within(
                self@,
                field@,
                start@->Number_0,
                end@->Number_0,
                views(keys@),
            ) && rising_numbers(self@, field@, views(keys@))),
            r is Ok ==> self@.range_listed(field@, start@, end@),
            !(field_indexable((field@, start@)) && field_indexable((field@, end@))) ==> r == Err::<
                Vec<Vec<u8>>,
                StoreError,
            >(StoreError::Encoding),
            field_indexable((field@, start@)) && field_indexable((field@, end@)) ==> (r matches Ok(
                keys,
            ) ==> views(keys@) == filter_map(
                self@.range_entries(field@, start@, end@),
                owner(),
            )),
            field_indexable((field@, start@)) && field_indexable((field@, end@)) ==> (
            r matches Err(e) ==> e == StoreError::Storage),
    {
        match self.range_entries(field, start, end) {
            Ok(found) => {
                proof {
                    if self@.consistent() && start@ is Number && end@ is Number {
                        assert(start@ == ValueView::Number(start@->Number_0));
                        assert(end@ == ValueView::Number(end@->Number_0));
                        lemma_range_query(
                            self@,
                            field@,
                            start@->Number_0,
                            end@->Number_0,
                            pairs(found@),
                        );
                    }
                }
                Ok(owners_of(&found))
            },
            Err(e) => Err(e),
        }
    }

    /// The documents that hold `value` in `field`, in the order of their
    /// keys. An index entry whose document is absent or does not decode is
    /// passed over.
    pub fn query(&self, field: &str, value: Value) -> (r: Result<Vec<Document>, StoreError>)
        ensures
            r matches Ok(docs) ==> (self@.consistent() ==> exact_owners(
                self@,
                (field@, value@),
                filter_map(self@.equal_entries(field@, value@), owner()),
            ) && documents_of(
                self@,
                filter_map(self@.equal_entries(field@, value@), owner()),
                doc_views(docs@),
            )),
            r is Ok ==> self@.equal_listed(field@, value@),
            !field_indexable((field@, value@)) ==> r == Err::<Vec<Document>, StoreError>(
                StoreError::Encoding,
            ),
            field_indexable((field@, value@)) ==> (r matches Ok(docs) ==> doc_views(docs@)
                == filter_map(self@.equal_entries(field@, value@), follow(self@.data))),
            field_indexable((field@, value@)) ==> (r matches Err(e) ==> e == StoreError::Storage),
    {
        match self.equal_entries(field, &value) {
            Ok(found) => {
                proof {
                    if self@.consistent() {
                        lemma_equality_query(self@, (field@, value@), pairs(found@));
                    }
                }
                self.resolve(&found)
            },
            Err(e) => Err(e),
        }
    }

    /// The documents whose value in `field` lies from `start`, included, to
    /// `end`, not included, in the order of the values and, among equal
    /// values, of the keys.
    pub fn range_query(&self, field: &str, start: Value, end: Value) -> (r: Result<
        Vec<Document>,
        StoreError,
    >)
        ensures
            r matches Ok(docs) ==> (self@.consistent() && start@ is Number && end@ is Number
                ==> exact_owners_within(
                self@,
                field@,
                start@->Number_0,
                end@->Number_0,
                filter_map(self@.range_entries(field@, start@, end@), owner()),
            ) && rising_numbers(
                self@,
                field@,
                filter_map(self@.range_entries(field@, start@, end@), owner()),
            ) && documents_of(
                self@,
                filter_map(self@.range_entries(field@, start@, end@), owner()),
                doc_views(docs@),
            )),
            r is Ok ==> self@.range_listed(field@, start@, end@),
            !(field_indexable((field@, start@)) && field_indexable((field@, end@))) ==> r == Err::<
                Vec<Document>,
                StoreError,
            >(StoreError::Encoding),
            field_indexable((field@, start@)) && field_indexable((field@, end@)) ==> (r matches Ok(
                docs,
            ) ==> doc_views(docs@) == filter_map(
                self@.range_entries(field@, start@, end@),
                follow(self@.data),
            )),
            field_indexable((field@, start@)) && field_indexable((field@, end@)) ==> (
            r matches Err(e) ==> e == StoreError::Storage),
    {
        match self.range_entries(field, &start, &end) {
            Ok(found) => {
                proof {
                    if self@.consistent() && start@ is Number && end@ is Number {
                        assert(start@ == ValueView::Number(start@->Number_0));
                        assert(end@ == ValueView::Number(end@->Number_0));
                        lemma_range_query(
                            self@,
                            field@,
                            start@->Number_0,
                            end@->Number_0,
                            pairs(found@),
                        );
                    }
                }
                self.resolve(&found)
            },
            Err(e) => Err(e),
        }
    }

    /// Every document, in the order of the keys. A record that does not
    /// decode is passed over.
    pub fn list(&self) -> (r: Result<Vec<Document>, StoreError>)
        ensures
            r is Ok ==> self@.records_listed(),
            r matches Ok(docs) ==> doc_views(docs@) == filter_map(self@.all_records(), held()),
            r matches Err(e) ==> e == StoreError::Storage,
    {
        let found = match self.records() {
            Ok(found) => found,
            Err(e) => {
                return Err(e);
            },
        };
        let ghost all = pairs(found@);
        let mut out: Vec<Document> = Vec::new();
        let mut i: usize = 0;
        assert(all.take(0) =~= Seq::<(Seq<u8>, Seq<u8>)>::empty());
        assert(doc_views(out@) =~= Seq::<DocView>::empty());
        while i < found.len()
            invariant
                i <= found.len(),
                all == pairs(found@),
                doc_views(out@) == filter_map(all.take(i as int), held()),
            decreases found.len() - i,
        {
            let ghost kept = doc_views(out@);
            proof {
                lemma_filter_map_step(all, held(), i as int);
            }
            match Document::decode(found[i].1.as_slice()) {
                Some(d) => {
                    out.push(d);
                    assert(doc_views(out@) =~= kept.push(d@));
                },
                None => {},
            }
            i += 1;
        }
        assert(all.take(i as int) =~= all);
        Ok(out)
    }

    /// The keys of the records whose bytes are no stored form, in their
    /// order: what `list`, `full_text_search`, `aggregate` and `export` pass
    /// over, for the caller to report.
    pub fn unreadable(&self) -> (r: Result<Vec<Vec<u8>>, StoreError>)
        ensures
            r is Ok ==> self@.records_listed(),
            r matches Ok(keys) ==> views(keys@) == filter_map(
                self@.all_records(),
                unreadable_key(),
            ),
            r matches Err(e) ==> e == StoreError::Storage,
    {
        let found = match self.records() {
            Ok(found) => found,
            Err(e) => {
                return Err(e);
            },
        };
        let ghost all = pairs(found@);
        let mut out: Vec<Vec<u8>> = Vec::new();
        let mut i: usize = 0;
        assert(all.take(0) =~= Seq::<(Seq<u8>, Seq<u8>)>::empty());
        assert(views(out@) =~= Seq::<Seq<u8>>::empty());
        while i < found.len()
            invariant
                i <= found.len(),
                all == pairs(found@),
                views(out@) == filter_map(all.take(i as int), unreadable_key()),
            decreases found.len() - i,
        {
            let ghost kept = views(out@);
            proof {
                lemma_filter_map_step(all, unreadable_key(), i as int);
            }
            if Document::decode(found[i].1.as_slice()).is_none() {
                out.push(slice_to_vec(found[i].0.as_slice()));
                assert(views(out@) =~= kept.push(found@[i as int].0@));
            }
            i += 1;
        }
        assert(all.take(i as int) =~= all);
        Ok(out)
    }

    /// The index entries that lead to no document, each with the owner that
    /// it names, in the order of the index keys: what `query` and
    /// `range_query` pass over, for the caller to report.
    pub fn dangling(&self) -> (r: Result<Vec<(Vec<u8>, Vec<u8>)>, StoreError>)
        ensures
            r is Ok ==> self@.entries_listed(),
            r matches Ok(entries) ==> pairs(entries@) == filter_map(
                self@.all_entries(),
                leads_nowhere(self@.data),
            ),
            r matches Err(e) ==> e == StoreError::Storage,
    {
        let found = match engine_scan_all(&self.index) {
            Ok(found) => found,
            Err(_) => {
                return Err(StoreError::Storage);
            },
        };
        proof {
            lemma_listing(pairs(found@), self@.index, every_key());
        }
        let ghost all = pairs(found@);
        let mut out: Vec<(Vec<u8>, Vec<u8>)> = Vec::new();
        let mut i: usize = 0;
        assert(all.take(0) =~= Seq::<(Seq<u8>, Seq<u8>)>::empty());
        assert(pairs(out@) =~= Seq::<(Seq<u8>, Seq<u8>)>::empty());
        while i < found.len()
            invariant
                i <= found.len(),
                all == pairs(found@),
                pairs(out@) == filter_map(all.take(i as int), leads_nowhere(self@.data)),
            decreases found.len() - i,
        {
            let ghost kept = pairs(out@);
            proof {
                lemma_filter_map_step(all, leads_nowhere(self@.data), i as int);
            }
            match self.fetch(found[i].1.as_slice()) {
                Ok(Some(_)) => {},
                Ok(None) => {
                    out.push(
                        (slice_to_vec(found[i].0.as_slice()), slice_to_vec(found[i].1.as_slice())),
                    );
                    assert(pairs(out@) =~= kept.push(all[i as int]));
                },
                Err(e) => {
                    return Err(e);
                },
            }
            i += 1;
        }
        assert(all.take(i as int) =~= all);
        Ok(out)
    }

    /// The keys of the primary store, in their order. A key that is not
    /// UTF-8 is passed over.
    pub fn list_keys(&self) -> (r: Result<Vec<String>, StoreError>)
        ensures
            r is Ok ==> self@.records_listed(),
            r matches Ok(keys) ==> text_views(keys@) == filter_map(
                self@.all_records(),
                key_text(),
            ),
            r matches Err(e) ==> e == StoreError::Storage,
    {
        let found = match self.records() {
            Ok(found) => found,
            Err(e) => {
                return Err(e);
            },
        };
        let ghost all = pairs(found@);
        let mut out: Vec<String> = Vec::new();
        let mut i: usize = 0;
        assert(all.take(0) =~= Seq::<(Seq<u8>, Seq<u8>)>::empty());
        assert(text_views(out@) =~= Seq::<Seq<char>>::empty());
        while i < found.len()
            invariant
                i <= found.len(),
                all == pairs(found@),
                text_views(out@) == filter_map(all.take(i as int), key_text()),
            decreases found.len() - i,
        {
            let ghost kept = text_views(out@);
            proof {
                lemma_filter_map_step(all, key_text(), i as int);
            }
            match text_of_utf8(slice_to_vec(found[i].0.as_slice())) {
                Some(s) => {
                    proof {
                        encode_utf8_valid_utf8(s@);
                        encode_utf8_decode_utf8(s@);
                    }
                    out.push(s);
                    assert(text_views(out@) =~= kept.push(s@));
                },
                None => {},
            }
            i += 1;
        }
        assert(all.take(i as int) =~= all);
        Ok(out)
    }

    /// The documents of which some text field holds `query`, in the order
    /// of the keys: case-sensitive, exact, and a walk through every document.
    pub fn full_text_search(&self, query: &str) -> (r: Result<Vec<Document>, StoreError>)
        ensures
            r is Ok ==> self@.records_listed(),
            r matches Ok(docs) ==> doc_views(docs@) == filter_map(
                self@.all_records(),
                held_matching(query.spec_bytes()),
            ),
            r matches Err(e) ==> e == StoreError::Storage,
    {
        let found = match self.records() {
            Ok(found) => found,
            Err(e) => {
                return Err(e);
            },
        };
        let needle = query.as_bytes();
        let ghost all = pairs(found@);
        let mut out: Vec<Document> = Vec::new();
        let mut i: usize = 0;
        assert(all.take(0) =~= Seq::<(Seq<u8>, Seq<u8>)>::empty());
        assert(doc_views(out@) =~= Seq::<DocView>::empty());
        while i < found.len()
            invariant
                i <= found.len(),
                all == pairs(found@),
                needle@ == query.spec_bytes(),
                doc_views(out@) == filter_map(all.take(i as int), held_matching(needle@)),
            decreases found.len() - i,
        {
            let ghost kept = doc_views(out@);
            proof {
                lemma_filter_map_step(all, held_matching(needle@), i as int);
            }
            match Document::decode(found[i].1.as_slice()) {
                Some(d) => {
                    if document_matches(&d, needle) {
                        out.push(d);
                        assert(doc_views(out@) =~= kept.push(d@));
                    }
                },
                None => {},
            }
            i += 1;
        }
        assert(all.take(i as int) =~= all);
        Ok(out)
    }

    /// The aggregate that the word `op` names, over the numbers that the
    /// documents hold in `field`. A word that names none is refused.
    pub fn aggregate(&self, field: &str, op: &str) -> (r: Result<Aggregate, StoreError>)
        ensures
            r is Ok ==> self@.records_listed(),
            op_of(op@) is None ==> r == Err::<Aggregate, StoreError>(StoreError::Validation),
            op_of(op@) is Some ==> (r matches Ok(a) ==> a == aggregate_of(
                op_of(op@)->0,
                sum_of(filter_map(self@.all_records(), held()), field@),
                count_of(filter_map(self@.all_records(), held()), field@),
            )),
            op_of(op@) is Some ==> (r matches Err(e) ==> e == StoreError::Storage),
            r is Ok ==> i128::MIN <= sum_of(filter_map(self@.all_records(), held()), field@)
                <= i128::MAX,
            r is Ok ==> count_of(filter_map(self@.all_records(), held()), field@) <= u64::MAX,
            r matches Ok(Aggregate::Average { sum, count }) ==> count > 0,
    {
        let what = match parse_op(op) {
            Some(o) => o,
            None => {
                return Err(StoreError::Validation);
            },
        };
        let docs = match self.list() {
            Ok(docs) => docs,
            Err(e) => {
                return Err(e);
            },
        };
        let name = String::from_str(field);
        Ok(aggregate_documents(&docs, &name, what))
    }

    /// Every document with its key, in the order of the keys: what an
    /// export writes. A record whose key is not UTF-8 or whose bytes do not
    /// decode is passed over.
    pub fn export(&self) -> (r: Result<Vec<(String, Document)>, StoreError>)
        ensures
            r is Ok ==> self@.records_listed(),
            r matches Ok(records) ==> record_views(records@) == filter_map(
                self@.all_records(),
                record(),
            ),
            r matches Err(e) ==> e == StoreError::Storage,
    {
        let found = match self.records() {
            Ok(found) => found,
            Err(e) => {
                return Err(e);
            },
        };
        let ghost all = pairs(found@);
        let mut out: Vec<(String, Document)> = Vec::new();
        let mut i: usize = 0;
        assert(all.take(0) =~= Seq::<(Seq<u8>, Seq<u8>)>::empty());
        assert(record_views(out@) =~= Seq::<(Seq<char>, DocView)>::empty());
        while i < found.len()
            invariant
                i <= found.len(),
                all == pairs(found@),
                record_views(out@) == filter_map(all.take(i as int), record()),
            decreases found.len() - i,
        {
            let ghost kept = record_views(out@);
            proof {
                lemma_filter_map_step(all, record(), i as int);
            }
            match text_of_utf8(slice_to_vec(found[i].0.as_slice())) {
                Some(s) => {
                    proof {
                        encode_utf8_valid_utf8(s@);
                        encode_utf8_decode_utf8(s@);
                    }
                    match Document::decode(found[i].1.as_slice()) {
                        Some(d) => {
                            out.push((s, d));
                            assert(record_views(out@) =~= kept.push((s@, d@)));
                        },
                        None => {},
                    }
                },
                None => {},
            }
            i += 1;
        }
        assert(all.take(i as int) =~= all);
        Ok(out)
    }

    /// Applies one mutation.
    pub fn apply(&mut self, op: &Mutation) -> (r: Result<(), StoreError>)
        ensures
            final(self).place() == old(self).place(),
            !op_valid(op@) ==> r == Err::<(), StoreError>(StoreError::Encoding),
            !op_valid(op@) ==> final(self)@ == old(self)@,
            op_valid(op@) ==> (r is Ok ==> final(self)@ == old(self)@.after(op@)),
            op_valid(op@) ==> (r matches Err(e) ==> e == StoreError::Storage || e
                == StoreError::Corruption),
            r matches Err(StoreError::Corruption) ==> op@ is Delete && old(self)@.corrupt(
                op@->Delete_key,
            ),
            r matches Err(StoreError::Corruption) ==> final(self)@ == old(self)@,
            r is Ok && old(self)@.consistent() ==> final(self)@.consistent(),
    {
        match op {
            Mutation::Insert { key, doc } => self.put(key.as_str().as_bytes(), doc),
            Mutation::Delete { key } => match self.take(key.as_str().as_bytes()) {
                Ok(_) => Ok(()),
                Err(e) => Err(e),
            },
        }
    }

    /// Applies the mutations `ops` one after the other, all or none as far
    /// as their shape decides: where one of them would be refused, nothing
    /// is written. Gives back how many were applied.
    pub fn transaction(&mut self, ops: &Vec<Mutation>) -> (r: Result<usize, StoreError>)
        ensures
            final(self).place() == old(self).place(),
            !all_valid(op_views(ops@)) ==> r == Err::<usize, StoreError>(StoreError::Encoding),
            !all_valid(op_views(ops@)) ==> final(self)@ == old(self)@,
            all_valid(op_views(ops@)) ==> (r matches Ok(n) ==> n == ops.len() && final(self)@
                == old(self)@.after_all(op_views(ops@))),
            all_valid(op_views(ops@)) ==> (r matches Err(e) ==> e == StoreError::Storage || e
                == StoreError::Corruption),
            r is Ok && old(self)@.consistent() ==> final(self)@.consistent(),
    {
        if !all_ops_valid(ops) {
            return Err(StoreError::Encoding);
        }
        let ghost before = self@;
        let ghost all = op_views(ops@);
        let mut i: usize = 0;
        assert(all.take(0) =~= Seq::<OpView>::empty());
        while i < ops.len()
            invariant
                self.place() == old(self).place(),
                i <= ops.len(),
                all == op_views(ops@),
                all_valid(all),
                self@ == before.after_all(all.take(i as int)),
                before.consistent() ==> self@.consistent(),
            decreases ops.len() - i,
        {
            proof {
                assert(all.take(i + 1).drop_last() =~= all.take(i as int));
                assert(all.take(i + 1).last() == all[i as int]);
                assert(op_valid(all[i as int]));
            }
            match self.apply(&ops[i]) {
                Ok(()) => {},
                Err(e) => {
                    return Err(e);
                },
            }
            i += 1;
        }
        assert(all.take(i as int) =~= all);
        Ok(ops.len())
    }

    /// Applies those of the mutations `ops` that the coordinator takes, one
    /// after the other, and passes over the others. Gives back how many
    /// were applied.
    pub fn batch(&mut self, ops: &Vec<Mutation>) -> (r: Result<usize, StoreError>)
        ensures
            final(self).place() == old(self).place(),
            r matches Ok(n) ==> n == op_views(ops@).filter(valid_ops()).len() && final(self)@
                == old(self)@.after_all(op_views(ops@).filter(valid_ops())),
            r matches Err(e) ==> e == StoreError::Storage || e == StoreError::Corruption,
            r is Ok && old(self)@.consistent() ==> final(self)@.consistent(),
    {
        let ghost before = self@;
        let ghost all = op_views(ops@);
        let mut applied: usize = 0;
        let mut i: usize = 0;
        proof {
            reveal(Seq::filter);
            assert(all.take(0) =~= Seq::<OpView>::empty());
        }
        while i < ops.len()
            invariant
                self.place() == old(self).place(),
                i <= ops.len(),
                all == op_views(ops@),
                applied <= i,
                applied == all.take(i as int).filter(valid_ops()).len(),
                self@ == before.after_all(all.take(i as int).filter(valid_ops())),
                before.consistent() ==> self@.consistent(),
            decreases ops.len() - i,
        {
            let ghost done = all.take(i as int).filter(valid_ops());
            proof {
                reveal(Seq::filter);
                assert(all.take(i + 1).drop_last() =~= all.take(i as int));
                assert(all.take(i + 1).last() == all[i as int]);
                if op_valid(all[i as int]) {
                    assert(done.push(all[i as int]).drop_last() =~= done);
                }
            }
            match self.apply(&ops[i]) {
                Ok(()) => {
                    applied += 1;
                },
                Err(StoreError::Encoding) => {},
                Err(e) => {
                    return Err(e);
                },
            }
            i += 1;
        }
        assert(all.take(i as int) =~= all);
        Ok(applied)
    }

    /// Inserts the records `records` one after the other, each under its
    /// own key: what an import reads. Where a document among them would be
    /// refused, nothing is written.
    pub fn import(&mut self, records: &Vec<(String, Document)>) -> (r: Result<usize, StoreError>)
        ensures
            final(self).place() == old(self).place(),
            !all_valid(insertions(record_views(records@))) ==> r == Err::<usize, StoreError>(
                StoreError::Encoding,
            ),
            !all_valid(insertions(record_views(records@))) ==> final(self)@ == old(self)@,
            all_valid(insertions(record_views(records@))) ==> (r matches Ok(n) ==> n
                == records.len() && final(self)@ == old(self)@.after_all(
                insertions(record_views(records@)),
            )),
            all_valid(insertions(record_views(records@))) ==> (r matches Err(e) ==> e
                == StoreError::Storage),
            r is Ok && old(self)@.consistent() ==> final(self)@.consistent(),
    {
        let ghost all = insertions(record_views(records@));
        let mut k: usize = 0;
        while k < records.len()
            invariant
                self.place() == old(self).place(),
                k <= records.len(),
                all == insertions(record_views(records@)),
                forall|j: int| 0 <= j < k ==> op_valid(#[trigger] all[j]),
            decreases records.len() - k,
        {
            if document_entry_keys(records[k].0.as_str().as_bytes(), &records[k].1).is_err() {
                assert(!op_valid(all[k as int]));
                return Err(StoreError::Encoding);
            }
            k += 1;
        }
        let ghost before = self@;
        let mut i: usize = 0;
        assert(all.take(0) =~= Seq::<OpView>::empty());
        while i < records.len()
            invariant
                self.place() == old(self).place(),
                i <= records.len(),
                all == insertions(record_views(records@)),
                all_valid(all),
                self@ == before.after_all(all.take(i as int)),
                before.consistent() ==> self@.consistent(),
            decreases records.len() - i,
        {
            proof {
                assert(all.take(i + 1).drop_last() =~= all.take(i as int));
                assert(all.take(i + 1).last() == all[i as int]);
                assert(op_valid(all[i as int]));
            }
            match self.put(records[i].0.as_str().as_bytes(), &records[i].1) {
                Ok(()) => {},
                Err(e) => {
                    return Err(e);
                },
            }
            i += 1;
        }
        assert(all.take(i as int) =~= all);
        Ok(records.len())
    }

    /// Takes out of the index every entry whose owner is absent from the
    /// primary store: what a start does after a stop on the way. Gives back
    /// how many entries went.
    pub fn reconcile(&mut self) -> (r: Result<usize, StoreError>)
        ensures
            final(self).place() == old(self).place(),
            r is Ok ==> final(self)@ == old(self)@.reconciled() && final(self)@.no_orphans(),
            r is Ok && old(self)@.consistent() ==> final(self)@ == old(self)@,
            r matches Err(e) ==> e == StoreError::Storage,
    {
        proof {
            if self@.consistent() {
                lemma_reconcile_consistent(self@);
            }
        }
        let found = match engine_scan_all(&self.index) {
            Ok(found) => found,
            Err(_) => {
                return Err(StoreError::Storage);
            },
        };
        let ghost before = self@;
        let ghost all = pairs(found@);
        let mut gone: usize = 0;
        let mut i: usize = 0;
        while i < found.len()
            invariant
                self.place() == old(self).place(),
                i <= found.len(),
                gone <= i,
                all == pairs(found@),
                lists(all, before.index, every_key()),
                self@.data == before.data,
                forall|k: Seq<u8>| #[trigger]
                    self@.index.contains_key(k) ==> before.index.contains_key(k) && self@.index[k]
                        == before.index[k],
                forall|j: int|
                    0 <= j < i ==> (self@.index.contains_key(#[trigger] all[j].0)
                        == before.data.contains_key(all[j].1)),
                forall|j: int|
                    i <= j < all.len() ==> self@.index.contains_key(#[trigger] all[j].0),
            decreases found.len() - i,
        {
            let ghost here = all[i as int];
            let ghost index_before = self@.index;
            let present = match engine_get(&self.data, found[i].1.as_slice()) {
                Ok(v) => v.is_some(),
                Err(_) => {
                    return Err(StoreError::Storage);
                },
            };
            if !present {
                match engine_remove(&mut self.index, found[i].0.as_slice()) {
                    Ok(_) => {},
                    Err(_) => {
                        return Err(StoreError::Storage);
                    },
                }
                gone += 1;
                proof {
                    assert forall|j: int| 0 <= j < all.len() && j != i implies all[j].0
                        != here.0 by {
                        if j < i {
                            lemma_lex_irreflexive(here.0);
                            assert(lex_lt(all[j].0, all[i as int].0));
                        } else {
                            lemma_lex_irreflexive(here.0);
                            assert(lex_lt(all[i as int].0, all[j].0));
                        }
                    }
                }
            }
            i += 1;
        }
        proof {
            let after = self@;
            let want = before.reconciled();
            assert forall|k: Seq<u8>| #[trigger]
                after.index.dom().contains(k) == want.index.dom().contains(k) by {
                if before.index.contains_key(k) {
                    let j = choose|j: int| 0 <= j < all.len() && #[trigger] all[j].0 == k;
                    assert(all[j].1 == before.index[k]);
                }
            }
            assert(after.index =~= want.index);
        }
        Ok(gone)
    }
}

} // verus!
