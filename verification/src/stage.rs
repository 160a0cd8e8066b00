//! Staging: what a mutation will write, worked out before anything is
//! written.

use crate::bytes::{bytes_eq, views};
use crate::document::{distinct_names, storable, DocView, Document};
use crate::error::StoreError;
use crate::index::{doc_indexable, document_entry_keys};
use crate::model::{deletion, insertion, owned_entries, stale, MutationView};
use vstd::prelude::*;
use vstd::slice::slice_to_vec;

verus! {

/// A document as the contracts see it, where there may be none.
pub open spec fn doc_view(d: Option<&Document>) -> Option<DocView> {
    match d {
        Some(d) => Some(d@),
        None => None,
    }
}

/// One staged mutation: the key of a document, the stored form that it
/// gets, and the index keys that come and go with it.
pub struct MutationRecord {
    key: Vec<u8>,
    body: Option<Vec<u8>>,
    add: Vec<Vec<u8>>,
    retract: Vec<Vec<u8>>,
}

impl View for MutationRecord {
    type V = MutationView;

    closed spec fn view(&self) -> MutationView {
        MutationView {
            key: self.key@,
            body: match self.body {
                Some(b) => Some(b@),
                None => None,
            },
            add: views(self.add@),
            retract: views(self.retract@),
        }
    }
}

impl MutationRecord {
    /// The key of the document.
    pub fn key(&self) -> (r: &Vec<u8>)
        ensures
            r@ == self@.key,
    {
        &self.key
    }

    /// The stored form that the key gets; none where the document leaves.
    pub fn body(&self) -> (r: &Option<Vec<u8>>)
        ensures
            r is Some == self@.body is Some,
            r matches Some(b) ==> b@ == self@.body->0,
    {
        &self.body
    }

    /// The index keys that the document gets.
    pub fn added(&self) -> (r: &Vec<Vec<u8>>)
        ensures
            views(r@) == self@.add,
    {
        &self.add
    }

    /// The index keys that the document loses.
    pub fn retracted(&self) -> (r: &Vec<Vec<u8>>)
        ensures
            views(r@) == self@.retract,
    {
        &self.retract
    }
}

/// Whether `k` is among `keys`.
fn holds_key(keys: &Vec<Vec<u8>>, k: &[u8]) -> (r: bool)
    ensures
        r == views(keys@).contains(k@),
{
    let mut i: usize = 0;
    while i < keys.len()
        invariant
            i <= keys.len(),
            forall|j: int| 0 <= j < i ==> views(keys@)[j] != k@,
        decreases keys.len() - i,
    {
        if bytes_eq(keys[i].as_slice(), k) {
            assert(views(keys@)[i as int] == k@);
            return true;
        }
        i += 1;
    }
    false
}

/// Those of `before` that are not among `after`.
fn stale_keys(before: &Vec<Vec<u8>>, after: &Vec<Vec<u8>>) -> (r: Vec<Vec<u8>>)
    ensures
        views(r@) == stale(views(before@), views(after@)),
{
    let ghost pred = |k: Seq<u8>| !views(after@).contains(k);
    let mut out: Vec<Vec<u8>> = Vec::new();
    let mut i: usize = 0;
    proof {
        reveal(Seq::filter);
        assert(views(before@).take(0) =~= Seq::<Seq<u8>>::empty());
        assert(views(out@) =~= Seq::<Seq<u8>>::empty());
    }
    while i < before.len()
        invariant
            i <= before.len(),
            pred == (|k: Seq<u8>| !views(after@).contains(k)),
            views(out@) == views(before@).take(i as int).filter(pred),
        decreases before.len() - i,
    {
        let ghost head = views(before@).take(i as int);
        let ghost next = views(before@).take(i + 1);
        let ghost kept = views(out@);
        proof {
            reveal(Seq::filter);
            assert(next.drop_last() =~= head);
            assert(next.last() == before@[i as int]@);
        }
        if !holds_key(after, before[i].as_slice()) {
            out.push(slice_to_vec(before[i].as_slice()));
            assert(views(out@) =~= kept.push(before@[i as int]@));
        }
        i += 1;
    }
    assert(views(before@).take(i as int) =~= views(before@));
    out
}

/// The index keys that the content `was` gave the document `key`.
fn owned_keys(key: &[u8], was: Option<&Document>) -> (r: Vec<Vec<u8>>)
    ensures
        views(r@) == owned_entries(key@, doc_view(was)),
{
    let empty: Vec<Vec<u8>> = Vec::new();
    assert(views(empty@) =~= Seq::<Seq<u8>>::empty());
    match was {
        Some(d) => match document_entry_keys(key, d) {
            Ok(keys) => keys,
            Err(_) => empty,
        },
        None => empty,
    }
}

/// Stages the insertion of `doc` under `key`, where the content of the
/// document was `was`. A document with a field that cannot enter the index
/// is refused.
pub fn stage_insert(key: &[u8], doc: &Document, was: Option<&Document>) -> (r: Result<
    MutationRecord,
    StoreError,
>)
    ensures
        r is Ok <==> doc_indexable(doc@),
        r matches Ok(m) ==> m@ == insertion(key@, doc@, doc_view(was)),
        r is Ok ==> storable(doc@) && distinct_names(doc@),
        r matches Err(e) ==> e == StoreError::Encoding,
{
    let add = match document_entry_keys(key, doc) {
        Ok(keys) => keys,
        Err(e) => {
            return Err(e);
        },
    };
    let before = owned_keys(key, was);
    let retract = stale_keys(&before, &add);
    Ok(MutationRecord { key: slice_to_vec(key), body: Some(doc.encode()), add, retract })
}

/// Stages the removal of the document `key`, where its content was `was`.
pub fn stage_delete(key: &[u8], was: Option<&Document>) -> (m: MutationRecord)
    ensures
        m@ == deletion(key@, doc_view(was)),
{
    let add: Vec<Vec<u8>> = Vec::new();
    assert(views(add@) =~= Seq::<Seq<u8>>::empty());
    MutationRecord { key: slice_to_vec(key), body: None, add, retract: owned_keys(key, was) }
}

} // verus!
