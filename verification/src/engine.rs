//! The ordered key-value engine under the store: sled, behind contracts
//! that Verus takes on trust. A store handle is held by one owner and never
//! cloned, so that what it holds changes only through the calls below.

use crate::bytes::{has_prefix, lex_le, lex_lt};
use vstd::prelude::*;

verus! {

/// The engine's handle on one store.
#[verifier::external_type_specification]
#[verifier::external_body]
pub struct ExDb(sled::Db);

/// The engine's error.
#[verifier::external_type_specification]
#[verifier::external_body]
pub struct ExEngineError(sled::Error);

/// What a store holds: each key with its value.
pub uninterp spec fn stored(db: sled::Db) -> Map<Seq<u8>, Seq<u8>>;

/// Where a store lies: the path that its handle was opened with. A handle
/// keeps it for as long as it lasts.
pub uninterp spec fn opened_at(db: sled::Db) -> Seq<char>;

/// A list of entries as the contracts see it.
pub open spec fn pairs(v: Seq<(Vec<u8>, Vec<u8>)>) -> Seq<(Seq<u8>, Seq<u8>)> {
    Seq::new(v.len(), |i: int| (v[i].0@, v[i].1@))
}

/// The keys of a list of entries rise strictly.
pub open spec fn ascending(s: Seq<(Seq<u8>, Seq<u8>)>) -> bool {
    forall|i: int, j: int| 0 <= i < j < s.len() ==> lex_lt(#[trigger] s[i].0, #[trigger] s[j].0)
}

/// `s` lists the entries of `m` whose keys `keep` admits: each of them
/// once, in the order of their keys, and nothing else.
pub open spec fn lists(
    s: Seq<(Seq<u8>, Seq<u8>)>,
    m: Map<Seq<u8>, Seq<u8>>,
    keep: spec_fn(Seq<u8>) -> bool,
) -> bool {
    &&& ascending(s)
    &&& forall|i: int|
        0 <= i < s.len() ==> m.contains_key(#[trigger] s[i].0) && m[s[i].0] == s[i].1 && keep(
            s[i].0,
        )
    &&& forall|k: Seq<u8>|
        m.contains_key(k) && keep(k) ==> exists|i: int| 0 <= i < s.len() && #[trigger] s[i].0 == k
}

/// The keys that start with `prefix`.
pub open spec fn with_prefix(prefix: Seq<u8>) -> spec_fn(Seq<u8>) -> bool {
    |k: Seq<u8>| has_prefix(k, prefix)
}

/// The keys from `lo`, included, to `hi`, not included.
pub open spec fn between(lo: Seq<u8>, hi: Seq<u8>) -> spec_fn(Seq<u8>) -> bool {
    |k: Seq<u8>| lex_le(lo, k) && lex_lt(k, hi)
}

/// Every key.
pub open spec fn every_key() -> spec_fn(Seq<u8>) -> bool {
    |k: Seq<u8>| true
}

/// `sled::open`: the store at `path`, created where there is none. The
/// handle is one opened with `path`; nothing is claimed of what the store
/// holds.
#[verifier::external_body]
pub(crate) fn engine_open(path: &str) -> (r: Result<sled::Db, sled::Error>)
    ensures
        r matches Ok(db) ==> opened_at(db) == path@,
{
    sled::open(path)
}

/// `sled::Config::open` on a temporary configuration: a store at a path of
/// its own, which is removed when the handle is dropped. Nothing is claimed
/// of what it holds.
#[verifier::external_body]
pub(crate) fn engine_open_temporary() -> (r: Result<sled::Db, sled::Error>) {
    sled::Config::new().temporary(true).open()
}

/// `sled::Tree::get` on the default tree: the value of `key`, if the store
/// has the key.
#[verifier::external_body]
pub(crate) fn engine_get(db: &sled::Db, key: &[u8]) -> (r: Result<Option<Vec<u8>>, sled::Error>)
    ensures
        r matches Ok(found) ==> {
            &&& found is Some == stored(*db).contains_key(key@)
            &&& found matches Some(v) ==> v@ == stored(*db)[key@]
        },
{
    db.get(key).map(|o| o.map(|v| v.to_vec()))
}

/// `sled::Tree::insert` on the default tree: on success the key has the
/// value and nothing else has changed; the value that the key had comes
/// back. Nothing is claimed of what the store holds after a failure. The
/// store lies where it lay, whatever comes back.
#[verifier::external_body]
pub(crate) fn engine_put(db: &mut sled::Db, key: &[u8], value: &[u8]) -> (r: Result<
    Option<Vec<u8>>,
    sled::Error,
>)
    ensures
        opened_at(*final(db)) == opened_at(*old(db)),
        r matches Ok(prev) ==> {
            &&& stored(*final(db)) == stored(*old(db)).insert(key@, value@)
            &&& prev is Some == stored(*old(db)).contains_key(key@)
            &&& prev matches Some(p) ==> p@ == stored(*old(db))[key@]
        },
{
    db.insert(key, value).map(|o| o.map(|v| v.to_vec()))
}

/// `sled::Tree::remove` on the default tree: on success the key is gone and
/// nothing else has changed; the value that the key had comes back. Nothing
/// is claimed of what the store holds after a failure. The store lies where
/// it lay, whatever comes back.
#[verifier::external_body]
pub(crate) fn engine_remove(db: &mut sled::Db, key: &[u8]) -> (r: Result<
    Option<Vec<u8>>,
    sled::Error,
>)
    ensures
        opened_at(*final(db)) == opened_at(*old(db)),
        r matches Ok(prev) ==> {
            &&& stored(*final(db)) == stored(*old(db)).remove(key@)
            &&& prev is Some == stored(*old(db)).contains_key(key@)
            &&& prev matches Some(p) ==> p@ == stored(*old(db))[key@]
        },
{
    db.remove(key).map(|o| o.map(|v| v.to_vec()))
}

/// `sled::Tree::scan_prefix` on the default tree, read to its end: the
/// entries whose keys start with `prefix`, in the order of their keys.
#[verifier::external_body]
pub(crate) fn engine_scan_prefix(db: &sled::Db, prefix: &[u8]) -> (r: Result<
    Vec<(Vec<u8>, Vec<u8>)>,
    sled::Error,
>)
    ensures
        r matches Ok(found) ==> lists(pairs(found@), stored(*db), with_prefix(prefix@)),
{
    db.scan_prefix(prefix).map(|e| e.map(|(k, v)| (k.to_vec(), v.to_vec()))).collect()
}

/// `sled::Tree::range` on the default tree, read to its end: the entries
/// whose keys lie from `lo`, included, to `hi`, not included, in the order
/// of their keys.
#[verifier::external_body]
pub(crate) fn engine_range(db: &sled::Db, lo: &[u8], hi: &[u8]) -> (r: Result<
    Vec<(Vec<u8>, Vec<u8>)>,
    sled::Error,
>)
    ensures
        r matches Ok(found) ==> lists(pairs(found@), stored(*db), between(lo@, hi@)),
{
    db.range(lo..hi).map(|e| e.map(|(k, v)| (k.to_vec(), v.to_vec()))).collect()
}

/// `sled::Tree::iter` on the default tree, read to its end: every entry, in
/// the order of the keys.
#[verifier::external_body]
pub(crate) fn engine_scan_all(db: &sled::Db) -> (r: Result<Vec<(Vec<u8>, Vec<u8>)>, sled::Error>)
    ensures
        r matches Ok(found) ==> lists(pairs(found@), stored(*db), every_key()),
{
    db.iter().map(|e| e.map(|(k, v)| (k.to_vec(), v.to_vec()))).collect()
}

/// `sled::Tree::flush` on the default tree: writes what is pending to disk.
/// The handle is read only, so what the store holds does not change.
#[verifier::external_body]
pub(crate) fn engine_flush(db: &sled::Db) -> (r: Result<usize, sled::Error>) {
    db.flush()
}

} // verus!
