//! What the queries return, stated over the two maps of the store, and the
//! parts of the queries that need no engine.

use crate::bytes::{
    contains_slice, is_substring, lemma_lex_asymmetric, lemma_lex_irreflexive, lex_lt,
};
use crate::codec::{Value, ValueView};
use crate::document::{lookup, parse_doc, DocView, Document};
use crate::engine::lists;
use vstd::prelude::*;
use vstd::utf8::{decode_utf8, encode_utf8, valid_utf8};

verus! {

/// An entry of the engine: a key and its value.
pub type Entry = (Seq<u8>, Seq<u8>);

/// The entries of `m` whose keys `keep` admits, in the order of their keys.
pub open spec fn listing(m: Map<Seq<u8>, Seq<u8>>, keep: spec_fn(Seq<u8>) -> bool) -> Seq<Entry> {
    choose|s: Seq<Entry>| lists(s, m, keep)
}

/// What `f` makes of the items of `s`, in their order, without the items of
/// which it makes nothing.
pub open spec fn filter_map<A, B>(s: Seq<A>, f: spec_fn(A) -> Option<B>) -> Seq<B>
    decreases s.len(),
{
    if s.len() == 0 {
        Seq::empty()
    } else {
        let rest = filter_map(s.drop_last(), f);
        match f(s.last()) {
            Some(b) => rest.push(b),
            None => rest,
        }
    }
}

/// The owner that an index entry names.
pub open spec fn owner() -> spec_fn(Entry) -> Option<Seq<u8>> {
    |e: Entry| Some(e.1)
}

/// The document that an index entry leads to: none where the owner is
/// absent from the primary store or its bytes are no stored form.
pub open spec fn follow(data: Map<Seq<u8>, Seq<u8>>) -> spec_fn(Entry) -> Option<DocView> {
    |e: Entry|
        if data.contains_key(e.1) {
            parse_doc(data[e.1])
        } else {
            None
        }
}

/// The document that an entry of the primary store holds.
pub open spec fn held() -> spec_fn(Entry) -> Option<DocView> {
    |e: Entry| parse_doc(e.1)
}

/// The key of an entry of the primary store whose bytes are no stored
/// form: what a walk through the documents passes over.
pub open spec fn unreadable_key() -> spec_fn(Entry) -> Option<Seq<u8>> {
    |e: Entry|
        if parse_doc(e.1) is None {
            Some(e.0)
        } else {
            None
        }
}

/// An index entry that leads to no document, because its owner is absent
/// from the primary store or does not decode: what a query passes over.
pub open spec fn leads_nowhere(data: Map<Seq<u8>, Seq<u8>>) -> spec_fn(Entry) -> Option<Entry> {
    |e: Entry|
        if data.contains_key(e.1) && parse_doc(data[e.1]) is Some {
            None
        } else {
            Some(e)
        }
}

/// The key of an entry of the primary store as a text: none where the key
/// is not UTF-8.
pub open spec fn key_text() -> spec_fn(Entry) -> Option<Seq<char>> {
    |e: Entry|
        if valid_utf8(e.0) {
            Some(decode_utf8(e.0))
        } else {
            None
        }
}

/// The key and the document of an entry of the primary store.
pub open spec fn record() -> spec_fn(Entry) -> Option<(Seq<char>, DocView)> {
    |e: Entry|
        if valid_utf8(e.0) && parse_doc(e.1) is Some {
            Some((decode_utf8(e.0), parse_doc(e.1)->0))
        } else {
            None
        }
}

/// Whether some text field of `d` holds `needle`: case-sensitive, exact,
/// on the UTF-8 bytes.
pub open spec fn matches_text(d: DocView, needle: Seq<u8>) -> bool {
    exists|i: int|
        0 <= i < d.len() && (#[trigger] d[i]).1 is Text && is_substring(
            needle,
            encode_utf8(d[i].1->Text_0),
        )
}

/// The document that an entry of the primary store holds, where some text
/// field of it holds `needle`.
pub open spec fn held_matching(needle: Seq<u8>) -> spec_fn(Entry) -> Option<DocView> {
    |e: Entry|
        if parse_doc(e.1) is Some && matches_text(parse_doc(e.1)->0, needle) {
            parse_doc(e.1)
        } else {
            None
        }
}

/// The number that the field `name` of `d` holds, if it holds one.
pub open spec fn number_of(d: DocView, name: Seq<char>) -> Option<int> {
    match lookup(d, name) {
        Some(ValueView::Number(n)) => Some(n),
        _ => None,
    }
}

/// How many of `docs` hold a number in the field `name`.
pub open spec fn count_of(docs: Seq<DocView>, name: Seq<char>) -> nat
    decreases docs.len(),
{
    if docs.len() == 0 {
        0
    } else {
        count_of(docs.drop_last(), name) + if number_of(docs.last(), name) is Some {
            1nat
        } else {
            0nat
        }
    }
}

/// The sum of the numbers that `docs` hold in the field `name`.
pub open spec fn sum_of(docs: Seq<DocView>, name: Seq<char>) -> int
    decreases docs.len(),
{
    if docs.len() == 0 {
        0
    } else {
        sum_of(docs.drop_last(), name) + match number_of(docs.last(), name) {
            Some(n) => n,
            None => 0,
        }
    }
}

/// One step of `filter_map`.
pub proof fn lemma_filter_map_step<A, B>(s: Seq<A>, f: spec_fn(A) -> Option<B>, i: int)
    requires
        0 <= i < s.len(),
    ensures
        filter_map(s.take(i + 1), f) == match f(s[i]) {
            Some(b) => filter_map(s.take(i), f).push(b),
            None => filter_map(s.take(i), f),
        },
{
    assert(s.take(i + 1).drop_last() =~= s.take(i));
    assert(s.take(i + 1).last() == s[i]);
}

/// Two lists of the same entries agree on their first `n` places.
proof fn lemma_lists_agree(
    s1: Seq<Entry>,
    s2: Seq<Entry>,
    m: Map<Seq<u8>, Seq<u8>>,
    keep: spec_fn(Seq<u8>) -> bool,
    n: int,
)
    requires
        lists(s1, m, keep),
        lists(s2, m, keep),
        0 <= n <= s1.len(),
    ensures
        n <= s2.len(),
        forall|j: int| 0 <= j < n ==> s1[j] == s2[j],
    decreases n,
{
    if n > 0 {
        let i = n - 1;
        lemma_lists_agree(s1, s2, m, keep, i);
        let k = s1[i].0;
        assert(m.contains_key(k) && keep(k));
        let p = choose|p: int| 0 <= p < s2.len() && #[trigger] s2[p].0 == k;
        if p < i {
            assert(s1[p] == s2[p]);
            assert(lex_lt(s1[p].0, s1[i].0));
            lemma_lex_irreflexive(k);
        }
        let k2 = s2[i].0;
        assert(m.contains_key(k2) && keep(k2));
        let q = choose|q: int| 0 <= q < s1.len() && #[trigger] s1[q].0 == k2;
        if q < i {
            assert(s1[q] == s2[q]);
            assert(lex_lt(s2[q].0, s2[i].0));
            lemma_lex_irreflexive(k2);
        }
        if p > i {
            assert(lex_lt(s2[i].0, s2[p].0));
            if q > i {
                assert(lex_lt(s1[i].0, s1[q].0));
                lemma_lex_asymmetric(k, k2);
            } else {
                lemma_lex_irreflexive(k);
            }
        }
        assert(s1[i].1 == m[k]);
        assert(s2[i].1 == m[k]);
    }
}

/// There is one list of the entries that `keep` admits: two lists of them
/// are equal.
pub proof fn lemma_lists_unique(
    s1: Seq<Entry>,
    s2: Seq<Entry>,
    m: Map<Seq<u8>, Seq<u8>>,
    keep: spec_fn(Seq<u8>) -> bool,
)
    requires
        lists(s1, m, keep),
        lists(s2, m, keep),
    ensures
        s1 == s2,
{
    lemma_lists_agree(s1, s2, m, keep, s1.len() as int);
    lemma_lists_agree(s2, s1, m, keep, s2.len() as int);
    assert(s1 =~= s2);
}

/// A list of the entries that `keep` admits is the listing of them.
pub proof fn lemma_listing(s: Seq<Entry>, m: Map<Seq<u8>, Seq<u8>>, keep: spec_fn(Seq<u8>) -> bool)
    requires
        lists(s, m, keep),
    ensures
        listing(m, keep) == s,
        lists(listing(m, keep), m, keep),
{
    lemma_lists_unique(listing(m, keep), s, m, keep);
}

/// Whether some text field of `doc` holds `needle`.
pub fn document_matches(doc: &Document, needle: &[u8]) -> (r: bool)
    ensures
        r == matches_text(doc@, needle@),
{
    let n = doc.len();
    let mut i: usize = 0;
    while i < n
        invariant
            i <= n,
            n == doc@.len(),
            forall|j: int|
                0 <= j < i ==> !((#[trigger] doc@[j]).1 is Text && is_substring(
                    needle@,
                    encode_utf8(doc@[j].1->Text_0),
                )),
        decreases n - i,
    {
        match doc.value_at(i) {
            Value::Text(s) => {
                if contains_slice(s.as_str().as_bytes(), needle) {
                    assert(doc@[i as int].1 is Text);
                    return true;
                }
            },
            _ => {},
        }
        i += 1;
    }
    false
}

/// The number that the field `name` of `doc` holds, if it holds one.
pub fn document_number(doc: &Document, name: &String) -> (r: Option<i64>)
    ensures
        r matches Some(n) ==> number_of(doc@, name@) == Some(n as int),
        r is None ==> number_of(doc@, name@) is None,
{
    match doc.get(name) {
        Some(Value::Number(n)) => Some(*n),
        _ => None,
    }
}

/// What an aggregate computes.
#[derive(Clone, Copy, Debug, PartialEq, Eq, Structural)]
pub enum AggregateOp {
    Sum,
    Count,
    Avg,
}

/// The result of an aggregate. An average is held as the sum and the count
/// that it is the quotient of; the average of no number is undefined, which
/// is not zero.
#[derive(Clone, Copy, Debug, PartialEq, Eq, Structural)]
pub enum Aggregate {
    Sum(i128),
    Count(u64),
    Average { sum: i128, count: u64 },
    Undefined,
}

/// The result of `op` where `count` numbers add up to `sum`.
pub open spec fn aggregate_of(op: AggregateOp, sum: int, count: nat) -> Aggregate {
    match op {
        AggregateOp::Sum => Aggregate::Sum(sum as i128),
        AggregateOp::Count => Aggregate::Count(count as u64),
        AggregateOp::Avg => if count == 0 {
            Aggregate::Undefined
        } else {
            Aggregate::Average { sum: sum as i128, count: count as u64 }
        },
    }
}

/// The aggregate `op` over the numbers that `docs` hold in the field
/// `name`. Documents without the field, or with another type of value in
/// it, do not count.
pub fn aggregate_documents(docs: &Vec<Document>, name: &String, op: AggregateOp) -> (r: Aggregate)
    ensures
        r == aggregate_of(
            op,
            sum_of(doc_views(docs@), name@),
            count_of(doc_views(docs@), name@),
        ),
        i128::MIN <= sum_of(doc_views(docs@), name@) <= i128::MAX,
        count_of(doc_views(docs@), name@) <= u64::MAX,
{
    let ghost all = doc_views(docs@);
    let mut sum: i128 = 0;
    let mut count: u64 = 0;
    let mut i: usize = 0;
    assert(all.take(0) =~= Seq::<DocView>::empty());
    while i < docs.len()
        invariant
            i <= docs.len(),
            all == doc_views(docs@),
            sum == sum_of(all.take(i as int), name@),
            count == count_of(all.take(i as int), name@),
            count <= i,
            count * i64::MIN <= sum <= count * i64::MAX,
        decreases docs.len() - i,
    {
        proof {
            assert(all.take(i + 1).drop_last() =~= all.take(i as int));
            assert(all.take(i + 1).last() == docs@[i as int]@);
        }
        match document_number(&docs[i], name) {
            Some(n) => {
                sum = sum + n as i128;
                count = count + 1;
            },
            None => {},
        }
        i += 1;
    }
    assert(all.take(i as int) =~= all);
    match op {
        AggregateOp::Sum => Aggregate::Sum(sum),
        AggregateOp::Count => Aggregate::Count(count),
        AggregateOp::Avg => if count == 0 {
            Aggregate::Undefined
        } else {
            Aggregate::Average { sum, count }
        },
    }
}

/// A list of documents as the contracts see it.
pub open spec fn doc_views(docs: Seq<Document>) -> Seq<DocView> {
    Seq::new(docs.len(), |i: int| docs[i]@)
}

} // verus!
