//! The keys of the secondary index: a field's name, the bytes of its value
//! and the key of the document that owns them, parted by a separator.

use crate::bytes::{
    append_bytes, contains_byte, has_prefix, lemma_lex_common_prefix, lex_le, lex_lt, views,
};
use crate::codec::{
    canonical, encode_value, indexable, text_indexable,
    Value, ValueView, SEPARATOR, TAG_BOOL, TAG_NULL, TAG_NUMBER, TAG_STRUCTURED, TAG_TEXT,
};
use crate::document::{DocView, Document, FieldView};
use crate::error::StoreError;
use crate::number::{biased, lemma_be_bytes_len, lemma_number_order, number_bytes};
use vstd::prelude::*;
use vstd::utf8::{encode_utf8, encode_utf8_decode_utf8};

verus! {

/// What every index key of the pair `(field, v)` starts with: the name, the
/// separator, the bytes of the value, the separator.
pub open spec fn entry_prefix(field: Seq<char>, v: ValueView) -> Seq<u8> {
    encode_utf8(field) + seq![SEPARATOR] + canonical(v) + seq![SEPARATOR]
}

/// The index key of the pair `(field, v)` in the document `doc_key`: the
/// prefix of the pair, then the document's key. The document's key makes
/// the index keys of two documents differ where they share a pair.
pub open spec fn entry_key(field: Seq<char>, v: ValueView, doc_key: Seq<u8>) -> Seq<u8> {
    entry_prefix(field, v) + doc_key
}

/// Where a range over the values of `field` begins or ends at `v`: the
/// name, the separator, the bytes of the value.
pub open spec fn range_bound(field: Seq<char>, v: ValueView) -> Seq<u8> {
    encode_utf8(field) + seq![SEPARATOR] + canonical(v)
}

/// Whether a field can enter the index.
pub open spec fn field_indexable(f: FieldView) -> bool {
    text_indexable(f.0) && indexable(f.1)
}

/// Whether every field of a document can enter the index.
pub open spec fn doc_indexable(d: DocView) -> bool {
    forall|i: int| 0 <= i < d.len() ==> field_indexable(#[trigger] d[i])
}

/// The index keys of a document: one for each of its fields, in their
/// order.
pub open spec fn entry_keys(doc_key: Seq<u8>, d: DocView) -> Seq<Seq<u8>> {
    Seq::new(d.len(), |i: int| entry_key(d[i].0, d[i].1, doc_key))
}

/// Two strings without the separator, each followed by the separator, end
/// at the same place in what they start.
pub proof fn lemma_first_separator(a: Seq<u8>, b: Seq<u8>, r1: Seq<u8>, r2: Seq<u8>)
    requires
        !a.contains(SEPARATOR),
        !b.contains(SEPARATOR),
        a + seq![SEPARATOR] + r1 == b + seq![SEPARATOR] + r2,
    ensures
        a == b,
        r1 == r2,
    decreases a.len(),
{
    let x = a + seq![SEPARATOR] + r1;
    let y = b + seq![SEPARATOR] + r2;
    if a.len() == 0 {
        assert(x[0] == SEPARATOR);
        if b.len() > 0 {
            assert(y[0] == b[0]);
            assert(b.contains(b[0]));
        }
        assert(a =~= b);
        assert(r1 =~= x.skip(1));
        assert(r2 =~= y.skip(1));
    } else {
        assert(x[0] == a[0]);
        assert(a.contains(a[0]));
        if b.len() == 0 {
            assert(y[0] == SEPARATOR);
        }
        assert(y[0] == b[0]);
        let a1 = a.drop_first();
        let b1 = b.drop_first();
        assert forall|i: int| 0 <= i < a1.len() implies a1[i] != SEPARATOR by {
            assert(a.contains(a[i + 1]));
        }
        assert forall|i: int| 0 <= i < b1.len() implies b1[i] != SEPARATOR by {
            assert(b.contains(b[i + 1]));
        }
        assert(x.drop_first() =~= a1 + seq![SEPARATOR] + r1);
        assert(y.drop_first() =~= b1 + seq![SEPARATOR] + r2);
        lemma_first_separator(a1, b1, r1, r2);
        assert(a =~= seq![a[0]] + a1);
        assert(b =~= seq![b[0]] + b1);
    }
}

proof fn lemma_delimited_number(n: int, m: int, r1: Seq<u8>, r2: Seq<u8>)
    requires
        i64::MIN <= n <= i64::MAX,
        i64::MIN <= m <= i64::MAX,
        seq![TAG_NUMBER] + number_bytes(n) + seq![SEPARATOR] + r1 == seq![TAG_NUMBER]
            + number_bytes(m) + seq![SEPARATOR] + r2,
    ensures
        n == m,
        r1 == r2,
{
    let x = seq![TAG_NUMBER] + number_bytes(n) + seq![SEPARATOR] + r1;
    let y = seq![TAG_NUMBER] + number_bytes(m) + seq![SEPARATOR] + r2;
    lemma_be_bytes_len(biased(n), 8);
    lemma_be_bytes_len(biased(m), 8);
    assert(number_bytes(n) =~= x.subrange(1, 9));
    assert(number_bytes(m) =~= y.subrange(1, 9));
    lemma_number_order(n, m);
    assert(r1 =~= x.skip(10));
    assert(r2 =~= y.skip(10));
}

proof fn lemma_delimited_text(tag: u8, s: Seq<char>, t: Seq<char>, r1: Seq<u8>, r2: Seq<u8>)
    requires
        text_indexable(s),
        text_indexable(t),
        seq![tag] + encode_utf8(s) + seq![SEPARATOR] + r1 == seq![tag] + encode_utf8(t)
            + seq![SEPARATOR] + r2,
    ensures
        s == t,
        r1 == r2,
{
    let x = seq![tag] + encode_utf8(s) + seq![SEPARATOR] + r1;
    let y = seq![tag] + encode_utf8(t) + seq![SEPARATOR] + r2;
    assert(x.drop_first() =~= encode_utf8(s) + seq![SEPARATOR] + r1);
    assert(y.drop_first() =~= encode_utf8(t) + seq![SEPARATOR] + r2);
    lemma_first_separator(encode_utf8(s), encode_utf8(t), r1, r2);
    encode_utf8_decode_utf8(s);
    encode_utf8_decode_utf8(t);
}

proof fn lemma_delimited_short(u: ValueView, v: ValueView, r1: Seq<u8>, r2: Seq<u8>)
    requires
        u is Null || u is Bool,
        v is Null || v is Bool,
        canonical(u) + seq![SEPARATOR] + r1 == canonical(v) + seq![SEPARATOR] + r2,
    ensures
        u == v,
        r1 == r2,
{
    let x = canonical(u) + seq![SEPARATOR] + r1;
    let y = canonical(v) + seq![SEPARATOR] + r2;
    assert(x[0] == canonical(u)[0]);
    assert(y[0] == canonical(v)[0]);
    if u is Null {
        assert(r1 =~= x.skip(2));
        assert(r2 =~= y.skip(2));
    } else {
        assert(x[1] == canonical(u)[1]);
        assert(y[1] == canonical(v)[1]);
        assert(r1 =~= x.skip(3));
        assert(r2 =~= y.skip(3));
    }
}

/// The first byte of the bytes of a value tells its type.
proof fn lemma_tag(v: ValueView)
    ensures
        canonical(v).len() > 0,
        canonical(v)[0] == match v {
            ValueView::Null => TAG_NULL,
            ValueView::Bool(_) => TAG_BOOL,
            ValueView::Number(_) => TAG_NUMBER,
            ValueView::Text(_) => TAG_TEXT,
            ValueView::Structured(_) => TAG_STRUCTURED,
        },
{
}

/// The bytes of a value end where the separator follows them: of two
/// indexable values that start the same string, each followed by the
/// separator, neither is longer.
pub proof fn lemma_canonical_delimited(u: ValueView, v: ValueView, r1: Seq<u8>, r2: Seq<u8>)
    requires
        indexable(u),
        indexable(v),
        canonical(u) + seq![SEPARATOR] + r1 == canonical(v) + seq![SEPARATOR] + r2,
    ensures
        u == v,
        r1 == r2,
{
    let x = canonical(u) + seq![SEPARATOR] + r1;
    let y = canonical(v) + seq![SEPARATOR] + r2;
    lemma_tag(u);
    lemma_tag(v);
    assert(x[0] == canonical(u)[0]);
    assert(y[0] == canonical(v)[0]);
    match u {
        ValueView::Null => {
            lemma_delimited_short(u, v, r1, r2);
        },
        ValueView::Bool(_) => {
            lemma_delimited_short(u, v, r1, r2);
        },
        ValueView::Number(n) => {
            lemma_delimited_number(n, v->Number_0, r1, r2);
        },
        ValueView::Text(s) => {
            lemma_delimited_text(TAG_TEXT, s, v->Text_0, r1, r2);
        },
        ValueView::Structured(s) => {
            lemma_delimited_text(TAG_STRUCTURED, s, v->Structured_0, r1, r2);
        },
    }
}

/// An index key tells its field, its value and its document: two indexable
/// fields with the same index key are the same field of the same document.
pub proof fn lemma_entry_key_injective(
    f1: FieldView,
    k1: Seq<u8>,
    f2: FieldView,
    k2: Seq<u8>,
)
    requires
        field_indexable(f1),
        field_indexable(f2),
        entry_key(f1.0, f1.1, k1) == entry_key(f2.0, f2.1, k2),
    ensures
        f1 == f2,
        k1 == k2,
{
    let t1 = canonical(f1.1) + seq![SEPARATOR] + k1;
    let t2 = canonical(f2.1) + seq![SEPARATOR] + k2;
    assert(entry_key(f1.0, f1.1, k1) =~= encode_utf8(f1.0) + seq![SEPARATOR] + t1);
    assert(entry_key(f2.0, f2.1, k2) =~= encode_utf8(f2.0) + seq![SEPARATOR] + t2);
    lemma_first_separator(encode_utf8(f1.0), encode_utf8(f2.0), t1, t2);
    encode_utf8_decode_utf8(f1.0);
    encode_utf8_decode_utf8(f2.0);
    lemma_canonical_delimited(f1.1, f2.1, k1, k2);
}

/// An index key that starts with the prefix of a pair is a key of that
/// pair.
pub proof fn lemma_prefix_tells_pair(f: FieldView, k: Seq<u8>, probe: FieldView)
    requires
        field_indexable(f),
        field_indexable(probe),
        has_prefix(entry_key(f.0, f.1, k), entry_prefix(probe.0, probe.1)),
    ensures
        f == probe,
{
    let key = entry_key(f.0, f.1, k);
    let p = entry_prefix(probe.0, probe.1);
    let rest = key.skip(p.len() as int);
    assert(key =~= p + rest);
    lemma_entry_key_injective(f, k, probe, rest);
}

/// Every index key of a pair starts with the prefix of the pair.
pub proof fn lemma_entry_key_has_prefix(f: FieldView, k: Seq<u8>)
    ensures
        has_prefix(entry_key(f.0, f.1, k), entry_prefix(f.0, f.1)),
{
    let p = entry_prefix(f.0, f.1);
    assert((p + k).subrange(0, p.len() as int) =~= p);
}

/// With equal lengths, what follows the first string does not decide the
/// order, unless the strings are equal.
pub proof fn lemma_lex_equal_length(a: Seq<u8>, t: Seq<u8>, b: Seq<u8>)
    requires
        a.len() == b.len(),
    ensures
        lex_lt(a + t, b) == lex_lt(a, b),
        lex_lt(b, a + t) == (lex_lt(b, a) || (a == b && t.len() > 0)),
    decreases a.len(),
{
    if a.len() == 0 {
        assert(a =~= b);
        assert(a + t =~= t);
    } else {
        let a1 = a.drop_first();
        let b1 = b.drop_first();
        assert((a + t).drop_first() =~= a1 + t);
        assert((a + t)[0] == a[0]);
        lemma_lex_equal_length(a1, t, b1);
        if a1 == b1 && a[0] == b[0] {
            assert(a =~= seq![a[0]] + a1);
            assert(b =~= seq![b[0]] + b1);
        }
    }
}

/// Range ordering for numbers: the index key of a number lies between the
/// bounds of `start` and `end`, the first included and the second not,
/// exactly where the number lies between `start` and `end` so.
pub proof fn lemma_number_in_range(
    field: Seq<char>,
    n: int,
    doc_key: Seq<u8>,
    start: int,
    end: int,
)
    requires
        i64::MIN <= n <= i64::MAX,
        i64::MIN <= start <= i64::MAX,
        i64::MIN <= end <= i64::MAX,
    ensures
        (lex_le(
            range_bound(field, ValueView::Number(start)),
            entry_key(field, ValueView::Number(n), doc_key),
        ) && lex_lt(
            entry_key(field, ValueView::Number(n), doc_key),
            range_bound(field, ValueView::Number(end)),
        )) == (start <= n < end),
{
    let head = encode_utf8(field) + seq![SEPARATOR];
    let c = canonical(ValueView::Number(n));
    let cs = canonical(ValueView::Number(start));
    let ce = canonical(ValueView::Number(end));
    let t = seq![SEPARATOR] + doc_key;
    let key = entry_key(field, ValueView::Number(n), doc_key);
    let lo = range_bound(field, ValueView::Number(start));
    let hi = range_bound(field, ValueView::Number(end));
    assert(key =~= head + (c + t));
    assert(lo =~= head + cs);
    assert(hi =~= head + ce);
    lemma_lex_common_prefix(head, cs, c + t);
    lemma_lex_common_prefix(head, c + t, ce);
    lemma_be_bytes_len(biased(n), 8);
    lemma_be_bytes_len(biased(start), 8);
    lemma_be_bytes_len(biased(end), 8);
    lemma_lex_equal_length(c, t, cs);
    lemma_lex_equal_length(c, t, ce);
    lemma_number_order(start, n);
    lemma_number_order(n, end);
    lemma_lex_common_prefix(seq![TAG_NUMBER], number_bytes(start), number_bytes(n));
    lemma_lex_common_prefix(seq![TAG_NUMBER], number_bytes(n), number_bytes(end));
    if lo == key {
        assert(lo.len() == key.len());
    }
    if cs == c {
        assert(number_bytes(start) =~= cs.skip(1));
        assert(number_bytes(n) =~= c.skip(1));
    }
}

/// With equal lengths, two strings in order stay in order whatever follows
/// each.
pub proof fn lemma_lex_decided(a: Seq<u8>, t: Seq<u8>, b: Seq<u8>, u: Seq<u8>)
    requires
        a.len() == b.len(),
        lex_lt(a, b),
    ensures
        lex_lt(a + t, b + u),
    decreases a.len(),
{
    if a.len() > 0 {
        assert((a + t)[0] == a[0]);
        assert((b + u)[0] == b[0]);
        if a[0] == b[0] {
            assert((a + t).drop_first() =~= a.drop_first() + t);
            assert((b + u).drop_first() =~= b.drop_first() + u);
            lemma_lex_decided(a.drop_first(), t, b.drop_first(), u);
        }
    }
}

/// Range ordering for numbers: the index keys of one field come in the
/// order of its numbers, whatever the keys of the documents.
pub proof fn lemma_number_entries_ordered(
    field: Seq<char>,
    a: int,
    k1: Seq<u8>,
    b: int,
    k2: Seq<u8>,
)
    requires
        i64::MIN <= a < b <= i64::MAX,
    ensures
        lex_lt(
            entry_key(field, ValueView::Number(a), k1),
            entry_key(field, ValueView::Number(b), k2),
        ),
{
    let head = encode_utf8(field) + seq![SEPARATOR];
    let ca = canonical(ValueView::Number(a));
    let cb = canonical(ValueView::Number(b));
    let t1 = seq![SEPARATOR] + k1;
    let t2 = seq![SEPARATOR] + k2;
    assert(entry_key(field, ValueView::Number(a), k1) =~= head + (ca + t1));
    assert(entry_key(field, ValueView::Number(b), k2) =~= head + (cb + t2));
    lemma_be_bytes_len(biased(a), 8);
    lemma_be_bytes_len(biased(b), 8);
    lemma_number_order(a, b);
    lemma_lex_common_prefix(seq![TAG_NUMBER], number_bytes(a), number_bytes(b));
    lemma_lex_decided(ca, t1, cb, t2);
    lemma_lex_common_prefix(head, ca + t1, cb + t2);
}

/// A string without the separator, followed by the separator, compares
/// with another string without the separator as if nothing followed it,
/// but that it is above the string that it extends.
pub proof fn lemma_lex_delimited(u: Seq<u8>, r: Seq<u8>, w: Seq<u8>)
    requires
        !u.contains(SEPARATOR),
        !w.contains(SEPARATOR),
    ensures
        lex_lt(u + seq![SEPARATOR] + r, w) == lex_lt(u, w),
        lex_lt(w, u + seq![SEPARATOR] + r) == lex_le(w, u),
    decreases u.len(),
{
    let x = u + seq![SEPARATOR] + r;
    if w.len() > 0 {
        assert(w.contains(w[0]));
    }
    if u.len() == 0 {
        assert(x[0] == SEPARATOR);
        if w.len() == 0 {
            assert(w =~= u);
        }
    } else {
        assert(x[0] == u[0]);
        if w.len() > 0 && u[0] == w[0] {
            let u1 = u.drop_first();
            let w1 = w.drop_first();
            assert forall|i: int| 0 <= i < u1.len() implies u1[i] != SEPARATOR by {
                assert(u.contains(u[i + 1]));
            }
            assert forall|i: int| 0 <= i < w1.len() implies w1[i] != SEPARATOR by {
                assert(w.contains(w[i + 1]));
            }
            assert(x.drop_first() =~= u1 + seq![SEPARATOR] + r);
            lemma_lex_delimited(u1, r, w1);
            if w1 == u1 {
                assert(w =~= seq![w[0]] + w1);
                assert(u =~= seq![u[0]] + u1);
            }
        }
    }
}

/// Range ordering for texts: the index key of a text lies between the
/// bounds of `start` and `end`, the first included and the second not,
/// exactly where the UTF-8 bytes of the text lie between theirs so.
pub proof fn lemma_text_in_range(
    field: Seq<char>,
    s: Seq<char>,
    doc_key: Seq<u8>,
    start: Seq<char>,
    end: Seq<char>,
)
    requires
        text_indexable(s),
        text_indexable(start),
        text_indexable(end),
    ensures
        (lex_le(
            range_bound(field, ValueView::Text(start)),
            entry_key(field, ValueView::Text(s), doc_key),
        ) && lex_lt(
            entry_key(field, ValueView::Text(s), doc_key),
            range_bound(field, ValueView::Text(end)),
        )) == (lex_le(encode_utf8(start), encode_utf8(s)) && lex_lt(
            encode_utf8(s),
            encode_utf8(end),
        )),
{
    let head = encode_utf8(field) + seq![SEPARATOR] + seq![TAG_TEXT];
    let u = encode_utf8(s);
    let tail = u + seq![SEPARATOR] + doc_key;
    let key = entry_key(field, ValueView::Text(s), doc_key);
    let lo = range_bound(field, ValueView::Text(start));
    let hi = range_bound(field, ValueView::Text(end));
    assert(key =~= head + tail);
    assert(lo =~= head + encode_utf8(start));
    assert(hi =~= head + encode_utf8(end));
    lemma_lex_common_prefix(head, encode_utf8(start), tail);
    lemma_lex_common_prefix(head, tail, encode_utf8(end));
    lemma_lex_delimited(u, doc_key, encode_utf8(start));
    lemma_lex_delimited(u, doc_key, encode_utf8(end));
    if lo == key {
        assert(tail =~= key.skip(head.len() as int));
        assert(encode_utf8(start) =~= lo.skip(head.len() as int));
        assert(tail[u.len() as int] == SEPARATOR);
        assert(encode_utf8(start).contains(SEPARATOR));
    }
}

/// Among the index keys of one pair, the order is that of the keys of the
/// documents.
pub proof fn lemma_equal_entries_ordered(f: FieldView, k1: Seq<u8>, k2: Seq<u8>)
    ensures
        lex_lt(entry_key(f.0, f.1, k1), entry_key(f.0, f.1, k2)) == lex_lt(k1, k2),
{
    lemma_lex_common_prefix(entry_prefix(f.0, f.1), k1, k2);
}

/// The bytes of a text, where they may enter an index key.
fn indexable_text(s: &str) -> (r: Option<&[u8]>)
    ensures
        r is Some <==> text_indexable(s@),
        r matches Some(b) ==> b@ == encode_utf8(s@),
{
    let bytes = s.as_bytes();
    if contains_byte(bytes, SEPARATOR) {
        None
    } else {
        Some(bytes)
    }
}

/// What every index key of the pair `(field, value)` starts with.
pub fn entry_prefix_bytes(field: &str, value: &Value) -> (r: Result<Vec<u8>, StoreError>)
    ensures
        r is Ok <==> field_indexable((field@, value@)),
        r matches Ok(b) ==> b@ == entry_prefix(field@, value@),
        r matches Err(e) ==> e == StoreError::Encoding,
{
    let mut out = match range_bound_bytes(field, value) {
        Ok(b) => b,
        Err(e) => {
            return Err(e);
        },
    };
    out.push(SEPARATOR);
    assert(out@ =~= entry_prefix(field@, value@));
    Ok(out)
}

/// Where a range over the values of `field` begins or ends at `value`.
pub fn range_bound_bytes(field: &str, value: &Value) -> (r: Result<Vec<u8>, StoreError>)
    ensures
        r is Ok <==> field_indexable((field@, value@)),
        r matches Ok(b) ==> b@ == range_bound(field@, value@),
        r matches Err(e) ==> e == StoreError::Encoding,
{
    let name = match indexable_text(field) {
        Some(b) => b,
        None => {
            return Err(StoreError::Encoding);
        },
    };
    let bytes = match encode_value(value) {
        Ok(b) => b,
        Err(e) => {
            return Err(e);
        },
    };
    let mut out: Vec<u8> = Vec::new();
    append_bytes(&mut out, name);
    out.push(SEPARATOR);
    append_bytes(&mut out, bytes.as_slice());
    assert(out@ =~= range_bound(field@, value@));
    Ok(out)
}

/// The index key of the pair `(field, value)` in the document `doc_key`.
pub fn entry_key_bytes(field: &str, value: &Value, doc_key: &[u8]) -> (r: Result<
    Vec<u8>,
    StoreError,
>)
    ensures
        r is Ok <==> field_indexable((field@, value@)),
        r matches Ok(b) ==> b@ == entry_key(field@, value@, doc_key@),
        r matches Err(e) ==> e == StoreError::Encoding,
{
    let mut out = match entry_prefix_bytes(field, value) {
        Ok(b) => b,
        Err(e) => {
            return Err(e);
        },
    };
    append_bytes(&mut out, doc_key);
    Ok(out)
}

/// The index keys of a document, one for each field. A document with a
/// field that cannot enter the index has none.
pub fn document_entry_keys(doc_key: &[u8], doc: &Document) -> (r: Result<
    Vec<Vec<u8>>,
    StoreError,
>)
    ensures
        r is Ok <==> doc_indexable(doc@),
        r matches Ok(keys) ==> views(keys@) == entry_keys(doc_key@, doc@),
        r matches Err(e) ==> e == StoreError::Encoding,
{
    let mut keys: Vec<Vec<u8>> = Vec::new();
    let n = doc.len();
    let mut i: usize = 0;
    assert(views(keys@) =~= entry_keys(doc_key@, doc@).take(0));
    while i < n
        invariant
            i <= n,
            n == doc@.len(),
            views(keys@) == entry_keys(doc_key@, doc@).take(i as int),
            forall|j: int| 0 <= j < i ==> field_indexable(#[trigger] doc@[j]),
        decreases n - i,
    {
        let key = match entry_key_bytes(doc.name_at(i).as_str(), doc.value_at(i), doc_key) {
            Ok(b) => b,
            Err(e) => {
                assert(!field_indexable(doc@[i as int]));
                return Err(e);
            },
        };
        let ghost before = views(keys@);
        keys.push(key);
        assert(views(keys@) =~= before.push(key@));
        assert(entry_keys(doc_key@, doc@).take(i + 1) =~= entry_keys(doc_key@, doc@).take(
            i as int,
        ).push(key@));
        i += 1;
    }
    assert(entry_keys(doc_key@, doc@).take(i as int) =~= entry_keys(doc_key@, doc@));
    Ok(keys)
}

} // verus!
