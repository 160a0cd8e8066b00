//! Documents and the bytes under which the primary store keeps them.

use crate::bytes::append_bytes;
use crate::codec::{
    text_of_utf8, Value, ValueView, TAG_BOOL, TAG_NULL, TAG_NUMBER, TAG_STRUCTURED, TAG_TEXT,
};
use crate::number::{
    be_bytes, be_value, bias, biased, lemma_be_bytes_len, lemma_be_bytes_of_value,
    lemma_be_value_of_bytes, number_bytes, pow256, push_u64_be, read_u64_be, unbias,
};
use vstd::prelude::*;
use vstd::slice::{slice_subrange, slice_to_vec};
use vstd::utf8::{
    decode_utf8, decode_utf8_encode_utf8, encode_utf8, encode_utf8_decode_utf8,
    encode_utf8_valid_utf8, valid_utf8,
};

verus! {

/// A field as the contracts see it: its name and its value.
pub type FieldView = (Seq<char>, ValueView);

/// A document as the contracts see it: its fields in the order in which
/// they were first set.
pub type DocView = Seq<FieldView>;

/// Whether some field of `d` has the name `name`.
pub open spec fn has_field(d: DocView, name: Seq<char>) -> bool {
    exists|i: int| 0 <= i < d.len() && #[trigger] d[i].0 == name
}

/// The place of the field `name` in `d`.
pub open spec fn field_index(d: DocView, name: Seq<char>) -> int {
    choose|i: int| 0 <= i < d.len() && #[trigger] d[i].0 == name
}

/// The value of the field `name` in `d`.
pub open spec fn lookup(d: DocView, name: Seq<char>) -> Option<ValueView> {
    if has_field(d, name) {
        Some(d[field_index(d, name)].1)
    } else {
        None
    }
}

/// No name occurs twice: the document is a mapping from names to values.
pub open spec fn distinct_names(d: DocView) -> bool {
    forall|i: int, j: int| 0 <= i < j < d.len() ==> #[trigger] d[i].0 != #[trigger] d[j].0
}

/// The document `d` with the field `name` set to `v`: the value is replaced
/// where `d` has the field, the field is added at the end where it has not.
pub open spec fn set_field(d: DocView, name: Seq<char>, v: ValueView) -> DocView {
    if has_field(d, name) {
        d.update(field_index(d, name), (name, v))
    } else {
        d.push((name, v))
    }
}

/// Where no name occurs twice, the value of a field is the value at its
/// place.
pub proof fn lemma_lookup_at(d: DocView, i: int)
    requires
        distinct_names(d),
        0 <= i < d.len(),
    ensures
        has_field(d, d[i].0),
        field_index(d, d[i].0) == i,
        lookup(d, d[i].0) == Some(d[i].1),
{
    let j = field_index(d, d[i].0);
    assert(d[i].0 == d[i].0);
    if j < i {
        assert(d[j].0 != d[i].0);
    }
    if i < j {
        assert(d[i].0 != d[j].0);
    }
}

/// A document is a mapping: setting a field gives it the value, leaves the
/// other fields as they were, and keeps every name single.
pub proof fn lemma_set_field(d: DocView, name: Seq<char>, v: ValueView, other: Seq<char>)
    requires
        distinct_names(d),
    ensures
        distinct_names(set_field(d, name, v)),
        lookup(set_field(d, name, v), name) == Some(v),
        other != name ==> lookup(set_field(d, name, v), other) == lookup(d, other),
{
    let e = set_field(d, name, v);
    let at = if has_field(d, name) {
        field_index(d, name)
    } else {
        d.len() as int
    };
    assert(e[at] == (name, v));
    assert forall|i: int| 0 <= i < d.len() && i != at implies e[i] == d[i] by {}
    assert forall|i: int, j: int|
        0 <= i < j < e.len() implies #[trigger] e[i].0 != #[trigger] e[j].0 by {
        if has_field(d, name) {
            assert(d[i].0 != d[j].0);
        } else if j == at {
            assert(d[i].0 != name);
        } else {
            assert(d[i].0 != d[j].0);
        }
    }
    lemma_lookup_at(e, at);
    if other != name {
        if has_field(d, other) {
            let i = field_index(d, other);
            assert(i != at);
            assert(e[i].0 == other);
            lemma_lookup_at(d, i);
            lemma_lookup_at(e, i);
        } else if has_field(e, other) {
            let i = field_index(e, other);
            assert(i != at);
            assert(d[i].0 == other);
        }
    }
}

/// Whether two documents are the same mapping: every name has the same
/// value in both, or none in both. The order of the fields does not count.
pub open spec fn same_mapping(d: DocView, e: DocView) -> bool {
    forall|name: Seq<char>| #[trigger] lookup(d, name) == lookup(e, name)
}

/// A text whose length fits the eight bytes that the stored form has for it.
pub open spec fn text_storable(s: Seq<char>) -> bool {
    encode_utf8(s).len() < pow256(8)
}

/// A value that has a stored form.
pub open spec fn value_storable(v: ValueView) -> bool {
    match v {
        ValueView::Null => true,
        ValueView::Bool(_) => true,
        ValueView::Number(n) => i64::MIN <= n <= i64::MAX,
        ValueView::Text(s) => text_storable(s),
        ValueView::Structured(s) => text_storable(s),
    }
}

/// A document that has a stored form. Every document that exists at run
/// time has one.
pub open spec fn storable(d: DocView) -> bool {
    forall|i: int| 0 <= i < d.len() ==> text_storable(#[trigger] d[i].0) && value_storable(d[i].1)
}

/// The stored form of a text: eight bytes of length, then its UTF-8 bytes.
pub open spec fn text_record(s: Seq<char>) -> Seq<u8> {
    be_bytes(encode_utf8(s).len(), 8) + encode_utf8(s)
}

/// The stored form of a value: a tag, then what the type needs.
pub open spec fn value_record(v: ValueView) -> Seq<u8> {
    match v {
        ValueView::Null => seq![TAG_NULL],
        ValueView::Bool(b) => seq![TAG_BOOL, if b { 1u8 } else { 0u8 }],
        ValueView::Number(n) => seq![TAG_NUMBER] + number_bytes(n),
        ValueView::Text(s) => seq![TAG_TEXT] + text_record(s),
        ValueView::Structured(s) => seq![TAG_STRUCTURED] + text_record(s),
    }
}

/// The stored form of a field: its name, then its value.
pub open spec fn field_record(f: FieldView) -> Seq<u8> {
    text_record(f.0) + value_record(f.1)
}

/// The stored form of a document: its fields one after the other.
pub open spec fn doc_bytes(d: DocView) -> Seq<u8>
    decreases d.len(),
{
    if d.len() == 0 {
        Seq::empty()
    } else {
        field_record(d[0]) + doc_bytes(d.drop_first())
    }
}

/// The text at the start of `b`, with the number of bytes it takes.
pub open spec fn parse_text(b: Seq<u8>) -> Option<(Seq<char>, int)> {
    if b.len() < 8 {
        None
    } else {
        let n = be_value(b.subrange(0, 8)) as int;
        if 8 + n > b.len() {
            None
        } else if valid_utf8(b.subrange(8, 8 + n)) {
            Some((decode_utf8(b.subrange(8, 8 + n)), 8 + n))
        } else {
            None
        }
    }
}

/// The value at the start of `b`, with the number of bytes it takes.
pub open spec fn parse_value(b: Seq<u8>) -> Option<(ValueView, int)> {
    if b.len() == 0 {
        None
    } else if b[0] == TAG_NULL {
        Some((ValueView::Null, 1))
    } else if b[0] == TAG_BOOL {
        if b.len() >= 2 && b[1] <= 1 {
            Some((ValueView::Bool(b[1] == 1), 2))
        } else {
            None
        }
    } else if b[0] == TAG_NUMBER {
        if b.len() >= 9 {
            Some((ValueView::Number(be_value(b.subrange(1, 9)) - 0x8000_0000_0000_0000), 9))
        } else {
            None
        }
    } else if b[0] == TAG_TEXT {
        match parse_text(b.skip(1)) {
            Some((s, n)) => Some((ValueView::Text(s), 1 + n)),
            None => None,
        }
    } else if b[0] == TAG_STRUCTURED {
        match parse_text(b.skip(1)) {
            Some((s, n)) => Some((ValueView::Structured(s), 1 + n)),
            None => None,
        }
    } else {
        None
    }
}

/// The field at the start of `b`, with the number of bytes it takes.
pub open spec fn parse_field(b: Seq<u8>) -> Option<(FieldView, int)> {
    match parse_text(b) {
        None => None,
        Some((name, n)) => match parse_value(b.skip(n)) {
            None => None,
            Some((v, m)) => Some(((name, v), n + m)),
        },
    }
}

/// The fields that `b` is the stored form of, one after the other.
pub open spec fn parse_fields(b: Seq<u8>) -> Option<DocView>
    decreases b.len(),
{
    if b.len() == 0 {
        Some(Seq::empty())
    } else {
        match parse_field(b) {
            None => None,
            Some((f, n)) => if 0 < n <= b.len() {
                match parse_fields(b.skip(n)) {
                    None => None,
                    Some(rest) => Some(seq![f] + rest),
                }
            } else {
                None
            },
        }
    }
}

/// The document that `b` is the stored form of: its fields, where no name
/// occurs twice.
pub open spec fn parse_doc(b: Seq<u8>) -> Option<DocView> {
    match parse_fields(b) {
        Some(d) => if distinct_names(d) {
            Some(d)
        } else {
            None
        },
        None => None,
    }
}

proof fn lemma_pow256_8()
    ensures
        pow256(8) == 0x1_0000_0000_0000_0000,
{
    reveal_with_fuel(pow256, 9);
}

/// A text is read back from its stored form, whatever follows it.
pub proof fn lemma_parse_text(s: Seq<char>, tail: Seq<u8>)
    requires
        text_storable(s),
    ensures
        parse_text(text_record(s) + tail) == Some((s, text_record(s).len() as int)),
        text_record(s).len() == 8 + encode_utf8(s).len(),
{
    let u = encode_utf8(s);
    let b = text_record(s) + tail;
    lemma_be_bytes_len(u.len(), 8);
    lemma_be_value_of_bytes(u.len(), 8);
    assert(b.subrange(0, 8) =~= be_bytes(u.len(), 8));
    assert(b.subrange(8, 8 + u.len() as int) =~= u);
    encode_utf8_valid_utf8(s);
    encode_utf8_decode_utf8(s);
}

/// A value is read back from its stored form, whatever follows it.
pub proof fn lemma_parse_value(v: ValueView, tail: Seq<u8>)
    requires
        value_storable(v),
    ensures
        parse_value(value_record(v) + tail) == Some((v, value_record(v).len() as int)),
        value_record(v).len() > 0,
{
    let b = value_record(v) + tail;
    match v {
        ValueView::Null => {},
        ValueView::Bool(_) => {},
        ValueView::Number(n) => {
            lemma_pow256_8();
            lemma_be_bytes_len(biased(n), 8);
            lemma_be_value_of_bytes(biased(n), 8);
            assert(b.subrange(1, 9) =~= number_bytes(n));
        },
        ValueView::Text(s) => {
            lemma_parse_text(s, tail);
            assert(b.skip(1) =~= text_record(s) + tail);
        },
        ValueView::Structured(s) => {
            lemma_parse_text(s, tail);
            assert(b.skip(1) =~= text_record(s) + tail);
        },
    }
}

/// A field is read back from its stored form, whatever follows it.
pub proof fn lemma_parse_field(f: FieldView, tail: Seq<u8>)
    requires
        text_storable(f.0),
        value_storable(f.1),
    ensures
        parse_field(field_record(f) + tail) == Some((f, field_record(f).len() as int)),
        field_record(f).len() > 0,
{
    let b = field_record(f) + tail;
    lemma_parse_text(f.0, value_record(f.1) + tail);
    assert(b =~= text_record(f.0) + (value_record(f.1) + tail));
    lemma_parse_value(f.1, tail);
    assert(b.skip(text_record(f.0).len() as int) =~= value_record(f.1) + tail);
}

/// The fields of a document are read back from its stored form.
pub proof fn lemma_parse_fields(d: DocView)
    requires
        storable(d),
    ensures
        parse_fields(doc_bytes(d)) == Some(d),
    decreases d.len(),
{
    if d.len() == 0 {
        assert(d =~= Seq::empty());
    } else {
        let rest = d.drop_first();
        let b = doc_bytes(d);
        lemma_parse_field(d[0], doc_bytes(rest));
        assert(b.skip(field_record(d[0]).len() as int) =~= doc_bytes(rest));
        assert forall|i: int| 0 <= i < rest.len() implies text_storable(#[trigger] rest[i].0)
            && value_storable(rest[i].1) by {
            assert(rest[i] == d[i + 1]);
        }
        lemma_parse_fields(rest);
        assert(seq![d[0]] + rest =~= d);
    }
}

/// Round trip of the stored form: a document is read back from its bytes.
pub proof fn lemma_doc_round_trip(d: DocView)
    requires
        storable(d),
        distinct_names(d),
    ensures
        parse_doc(doc_bytes(d)) == Some(d),
{
    lemma_parse_fields(d);
}

/// A text that is read from bytes has a stored form.
proof fn lemma_parsed_text_storable(b: Seq<u8>)
    ensures
        parse_text(b) matches Some(p) ==> text_storable(p.0),
{
    if parse_text(b) is Some {
        let n = be_value(b.subrange(0, 8)) as int;
        let body = b.subrange(8, 8 + n);
        lemma_be_bytes_of_value(b.subrange(0, 8));
        decode_utf8_encode_utf8(body);
    }
}

/// A value that is read from bytes has a stored form.
proof fn lemma_parsed_value_storable(b: Seq<u8>)
    ensures
        parse_value(b) matches Some(p) ==> value_storable(p.0),
{
    if parse_value(b) is None {
    } else if b[0] == TAG_NUMBER {
        lemma_be_bytes_of_value(b.subrange(1, 9));
        lemma_pow256_8();
    } else if b[0] == TAG_TEXT || b[0] == TAG_STRUCTURED {
        lemma_parsed_text_storable(b.skip(1));
    }
}

/// The fields that are read from bytes have a stored form.
pub proof fn lemma_parsed_storable(b: Seq<u8>)
    requires
        parse_fields(b) is Some,
    ensures
        storable(parse_fields(b)->0),
    decreases b.len(),
{
    if b.len() > 0 {
        let (f, n) = parse_field(b)->0;
        let rest = parse_fields(b.skip(n))->0;
        lemma_parsed_text_storable(b);
        let name = parse_text(b)->0;
        lemma_parsed_value_storable(b.skip(name.1));
        lemma_parsed_storable(b.skip(n));
        let d = parse_fields(b)->0;
        assert(d == seq![f] + rest);
        assert forall|i: int| 0 <= i < d.len() implies text_storable(#[trigger] d[i].0)
            && value_storable(d[i].1) by {
            if i > 0 {
                assert(d[i] == rest[i - 1]);
            }
        }
    }
}

/// The stored form of a document with one more field at its end.
pub proof fn lemma_doc_bytes_push(d: DocView, f: FieldView)
    ensures
        doc_bytes(d.push(f)) == doc_bytes(d) + field_record(f),
    decreases d.len(),
{
    if d.len() == 0 {
        let e = d.push(f);
        assert(e.drop_first() =~= Seq::<FieldView>::empty());
        assert(e[0] == f);
        assert(doc_bytes(e.drop_first()) =~= Seq::<u8>::empty());
        assert(doc_bytes(d) =~= Seq::<u8>::empty());
        assert(doc_bytes(e) == field_record(f) + doc_bytes(e.drop_first()));
        assert(doc_bytes(e) =~= doc_bytes(d) + field_record(f));
    } else {
        let e = d.push(f);
        lemma_doc_bytes_push(d.drop_first(), f);
        assert(e.drop_first() =~= d.drop_first().push(f));
        assert(e[0] == d[0]);
        assert(doc_bytes(e) == field_record(d[0]) + doc_bytes(e.drop_first()));
        assert(field_record(d[0]) + (doc_bytes(d.drop_first()) + field_record(f)) =~= (field_record(
            d[0],
        ) + doc_bytes(d.drop_first())) + field_record(f));
    }
}

/// A document: a mapping from field names to values. `==` compares the
/// fields in the order in which they were first set; `same_as` compares the
/// mappings, whatever the order.
#[derive(Debug, PartialEq, Eq)]
pub struct Document {
    data: Vec<(String, Value)>,
}

/// The fields of a vector as the contracts see them.
pub open spec fn fields_view(v: Seq<(String, Value)>) -> DocView {
    Seq::new(v.len(), |i: int| (v[i].0@, v[i].1@))
}

impl Document {
    /// The fields, in the order in which they were first set.
    pub closed spec fn view(&self) -> DocView {
        fields_view(self.data@)
    }

    #[verifier::type_invariant]
    spec fn well_formed(&self) -> bool {
        distinct_names(fields_view(self.data@))
    }

    /// A document without fields.
    pub fn new() -> (d: Document)
        ensures
            d@ == Seq::<FieldView>::empty(),
    {
        let d = Document { data: Vec::new() };
        assert(d@ =~= Seq::<FieldView>::empty());
        d
    }

    /// The number of fields. No name occurs twice among them.
    pub fn len(&self) -> (n: usize)
        ensures
            n == self@.len(),
            distinct_names(self@),
    {
        proof {
            use_type_invariant(self);
        }
        self.data.len()
    }

    /// The name of the field at place `i`.
    pub fn name_at(&self, i: usize) -> (name: &String)
        requires
            i < self@.len(),
        ensures
            name@ == self@[i as int].0,
    {
        &self.data[i].0
    }

    /// The value of the field at place `i`.
    pub fn value_at(&self, i: usize) -> (value: &Value)
        requires
            i < self@.len(),
        ensures
            value@ == self@[i as int].1,
    {
        &self.data[i].1
    }

    /// The place of the field `name`, if the document has it.
    pub fn position(&self, name: &String) -> (r: Option<usize>)
        ensures
            r matches Some(i) ==> i < self@.len() && self@[i as int].0 == name@,
            r is None ==> !has_field(self@, name@),
    {
        let mut i: usize = 0;
        while i < self.data.len()
            invariant
                i <= self.data.len(),
                forall|j: int| 0 <= j < i ==> (#[trigger] self@[j]).0 != name@,
            decreases self.data.len() - i,
        {
            if self.data[i].0 == *name {
                return Some(i);
            }
            i += 1;
        }
        None
    }

    /// The value of the field `name`, if the document has it.
    pub fn get(&self, name: &String) -> (r: Option<&Value>)
        ensures
            r matches Some(v) ==> lookup(self@, name@) == Some(v@),
            r is None ==> lookup(self@, name@) is None,
    {
        proof {
            use_type_invariant(self);
        }
        match self.position(name) {
            Some(i) => {
                assert(self@[i as int].0 == name@);
                assert(field_index(self@, name@) == i);
                Some(&self.data[i].1)
            },
            None => None,
        }
    }

    /// Whether `other` is the same mapping from names to values, whatever
    /// the order of the fields.
    pub fn same_as(&self, other: &Document) -> (r: bool)
        ensures
            r == same_mapping(self@, other@),
    {
        proof {
            use_type_invariant(self);
            use_type_invariant(other);
        }
        let mut i: usize = 0;
        while i < self.data.len()
            invariant
                i <= self.data.len(),
                distinct_names(self@),
                forall|k: int|
                    0 <= k < i ==> lookup(other@, (#[trigger] self@[k]).0) == Some(self@[k].1),
            decreases self.data.len() - i,
        {
            proof {
                lemma_lookup_at(self@, i as int);
            }
            let equal = match other.get(&self.data[i].0) {
                Some(v) => self.data[i].1.same(v),
                None => false,
            };
            if !equal {
                assert(lookup(self@, self@[i as int].0) != lookup(other@, self@[i as int].0));
                return false;
            }
            i += 1;
        }
        let mut j: usize = 0;
        while j < other.data.len()
            invariant
                j <= other.data.len(),
                distinct_names(other@),
                forall|k: int| 0 <= k < j ==> has_field(self@, (#[trigger] other@[k]).0),
            decreases other.data.len() - j,
        {
            if self.position(&other.data[j].0).is_none() {
                proof {
                    lemma_lookup_at(other@, j as int);
                    assert(lookup(self@, other@[j as int].0) != lookup(other@, other@[j as int].0));
                }
                return false;
            }
            j += 1;
        }
        proof {
            assert forall|name: Seq<char>| #[trigger]
                lookup(self@, name) == lookup(other@, name) by {
                if has_field(self@, name) {
                    let k = field_index(self@, name);
                    lemma_lookup_at(self@, k);
                } else if has_field(other@, name) {
                    let k = field_index(other@, name);
                    assert(has_field(self@, other@[k].0));
                }
            }
        }
        true
    }

    /// Sets the field `field` to `value`: replaces the value where the
    /// document has the field, adds the field at the end where it has not.
    pub fn insert(&mut self, field: String, value: Value)
        ensures
            final(self)@ == set_field(old(self)@, field@, value@),
    {
        proof {
            use_type_invariant(&*self);
        }
        let ghost before = self@;
        match self.position(&field) {
            Some(i) => {
                assert(before[i as int].0 == field@);
                assert(field_index(before, field@) == i);
                let mut data: Vec<(String, Value)> = Vec::new();
                std::mem::swap(&mut data, &mut self.data);
                data.set(i, (field, value));
                assert(fields_view(data@) =~= before.update(i as int, (field@, value@)));
                self.data = data;
            },
            None => {
                let mut data: Vec<(String, Value)> = Vec::new();
                std::mem::swap(&mut data, &mut self.data);
                data.push((field, value));
                assert(fields_view(data@) =~= before.push((field@, value@)));
                self.data = data;
            },
        }
    }

    /// The stored form of the document.
    pub fn encode(&self) -> (r: Vec<u8>)
        ensures
            storable(self@),
            distinct_names(self@),
            r@ == doc_bytes(self@),
    {
        proof {
            use_type_invariant(self);
        }
        let mut out: Vec<u8> = Vec::new();
        let mut i: usize = 0;
        assert(self@.take(0) =~= Seq::<FieldView>::empty());
        while i < self.data.len()
            invariant
                i <= self.data.len(),
                out@ == doc_bytes(self@.take(i as int)),
                forall|j: int|
                    0 <= j < i ==> text_storable(#[trigger] self@[j].0) && value_storable(
                        self@[j].1,
                    ),
            decreases self.data.len() - i,
        {
            let ghost f = self@[i as int];
            let ghost start = out@;
            push_text(&mut out, &self.data[i].0);
            push_value(&mut out, &self.data[i].1);
            proof {
                lemma_doc_bytes_push(self@.take(i as int), f);
                assert(self@.take(i + 1) =~= self@.take(i as int).push(f));
                assert(out@ =~= start + field_record(f));
                assert(text_storable(f.0) && value_storable(f.1));
                assert forall|j: int| 0 <= j < i + 1 implies text_storable(
                    #[trigger] self@[j].0,
                ) && value_storable(self@[j].1) by {
                    if j == i {
                        assert(self@[j] == f);
                    }
                }
            }
            i += 1;
        }
        assert(self@.take(i as int) =~= self@);
        assert(i == self@.len());
        assert forall|j: int| 0 <= j < self@.len() implies text_storable(#[trigger] self@[j].0)
            && value_storable(self@[j].1) by {}
        assert(storable(self@));
        out
    }

    /// The document that `bytes` is the stored form of, if it is one.
    pub fn decode(bytes: &[u8]) -> (r: Option<Document>)
        ensures
            r matches Some(d) ==> parse_doc(bytes@) == Some(d@),
            r is None ==> parse_doc(bytes@) is None,
    {
        let mut data: Vec<(String, Value)> = Vec::new();
        let mut pos: usize = 0;
        proof {
            assert(bytes@.skip(0) =~= bytes@);
            assert(fields_view(data@) =~= Seq::<FieldView>::empty());
        }
        while pos < bytes.len()
            invariant
                pos <= bytes.len(),
                parse_fields(bytes@) == match parse_fields(bytes@.skip(pos as int)) {
                    Some(rest) => Some(fields_view(data@) + rest),
                    None => None,
                },
            decreases bytes.len() - pos,
        {
            let ghost here = bytes@.skip(pos as int);
            let (name, after_name) = match read_text(bytes, pos) {
                Some(p) => p,
                None => {
                    return None;
                },
            };
            let (value, next) = match read_value(bytes, after_name) {
                Some(p) => p,
                None => {
                    assert(here.skip(after_name - pos) =~= bytes@.skip(after_name as int));
                    return None;
                },
            };
            proof {
                assert(here.skip(after_name - pos) =~= bytes@.skip(after_name as int));
                assert(here.skip(next - pos) =~= bytes@.skip(next as int));
                let f = (name@, value@);
                assert(parse_field(here) == Some((f, next - pos)));
                let before = fields_view(data@);
                let after = fields_view(data@.push((name, value)));
                assert(after =~= before.push(f));
                match parse_fields(bytes@.skip(next as int)) {
                    Some(rest) => {
                        assert(before + (seq![f] + rest) =~= after + rest);
                    },
                    None => {},
                }
            }
            data.push((name, value));
            pos = next;
        }
        proof {
            assert(bytes@.skip(pos as int) =~= Seq::<u8>::empty());
            assert(fields_view(data@) + Seq::<FieldView>::empty() =~= fields_view(data@));
        }
        if names_distinct(&data) {
            Some(Document { data })
        } else {
            None
        }
    }
}

impl Clone for Document {
    fn clone(&self) -> (r: Document)
        ensures
            r@ == self@,
    {
        proof {
            use_type_invariant(self);
        }
        let mut data: Vec<(String, Value)> = Vec::new();
        let mut i: usize = 0;
        while i < self.data.len()
            invariant
                i <= self.data.len(),
                fields_view(data@) == self@.take(i as int),
            decreases self.data.len() - i,
        {
            let name = self.data[i].0.clone();
            let value = self.data[i].1.clone();
            let ghost before = fields_view(data@);
            data.push((name, value));
            assert(fields_view(data@) =~= before.push((name@, value@)));
            assert(self@.take(i + 1) =~= self@.take(i as int).push(self@[i as int]));
            i += 1;
        }
        assert(self@.take(i as int) =~= self@);
        Document { data }
    }
}

/// Whether no name occurs twice among `data`.
fn names_distinct(data: &Vec<(String, Value)>) -> (r: bool)
    ensures
        r == distinct_names(fields_view(data@)),
{
    let ghost d = fields_view(data@);
    let mut j: usize = 0;
    while j < data.len()
        invariant
            j <= data.len(),
            d == fields_view(data@),
            forall|a: int, b: int| 0 <= a < b < j ==> #[trigger] d[a].0 != #[trigger] d[b].0,
        decreases data.len() - j,
    {
        let mut i: usize = 0;
        while i < j
            invariant
                i <= j,
                j < data.len(),
                d == fields_view(data@),
                forall|a: int| 0 <= a < i ==> #[trigger] d[a].0 != d[j as int].0,
            decreases j - i,
        {
            if data[i].0 == data[j].0 {
                assert(d[i as int].0 == d[j as int].0);
                return false;
            }
            i += 1;
        }
        j += 1;
    }
    true
}

/// Appends the stored form of a text.
fn push_text(out: &mut Vec<u8>, s: &String)
    ensures
        final(out)@ == old(out)@ + text_record(s@),
        text_storable(s@),
{
    proof {
        lemma_pow256_8();
    }
    let bytes = s.as_str().as_bytes();
    push_u64_be(out, bytes.len() as u64);
    append_bytes(out, bytes);
    assert(out@ =~= old(out)@ + text_record(s@));
}

/// Appends the stored form of a value.
fn push_value(out: &mut Vec<u8>, v: &Value)
    ensures
        final(out)@ == old(out)@ + value_record(v@),
        value_storable(v@),
{
    proof {
        lemma_pow256_8();
    }
    match v {
        Value::Null => {
            out.push(TAG_NULL);
        },
        Value::Bool(b) => {
            out.push(TAG_BOOL);
            out.push(if *b { 1u8 } else { 0u8 });
        },
        Value::Number(n) => {
            out.push(TAG_NUMBER);
            push_u64_be(out, bias(*n));
        },
        Value::Text(s) => {
            out.push(TAG_TEXT);
            push_text(out, s);
        },
        Value::Structured(s) => {
            out.push(TAG_STRUCTURED);
            push_text(out, s);
        },
    }
    assert(out@ =~= old(out)@ + value_record(v@));
}

/// Reads the stored form of a text that starts at `pos`, and says where
/// what follows it starts.
fn read_text(bytes: &[u8], pos: usize) -> (r: Option<(String, usize)>)
    requires
        pos <= bytes.len(),
    ensures
        r matches Some((s, next)) ==> pos < next <= bytes.len() && parse_text(
            bytes@.skip(pos as int),
        ) == Some((s@, next - pos)),
        r is None ==> parse_text(bytes@.skip(pos as int)) is None,
{
    let ghost here = bytes@.skip(pos as int);
    if bytes.len() - pos < 8 {
        return None;
    }
    let x = read_u64_be(bytes, pos);
    assert(here.subrange(0, 8) =~= bytes@.subrange(pos as int, pos + 8));
    let room: usize = bytes.len() - pos - 8;
    if x > room as u64 {
        return None;
    }
    let n: usize = x as usize;
    let body = slice_to_vec(slice_subrange(bytes, pos + 8, pos + 8 + n));
    assert(here.subrange(8, 8 + n) =~= body@);
    match text_of_utf8(body) {
        Some(s) => {
            proof {
                encode_utf8_valid_utf8(s@);
                encode_utf8_decode_utf8(s@);
            }
            Some((s, pos + 8 + n))
        },
        None => None,
    }
}

/// Reads the stored form of a value that starts at `pos`, and says where
/// what follows it starts.
fn read_value(bytes: &[u8], pos: usize) -> (r: Option<(Value, usize)>)
    requires
        pos <= bytes.len(),
    ensures
        r matches Some((v, next)) ==> pos < next <= bytes.len() && parse_value(
            bytes@.skip(pos as int),
        ) == Some((v@, next - pos)),
        r is None ==> parse_value(bytes@.skip(pos as int)) is None,
{
    let ghost here = bytes@.skip(pos as int);
    if pos == bytes.len() {
        return None;
    }
    let tag = bytes[pos];
    assert(here[0] == tag);
    if tag == TAG_NULL {
        Some((Value::Null, pos + 1))
    } else if tag == TAG_BOOL {
        if bytes.len() - pos >= 2 && bytes[pos + 1] <= 1 {
            assert(here[1] == bytes@[pos + 1]);
            Some((Value::Bool(bytes[pos + 1] == 1), pos + 2))
        } else {
            assert(here.len() >= 2 ==> here[1] == bytes@[pos + 1]);
            None
        }
    } else if tag == TAG_NUMBER {
        if bytes.len() - pos >= 9 {
            let x = read_u64_be(bytes, pos + 1);
            assert(here.subrange(1, 9) =~= bytes@.subrange(pos + 1, pos + 9));
            Some((Value::Number(unbias(x)), pos + 9))
        } else {
            None
        }
    } else if tag == TAG_TEXT || tag == TAG_STRUCTURED {
        assert(here.skip(1) =~= bytes@.skip(pos + 1));
        match read_text(bytes, pos + 1) {
            Some((s, next)) => {
                if tag == TAG_TEXT {
                    Some((Value::Text(s), next))
                } else {
                    Some((Value::Structured(s), next))
                }
            },
            None => None,
        }
    } else {
        None
    }
}

} // verus!
