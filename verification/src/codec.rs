//! The value codec: the bytes that stand for a field's value in an index
//! key. Within one type of value, the bytes are ordered as the values are.

use crate::bytes::{append_bytes, contains_byte, lemma_lex_common_prefix, lex_lt};
use crate::error::StoreError;
use crate::number::{
    be_value, bias, biased, lemma_be_bytes_len, lemma_be_bytes_of_value, lemma_be_value_of_bytes,
    lemma_number_order, number_bytes, pow256, push_u64_be, read_u64_be, unbias,
};
use vstd::prelude::*;
use vstd::slice::{slice_subrange, slice_to_vec};
use vstd::utf8::{
    decode_utf8, decode_utf8_encode_utf8, encode_utf8, encode_utf8_decode_utf8,
    encode_utf8_valid_utf8, valid_utf8,
};

verus! {

/// The first byte of the bytes of a null.
pub const TAG_NULL: u8 = 1;

/// The first byte of the bytes of a boolean.
pub const TAG_BOOL: u8 = 2;

/// The first byte of the bytes of a number.
pub const TAG_NUMBER: u8 = 3;

/// The first byte of the bytes of a text.
pub const TAG_TEXT: u8 = 4;

/// The first byte of the bytes of a structured value.
pub const TAG_STRUCTURED: u8 = 5;

/// The byte that parts the pieces of an index key. No text that enters an
/// index key may hold it.
pub const SEPARATOR: u8 = 0;

/// The value of a field. An array or an object is held as its canonical
/// serialization (the members of an object sorted by name), which is all
/// that the store reads of it.
#[derive(Debug, PartialEq, Eq)]
pub enum Value {
    Null,
    Bool(bool),
    Number(i64),
    Text(String),
    Structured(String),
}

/// A value as the contracts see it.
pub enum ValueView {
    Null,
    Bool(bool),
    Number(int),
    Text(Seq<char>),
    Structured(Seq<char>),
}

impl View for Value {
    type V = ValueView;

    open spec fn view(&self) -> ValueView {
        match self {
            Value::Null => ValueView::Null,
            Value::Bool(b) => ValueView::Bool(*b),
            Value::Number(n) => ValueView::Number(*n as int),
            Value::Text(s) => ValueView::Text(s@),
            Value::Structured(s) => ValueView::Structured(s@),
        }
    }
}

impl Clone for Value {
    fn clone(&self) -> (r: Value)
        ensures
            r@ == self@,
    {
        match self {
            Value::Null => Value::Null,
            Value::Bool(b) => Value::Bool(*b),
            Value::Number(n) => Value::Number(*n),
            Value::Text(s) => Value::Text(s.clone()),
            Value::Structured(s) => Value::Structured(s.clone()),
        }
    }
}

impl Value {
    /// Whether two values are the same value.
    pub fn same(&self, other: &Value) -> (r: bool)
        ensures
            r == (self@ == other@),
    {
        match (self, other) {
            (Value::Null, Value::Null) => true,
            (Value::Bool(a), Value::Bool(b)) => *a == *b,
            (Value::Number(a), Value::Number(b)) => *a == *b,
            (Value::Text(a), Value::Text(b)) => *a == *b,
            (Value::Structured(a), Value::Structured(b)) => *a == *b,
            _ => false,
        }
    }
}

/// Whether a text can enter an index key: its UTF-8 bytes do not hold the
/// separator.
pub open spec fn text_indexable(s: Seq<char>) -> bool {
    !encode_utf8(s).contains(SEPARATOR)
}

/// Whether a value has bytes in an index key.
pub open spec fn indexable(v: ValueView) -> bool {
    match v {
        ValueView::Null => true,
        ValueView::Bool(_) => true,
        ValueView::Number(n) => i64::MIN <= n <= i64::MAX,
        ValueView::Text(s) => text_indexable(s),
        ValueView::Structured(s) => text_indexable(s),
    }
}

/// The bytes that stand for a value in an index key: a tag for its type,
/// then eight order-preserving bytes for a number, one byte for a boolean,
/// the raw UTF-8 bytes for a text or a structured value.
pub open spec fn canonical(v: ValueView) -> Seq<u8> {
    match v {
        ValueView::Null => seq![TAG_NULL],
        ValueView::Bool(b) => seq![TAG_BOOL, if b { 1u8 } else { 0u8 }],
        ValueView::Number(n) => seq![TAG_NUMBER] + number_bytes(n),
        ValueView::Text(s) => seq![TAG_TEXT] + encode_utf8(s),
        ValueView::Structured(s) => seq![TAG_STRUCTURED] + encode_utf8(s),
    }
}

/// The value that a byte string stands for, if it stands for one.
pub open spec fn value_of(b: Seq<u8>) -> Option<ValueView> {
    if b.len() == 0 {
        None
    } else {
        let rest = b.subrange(1, b.len() as int);
        if b[0] == TAG_NULL {
            if b.len() == 1 {
                Some(ValueView::Null)
            } else {
                None
            }
        } else if b[0] == TAG_BOOL {
            if b.len() == 2 && b[1] <= 1 {
                Some(ValueView::Bool(b[1] == 1))
            } else {
                None
            }
        } else if b[0] == TAG_NUMBER {
            if b.len() == 9 {
                Some(ValueView::Number(be_value(rest) - 0x8000_0000_0000_0000))
            } else {
                None
            }
        } else if b[0] == TAG_TEXT {
            if valid_utf8(rest) && !rest.contains(SEPARATOR) {
                Some(ValueView::Text(decode_utf8(rest)))
            } else {
                None
            }
        } else if b[0] == TAG_STRUCTURED {
            if valid_utf8(rest) && !rest.contains(SEPARATOR) {
                Some(ValueView::Structured(decode_utf8(rest)))
            } else {
                None
            }
        } else {
            None
        }
    }
}

/// Decoding inverts encoding: the bytes of an indexable value stand for
/// that value.
pub proof fn lemma_value_round_trip(v: ValueView)
    requires
        indexable(v),
    ensures
        value_of(canonical(v)) == Some(v),
{
    let b = canonical(v);
    let rest = b.subrange(1, b.len() as int);
    match v {
        ValueView::Null => {},
        ValueView::Bool(_) => {},
        ValueView::Number(n) => {
            assert(rest =~= number_bytes(n));
            assert(pow256(8) == 0x1_0000_0000_0000_0000) by {
                reveal_with_fuel(pow256, 9);
            }
            lemma_be_bytes_len(biased(n), 8);
            lemma_be_value_of_bytes(biased(n), 8);
        },
        ValueView::Text(s) => {
            assert(rest =~= encode_utf8(s));
            encode_utf8_valid_utf8(s);
            encode_utf8_decode_utf8(s);
        },
        ValueView::Structured(s) => {
            assert(rest =~= encode_utf8(s));
            encode_utf8_valid_utf8(s);
            encode_utf8_decode_utf8(s);
        },
    }
}

/// Encoding inverts decoding: a byte string that stands for a value is the
/// bytes of that value, and the value is indexable.
pub proof fn lemma_value_of_canonical(b: Seq<u8>)
    requires
        value_of(b) is Some,
    ensures
        indexable(value_of(b)->0),
        canonical(value_of(b)->0) == b,
{
    let rest = b.subrange(1, b.len() as int);
    let v = value_of(b)->0;
    if b[0] == TAG_NULL {
        assert(canonical(v) =~= b);
    } else if b[0] == TAG_BOOL {
        assert(canonical(v) =~= b);
    } else if b[0] == TAG_NUMBER {
        lemma_be_bytes_of_value(rest);
        assert(pow256(8) == 0x1_0000_0000_0000_0000) by {
            reveal_with_fuel(pow256, 9);
        }
        assert(canonical(v) =~= b);
    } else {
        decode_utf8_encode_utf8(rest);
        assert(canonical(v) =~= b);
    }
}

/// Encoding is injective: two indexable values with the same bytes are the
/// same value.
pub proof fn lemma_canonical_injective(a: ValueView, b: ValueView)
    requires
        indexable(a),
        indexable(b),
        canonical(a) == canonical(b),
    ensures
        a == b,
{
    lemma_value_round_trip(a);
    lemma_value_round_trip(b);
}

/// Numbers order numerically: the bytes of two numbers are ordered as the
/// numbers are.
pub proof fn lemma_canonical_number_order(a: int, b: int)
    requires
        i64::MIN <= a <= i64::MAX,
        i64::MIN <= b <= i64::MAX,
    ensures
        lex_lt(canonical(ValueView::Number(a)), canonical(ValueView::Number(b))) == (a < b),
{
    lemma_number_order(a, b);
    lemma_lex_common_prefix(seq![TAG_NUMBER], number_bytes(a), number_bytes(b));
}

/// Booleans order false before true.
pub proof fn lemma_canonical_bool_order(a: bool, b: bool)
    ensures
        lex_lt(canonical(ValueView::Bool(a)), canonical(ValueView::Bool(b))) == (!a && b),
{
    let x = if a { 1u8 } else { 0u8 };
    let y = if b { 1u8 } else { 0u8 };
    lemma_lex_common_prefix(seq![TAG_BOOL], seq![x], seq![y]);
    assert(seq![TAG_BOOL] + seq![x] =~= canonical(ValueView::Bool(a)));
    assert(seq![TAG_BOOL] + seq![y] =~= canonical(ValueView::Bool(b)));
    assert(seq![x].drop_first() =~= Seq::<u8>::empty());
    assert(seq![y].drop_first() =~= Seq::<u8>::empty());
    assert(!lex_lt(Seq::<u8>::empty(), Seq::<u8>::empty()));
}

/// Texts order as their UTF-8 bytes do.
pub proof fn lemma_canonical_text_order(a: Seq<char>, b: Seq<char>)
    ensures
        lex_lt(canonical(ValueView::Text(a)), canonical(ValueView::Text(b))) == lex_lt(
            encode_utf8(a),
            encode_utf8(b),
        ),
{
    lemma_lex_common_prefix(seq![TAG_TEXT], encode_utf8(a), encode_utf8(b));
}

/// `String::from_utf8` of std: the text whose UTF-8 bytes are `bytes`, and
/// none only where `bytes` is not UTF-8.
#[verifier::external_body]
pub(crate) fn text_of_utf8(bytes: Vec<u8>) -> (r: Option<String>)
    ensures
        r matches Some(s) ==> encode_utf8(s@) == bytes@,
        r is None ==> !valid_utf8(bytes@),
{
    String::from_utf8(bytes).ok()
}

/// The bytes that stand for `v` in an index key. A text or a structured
/// value that holds the separator byte has none.
pub fn encode_value(v: &Value) -> (r: Result<Vec<u8>, StoreError>)
    ensures
        r is Ok <==> indexable(v@),
        r matches Ok(b) ==> b@ == canonical(v@),
        r matches Err(e) ==> e == StoreError::Encoding,
{
    let mut out: Vec<u8> = Vec::new();
    match v {
        Value::Null => {
            out.push(TAG_NULL);
        },
        Value::Bool(b) => {
            out.push(TAG_BOOL);
            out.push(if *b { 1u8 } else { 0u8 });
        },
        Value::Number(n) => {
            out.push(TAG_NUMBER);
            push_u64_be(&mut out, bias(*n));
        },
        Value::Text(s) => {
            let bytes = s.as_str().as_bytes();
            if contains_byte(bytes, SEPARATOR) {
                return Err(StoreError::Encoding);
            }
            out.push(TAG_TEXT);
            append_bytes(&mut out, bytes);
        },
        Value::Structured(s) => {
            let bytes = s.as_str().as_bytes();
            if contains_byte(bytes, SEPARATOR) {
                return Err(StoreError::Encoding);
            }
            out.push(TAG_STRUCTURED);
            append_bytes(&mut out, bytes);
        },
    }
    assert(out@ =~= canonical(v@));
    Ok(out)
}

/// The value that `bytes` stands for, if it stands for one.
pub fn decode_value(bytes: &[u8]) -> (r: Option<Value>)
    ensures
        r matches Some(v) ==> value_of(bytes@) == Some(v@),
        r is None ==> value_of(bytes@) is None,
{
    if bytes.len() == 0 {
        return None;
    }
    let tag = bytes[0];
    if tag == TAG_NULL {
        if bytes.len() == 1 {
            Some(Value::Null)
        } else {
            None
        }
    } else if tag == TAG_BOOL {
        if bytes.len() == 2 && bytes[1] <= 1 {
            Some(Value::Bool(bytes[1] == 1))
        } else {
            None
        }
    } else if tag == TAG_NUMBER {
        if bytes.len() == 9 {
            let x = read_u64_be(bytes, 1);
            let n = unbias(x);
            Some(Value::Number(n))
        } else {
            None
        }
    } else if tag == TAG_TEXT || tag == TAG_STRUCTURED {
        let rest = slice_to_vec(slice_subrange(bytes, 1, bytes.len()));
        if contains_byte(rest.as_slice(), SEPARATOR) {
            return None;
        }
        match text_of_utf8(rest) {
            Some(s) => {
                proof {
                    encode_utf8_valid_utf8(s@);
                    encode_utf8_decode_utf8(s@);
                }
                if tag == TAG_TEXT {
                    Some(Value::Text(s))
                } else {
                    Some(Value::Structured(s))
                }
            },
            None => None,
        }
    } else {
        None
    }
}

} // verus!
