use neemo::bytes::{append_bytes, bytes_eq, contains_byte, contains_slice};
use neemo::codec::{decode_value, encode_value};
use neemo::index::{document_entry_keys, entry_key_bytes, entry_prefix_bytes, range_bound_bytes};
use neemo::number::{bias, push_u64_be, read_u64_be, unbias};
use neemo::{Document, StoreError, Value};

#[test]
fn substring_of_bytes() {
    assert!(contains_slice(b"hello world", b"lo w"));
    assert!(contains_slice(b"hello world", b"hello world"));
    assert!(contains_slice(b"hello world", b"d"));
    assert!(contains_slice(b"hello world", b""));
    assert!(contains_slice(b"", b""));
    assert!(!contains_slice(b"hello world", b"low"));
    assert!(!contains_slice(b"hello", b"hello world"));
    assert!(!contains_slice(b"", b"a"));
    assert!(contains_slice(b"aab", b"ab"));
}

#[test]
fn equality_and_membership_of_bytes() {
    assert!(bytes_eq(b"abc", b"abc"));
    assert!(bytes_eq(b"", b""));
    assert!(!bytes_eq(b"abc", b"abd"));
    assert!(!bytes_eq(b"abc", b"ab"));
    assert!(contains_byte(b"a\0b", 0));
    assert!(!contains_byte(b"ab", 0));
    assert!(!contains_byte(b"", 0));
}

#[test]
fn append_adds_at_the_end() {
    let mut out = vec![1u8, 2];
    append_bytes(&mut out, &[3, 4]);
    assert_eq!(out, vec![1, 2, 3, 4]);
    append_bytes(&mut out, &[]);
    assert_eq!(out, vec![1, 2, 3, 4]);
}

#[test]
fn big_endian_bytes_of_a_number() {
    let mut out = vec![9u8];
    push_u64_be(&mut out, 0x0102_0304_0506_0708);
    assert_eq!(out, vec![9, 1, 2, 3, 4, 5, 6, 7, 8]);
    assert_eq!(read_u64_be(&out, 1), 0x0102_0304_0506_0708);
    let mut most = Vec::new();
    push_u64_be(&mut most, u64::MAX);
    assert_eq!(most, vec![255; 8]);
    assert_eq!(read_u64_be(&most, 0), u64::MAX);
    let mut least = Vec::new();
    push_u64_be(&mut least, 0);
    assert_eq!(least, vec![0; 8]);
}

#[test]
fn bias_moves_the_least_number_to_zero() {
    assert_eq!(bias(i64::MIN), 0);
    assert_eq!(bias(-1), 0x7fff_ffff_ffff_ffff);
    assert_eq!(bias(0), 0x8000_0000_0000_0000);
    assert_eq!(bias(i64::MAX), u64::MAX);
    assert_eq!(unbias(0), i64::MIN);
    assert_eq!(unbias(u64::MAX), i64::MAX);
    assert_eq!(unbias(bias(-12345)), -12345);
}

#[test]
fn bytes_of_each_kind_of_value() {
    assert_eq!(encode_value(&Value::Null), Ok(vec![1]));
    assert_eq!(encode_value(&Value::Bool(false)), Ok(vec![2, 0]));
    assert_eq!(encode_value(&Value::Bool(true)), Ok(vec![2, 1]));
    assert_eq!(encode_value(&Value::Number(0)), Ok(vec![3, 0x80, 0, 0, 0, 0, 0, 0, 0]));
    assert_eq!(
        encode_value(&Value::Number(-1)),
        Ok(vec![3, 0x7f, 0xff, 0xff, 0xff, 0xff, 0xff, 0xff, 0xff])
    );
    assert_eq!(encode_value(&Value::Number(30)), Ok(vec![3, 0x80, 0, 0, 0, 0, 0, 0, 30]));
    assert_eq!(encode_value(&Value::Text("ab".to_string())), Ok(vec![4, 97, 98]));
    assert_eq!(encode_value(&Value::Text(String::new())), Ok(vec![4]));
    assert_eq!(encode_value(&Value::Structured("[1]".to_string())), Ok(vec![5, 91, 49, 93]));
}

#[test]
fn bytes_of_numbers_are_ordered_as_the_numbers() {
    let numbers = [i64::MIN, -1000, -10, -9, -1, 0, 1, 9, 10, 100, 255, 256, 65536, i64::MAX];
    for pair in numbers.windows(2) {
        let low = encode_value(&Value::Number(pair[0])).unwrap();
        let high = encode_value(&Value::Number(pair[1])).unwrap();
        assert!(low < high, "{} and {}", pair[0], pair[1]);
    }
}

#[test]
fn bytes_of_booleans_order_false_before_true() {
    assert!(encode_value(&Value::Bool(false)).unwrap() < encode_value(&Value::Bool(true)).unwrap());
}

#[test]
fn text_with_the_separator_has_no_bytes() {
    assert_eq!(encode_value(&Value::Text("a\0b".to_string())), Err(StoreError::Encoding));
    assert_eq!(encode_value(&Value::Structured("\0".to_string())), Err(StoreError::Encoding));
}

#[test]
fn decode_inverts_encode() {
    let values = vec![
        Value::Null,
        Value::Bool(true),
        Value::Bool(false),
        Value::Number(i64::MIN),
        Value::Number(-7),
        Value::Number(0),
        Value::Number(i64::MAX),
        Value::Text(String::new()),
        Value::Text("gr\u{fc}\u{df}e \u{1f600}".to_string()),
        Value::Structured("{\"a\":[1,2]}".to_string()),
    ];
    for v in values {
        let bytes = encode_value(&v).unwrap();
        assert_eq!(decode_value(&bytes), Some(v));
    }
}

#[test]
fn decode_refuses_what_is_no_value() {
    assert_eq!(decode_value(&[]), None);
    assert_eq!(decode_value(&[0]), None);
    assert_eq!(decode_value(&[6]), None);
    assert_eq!(decode_value(&[1, 0]), None);
    assert_eq!(decode_value(&[2]), None);
    assert_eq!(decode_value(&[2, 2]), None);
    assert_eq!(decode_value(&[2, 1, 0]), None);
    assert_eq!(decode_value(&[3, 0, 0, 0, 0, 0, 0, 0]), None);
    assert_eq!(decode_value(&[3, 0, 0, 0, 0, 0, 0, 0, 0, 0]), None);
    assert_eq!(decode_value(&[4, 0xff]), None);
    assert_eq!(decode_value(&[4, 97, 0]), None);
    assert_eq!(decode_value(&[5, 0xc3]), None);
}

#[test]
fn index_key_of_a_pair() {
    let mut want = b"age".to_vec();
    want.push(0);
    want.extend_from_slice(&[3, 0x80, 0, 0, 0, 0, 0, 0, 30]);
    want.push(0);
    assert_eq!(entry_prefix_bytes("age", &Value::Number(30)), Ok(want.clone()));
    let mut bound = want.clone();
    bound.pop();
    assert_eq!(range_bound_bytes("age", &Value::Number(30)), Ok(bound));
    want.extend_from_slice(b"u1");
    assert_eq!(entry_key_bytes("age", &Value::Number(30), b"u1"), Ok(want));
}

#[test]
fn index_keys_of_two_documents_with_one_pair_differ() {
    let a = entry_key_bytes("age", &Value::Number(30), b"u1").unwrap();
    let b = entry_key_bytes("age", &Value::Number(30), b"u2").unwrap();
    assert_ne!(a, b);
    let prefix = entry_prefix_bytes("age", &Value::Number(30)).unwrap();
    assert!(a.starts_with(&prefix));
    assert!(b.starts_with(&prefix));
}

#[test]
fn index_key_of_a_pair_that_cannot_enter_the_index() {
    assert_eq!(entry_key_bytes("a\0", &Value::Null, b"k"), Err(StoreError::Encoding));
    assert_eq!(
        entry_key_bytes("a", &Value::Text("\0".to_string()), b"k"),
        Err(StoreError::Encoding)
    );
    assert!(entry_key_bytes("a", &Value::Null, b"k\0k").is_ok());
}

#[test]
fn index_keys_of_a_document() {
    let mut d = Document::new();
    d.insert("a".to_string(), Value::Null);
    d.insert("b".to_string(), Value::Bool(true));
    assert_eq!(
        document_entry_keys(b"k", &d),
        Ok(vec![vec![97, 0, 1, 0, 107], vec![98, 0, 2, 1, 0, 107]])
    );
    assert_eq!(document_entry_keys(b"k", &Document::new()), Ok(Vec::<Vec<u8>>::new()));
    d.insert("c".to_string(), Value::Text("\0".to_string()));
    assert_eq!(document_entry_keys(b"k", &d), Err(StoreError::Encoding));
}
