use neemo::query::{aggregate_documents, document_matches};
use neemo::store::parse_op;
use neemo::{Aggregate, AggregateOp, Document, Neemo, StoreError, Value};

fn with_number(field: &str, n: i64, tag: &str) -> Document {
    let mut d = Document::new();
    d.insert(field.to_string(), Value::Number(n));
    d.insert("tag".to_string(), Value::Text(tag.to_string()));
    d
}

fn ages() -> Neemo {
    let mut store = Neemo::temporary().unwrap();
    store.insert("u1", with_number("age", 30, "first")).unwrap();
    store.insert("u2", with_number("age", 30, "second")).unwrap();
    store.insert("u3", with_number("age", 40, "third")).unwrap();
    store
}

#[test]
fn query_equal_returns_every_document_that_shares_the_value() {
    let mut store = Neemo::temporary().unwrap();
    store.insert("u1", with_number("age", 30, "first")).unwrap();
    store.insert("u2", with_number("age", 30, "second")).unwrap();
    let found = store.query("age", Value::Number(30)).unwrap();
    assert_eq!(found, vec![with_number("age", 30, "first"), with_number("age", 30, "second")]);
    let keys = store.equality_scan("age", &Value::Number(30)).unwrap();
    assert_eq!(keys, vec![b"u1".to_vec(), b"u2".to_vec()]);
}

#[test]
fn query_equal_tells_values_of_different_types_apart() {
    let mut store = Neemo::temporary().unwrap();
    let mut d = Document::new();
    d.insert("v".to_string(), Value::Text("1".to_string()));
    store.insert("text", d.clone()).unwrap();
    let mut e = Document::new();
    e.insert("v".to_string(), Value::Number(1));
    store.insert("number", e.clone()).unwrap();
    let mut f = Document::new();
    f.insert("v".to_string(), Value::Bool(true));
    store.insert("bool", f.clone()).unwrap();
    let mut g = Document::new();
    g.insert("v".to_string(), Value::Null);
    store.insert("null", g.clone()).unwrap();
    let mut h = Document::new();
    h.insert("v".to_string(), Value::Structured("1".to_string()));
    store.insert("structured", h.clone()).unwrap();
    assert_eq!(store.query("v", Value::Text("1".to_string())).unwrap(), vec![d]);
    assert_eq!(store.query("v", Value::Number(1)).unwrap(), vec![e]);
    assert_eq!(store.query("v", Value::Bool(true)).unwrap(), vec![f]);
    assert_eq!(store.query("v", Value::Null).unwrap(), vec![g]);
    assert_eq!(store.query("v", Value::Structured("1".to_string())).unwrap(), vec![h]);
}

#[test]
fn query_equal_does_not_match_a_longer_text_or_field() {
    let mut store = Neemo::temporary().unwrap();
    let mut d = Document::new();
    d.insert("name".to_string(), Value::Text("Al".to_string()));
    d.insert("names".to_string(), Value::Text("Alice".to_string()));
    store.insert("u1", d).unwrap();
    let mut e = Document::new();
    e.insert("name".to_string(), Value::Text("Alice".to_string()));
    store.insert("u2", e.clone()).unwrap();
    assert_eq!(store.query("name", Value::Text("Alice".to_string())).unwrap(), vec![e]);
    assert_eq!(store.query("nam", Value::Text("Al".to_string())).unwrap(), Vec::<Document>::new());
}

#[test]
fn query_with_a_value_that_cannot_enter_the_index_is_refused() {
    let store = Neemo::temporary().unwrap();
    assert_eq!(store.query("name", Value::Text("a\0".to_string())), Err(StoreError::Encoding));
    assert_eq!(store.query("na\0me", Value::Number(1)), Err(StoreError::Encoding));
    assert_eq!(
        store.range_query("n", Value::Text("\0".to_string()), Value::Number(1)),
        Err(StoreError::Encoding)
    );
}

#[test]
fn range_query_orders_numbers_numerically() {
    let mut store = Neemo::temporary().unwrap();
    store.insert("a", with_number("n", 100, "hundred")).unwrap();
    store.insert("b", with_number("n", 9, "nine")).unwrap();
    store.insert("c", with_number("n", 10, "ten")).unwrap();
    let found = store.range_query("n", Value::Number(0), Value::Number(50)).unwrap();
    assert_eq!(found, vec![with_number("n", 9, "nine"), with_number("n", 10, "ten")]);
    let keys = store.range_scan("n", &Value::Number(0), &Value::Number(50)).unwrap();
    assert_eq!(keys, vec![b"b".to_vec(), b"c".to_vec()]);
}

#[test]
fn range_query_is_half_open() {
    let mut store = Neemo::temporary().unwrap();
    store.insert("a", with_number("n", 5, "five")).unwrap();
    store.insert("b", with_number("n", 7, "seven")).unwrap();
    store.insert("c", with_number("n", 9, "nine")).unwrap();
    let keys = store.range_scan("n", &Value::Number(5), &Value::Number(9)).unwrap();
    assert_eq!(keys, vec![b"a".to_vec(), b"b".to_vec()]);
    let none = store.range_scan("n", &Value::Number(9), &Value::Number(5)).unwrap();
    assert_eq!(none, Vec::<Vec<u8>>::new());
}

#[test]
fn range_query_orders_negative_numbers_before_positive() {
    let mut store = Neemo::temporary().unwrap();
    store.insert("a", with_number("n", 3, "three")).unwrap();
    store.insert("b", with_number("n", -3, "minus three")).unwrap();
    store.insert("c", with_number("n", 0, "zero")).unwrap();
    store.insert("d", with_number("n", i64::MIN, "least")).unwrap();
    let keys = store.range_scan("n", &Value::Number(i64::MIN), &Value::Number(i64::MAX)).unwrap();
    assert_eq!(keys, vec![b"d".to_vec(), b"b".to_vec(), b"c".to_vec(), b"a".to_vec()]);
}

#[test]
fn range_query_keeps_equal_values_in_the_order_of_their_keys() {
    let mut store = Neemo::temporary().unwrap();
    store.insert("z", with_number("n", 1, "z")).unwrap();
    store.insert("a", with_number("n", 1, "a")).unwrap();
    store.insert("m", with_number("n", 0, "m")).unwrap();
    let keys = store.range_scan("n", &Value::Number(0), &Value::Number(2)).unwrap();
    assert_eq!(keys, vec![b"m".to_vec(), b"a".to_vec(), b"z".to_vec()]);
}

#[test]
fn range_query_orders_texts_by_their_bytes() {
    let mut store = Neemo::temporary().unwrap();
    for (key, word) in [("1", "pear"), ("2", "apple"), ("3", "app"), ("4", "fig")] {
        let mut d = Document::new();
        d.insert("w".to_string(), Value::Text(word.to_string()));
        store.insert(key, d).unwrap();
    }
    let keys = store
        .range_scan("w", &Value::Text("app".to_string()), &Value::Text("g".to_string()))
        .unwrap();
    assert_eq!(keys, vec![b"3".to_vec(), b"2".to_vec(), b"4".to_vec()]);
}

#[test]
fn full_text_search_is_exact_and_case_sensitive() {
    let mut store = Neemo::temporary().unwrap();
    store.insert("u1", with_number("n", 1, "Hello World")).unwrap();
    store.insert("u2", with_number("n", 2, "hello world")).unwrap();
    store.insert("u3", with_number("n", 3, "other")).unwrap();
    assert_eq!(
        store.full_text_search("World").unwrap(),
        vec![with_number("n", 1, "Hello World")]
    );
    assert_eq!(store.full_text_search("o W").unwrap().len(), 1);
    assert_eq!(store.full_text_search("o").unwrap().len(), 3);
    assert_eq!(store.full_text_search("").unwrap().len(), 3);
    assert_eq!(store.full_text_search("worlds").unwrap(), Vec::<Document>::new());
}

#[test]
fn full_text_search_reads_text_fields_only() {
    let mut d = Document::new();
    d.insert("n".to_string(), Value::Number(42));
    d.insert("s".to_string(), Value::Structured("[\"needle\"]".to_string()));
    assert!(!document_matches(&d, b"needle"));
    assert!(!document_matches(&d, b"42"));
    assert!(!document_matches(&d, b""));
    d.insert("t".to_string(), Value::Text("a needle here".to_string()));
    assert!(document_matches(&d, b"needle"));
    assert!(document_matches(&d, b""));
}

#[test]
fn aggregate_sum_count_and_avg() {
    let store = ages();
    assert_eq!(store.aggregate("age", "sum"), Ok(Aggregate::Sum(100)));
    assert_eq!(store.aggregate("age", "count"), Ok(Aggregate::Count(3)));
    assert_eq!(store.aggregate("age", "avg"), Ok(Aggregate::Average { sum: 100, count: 3 }));
    match store.aggregate("age", "avg").unwrap() {
        Aggregate::Average { sum, count } => {
            let avg = sum as f64 / count as f64;
            assert!((avg - 33.333333333333336).abs() < 1e-12);
        }
        other => panic!("no average: {:?}", other),
    }
}

#[test]
fn aggregate_avg_of_no_number_is_undefined() {
    let store = ages();
    assert_eq!(store.aggregate("height", "avg"), Ok(Aggregate::Undefined));
    assert_eq!(store.aggregate("height", "sum"), Ok(Aggregate::Sum(0)));
    assert_eq!(store.aggregate("height", "count"), Ok(Aggregate::Count(0)));
    assert_eq!(store.aggregate("tag", "avg"), Ok(Aggregate::Undefined));
    let empty = Neemo::temporary().unwrap();
    assert_eq!(empty.aggregate("age", "avg"), Ok(Aggregate::Undefined));
}

#[test]
fn aggregate_avg_of_numbers_that_add_up_to_zero_is_not_undefined() {
    let mut store = Neemo::temporary().unwrap();
    store.insert("a", with_number("n", 5, "a")).unwrap();
    store.insert("b", with_number("n", -5, "b")).unwrap();
    assert_eq!(store.aggregate("n", "avg"), Ok(Aggregate::Average { sum: 0, count: 2 }));
}

#[test]
fn aggregate_of_an_unknown_word_is_a_validation_error() {
    let store = ages();
    assert_eq!(store.aggregate("age", "median"), Err(StoreError::Validation));
    assert_eq!(store.aggregate("age", "SUM"), Err(StoreError::Validation));
    assert_eq!(store.aggregate("age", ""), Err(StoreError::Validation));
}

#[test]
fn parse_op_knows_three_words() {
    assert_eq!(parse_op("sum"), Some(AggregateOp::Sum));
    assert_eq!(parse_op("count"), Some(AggregateOp::Count));
    assert_eq!(parse_op("avg"), Some(AggregateOp::Avg));
    assert_eq!(parse_op("average"), None);
}

#[test]
fn aggregate_documents_does_not_overflow_on_the_extremes() {
    let docs = vec![
        with_number("n", i64::MAX, "a"),
        with_number("n", i64::MAX, "b"),
        with_number("m", 1, "c"),
    ];
    let name = "n".to_string();
    assert_eq!(
        aggregate_documents(&docs, &name, AggregateOp::Sum),
        Aggregate::Sum(2 * (i64::MAX as i128))
    );
    assert_eq!(aggregate_documents(&docs, &name, AggregateOp::Count), Aggregate::Count(2));
    let least = vec![with_number("n", i64::MIN, "a"), with_number("n", i64::MIN, "b")];
    assert_eq!(
        aggregate_documents(&least, &name, AggregateOp::Avg),
        Aggregate::Average { sum: 2 * (i64::MIN as i128), count: 2 }
    );
}

#[test]
fn list_gives_the_documents_in_the_order_of_their_keys() {
    let mut store = Neemo::temporary().unwrap();
    store.insert("b", with_number("n", 2, "b")).unwrap();
    store.insert("a", with_number("n", 1, "a")).unwrap();
    store.insert("c", with_number("n", 3, "c")).unwrap();
    assert_eq!(
        store.list().unwrap(),
        vec![with_number("n", 1, "a"), with_number("n", 2, "b"), with_number("n", 3, "c")]
    );
    assert_eq!(
        store.list_keys().unwrap(),
        vec!["a".to_string(), "b".to_string(), "c".to_string()]
    );
}

#[test]
fn list_of_an_empty_store_is_empty() {
    let store = Neemo::temporary().unwrap();
    assert_eq!(store.list().unwrap(), Vec::<Document>::new());
    assert_eq!(store.list_keys().unwrap(), Vec::<String>::new());
}
