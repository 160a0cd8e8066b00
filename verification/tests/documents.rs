use neemo::{Document, Value};

#[test]
fn new_document_has_no_field() {
    let d = Document::new();
    assert_eq!(d.len(), 0);
    assert_eq!(d.get(&"a".to_string()), None);
    assert_eq!(d.encode(), Vec::<u8>::new());
}

#[test]
fn insert_adds_a_field_at_the_end() {
    let mut d = Document::new();
    d.insert("a".to_string(), Value::Number(1));
    d.insert("b".to_string(), Value::Bool(true));
    assert_eq!(d.len(), 2);
    assert_eq!(d.name_at(0), "a");
    assert_eq!(d.value_at(0), &Value::Number(1));
    assert_eq!(d.name_at(1), "b");
    assert_eq!(d.value_at(1), &Value::Bool(true));
    assert_eq!(d.position(&"b".to_string()), Some(1));
    assert_eq!(d.position(&"c".to_string()), None);
}

#[test]
fn insert_replaces_the_value_of_a_field() {
    let mut d = Document::new();
    d.insert("a".to_string(), Value::Number(1));
    d.insert("b".to_string(), Value::Number(2));
    d.insert("a".to_string(), Value::Text("one".to_string()));
    assert_eq!(d.len(), 2);
    assert_eq!(d.get(&"a".to_string()), Some(&Value::Text("one".to_string())));
    assert_eq!(d.get(&"b".to_string()), Some(&Value::Number(2)));
    assert_eq!(d.name_at(0), "a");
}

#[test]
fn stored_form_of_a_document() {
    let mut d = Document::new();
    d.insert("a".to_string(), Value::Number(1));
    assert_eq!(
        d.encode(),
        vec![0, 0, 0, 0, 0, 0, 0, 1, 97, 3, 0x80, 0, 0, 0, 0, 0, 0, 1]
    );
    let mut e = Document::new();
    e.insert("t".to_string(), Value::Text("hi".to_string()));
    e.insert("n".to_string(), Value::Null);
    e.insert("b".to_string(), Value::Bool(false));
    e.insert("s".to_string(), Value::Structured("[]".to_string()));
    assert_eq!(
        e.encode(),
        vec![
            0, 0, 0, 0, 0, 0, 0, 1, 116, 4, 0, 0, 0, 0, 0, 0, 0, 2, 104, 105, // t
            0, 0, 0, 0, 0, 0, 0, 1, 110, 1, // n
            0, 0, 0, 0, 0, 0, 0, 1, 98, 2, 0, // b
            0, 0, 0, 0, 0, 0, 0, 1, 115, 5, 0, 0, 0, 0, 0, 0, 0, 2, 91, 93, // s
        ]
    );
}

#[test]
fn decode_inverts_encode_of_a_document() {
    let mut d = Document::new();
    d.insert("nothing".to_string(), Value::Null);
    d.insert("flag".to_string(), Value::Bool(true));
    d.insert("n".to_string(), Value::Number(-42));
    d.insert("text".to_string(), Value::Text("with \0 inside".to_string()));
    d.insert("list".to_string(), Value::Structured("[1,[2]]".to_string()));
    assert_eq!(Document::decode(&d.encode()), Some(d));
    assert_eq!(Document::decode(&[]), Some(Document::new()));
}

#[test]
fn decode_refuses_what_is_no_stored_form() {
    assert_eq!(Document::decode(&[0]), None);
    assert_eq!(Document::decode(&[0, 0, 0, 0, 0, 0, 0, 1]), None);
    assert_eq!(Document::decode(&[0, 0, 0, 0, 0, 0, 0, 1, 97]), None);
    assert_eq!(Document::decode(&[0, 0, 0, 0, 0, 0, 0, 1, 97, 9]), None);
    assert_eq!(Document::decode(&[0, 0, 0, 0, 0, 0, 0, 1, 97, 2, 7]), None);
    assert_eq!(Document::decode(&[0, 0, 0, 0, 0, 0, 0, 1, 0xff, 1]), None);
    assert_eq!(Document::decode(&[0, 0, 0, 0, 0, 0, 0, 1, 97, 3, 0, 0]), None);
    assert_eq!(Document::decode(&[0xff, 0xff, 0xff, 0xff, 0xff, 0xff, 0xff, 0xff, 97, 1]), None);
    assert_eq!(Document::decode(&[0, 0, 0, 0, 0, 0, 0, 1, 97, 1, 5]), None);
}

#[test]
fn decode_refuses_a_name_that_occurs_twice() {
    let once = vec![0, 0, 0, 0, 0, 0, 0, 1, 97, 1];
    let mut twice = once.clone();
    twice.extend_from_slice(&once);
    assert!(Document::decode(&once).is_some());
    assert_eq!(Document::decode(&twice), None);
}

#[test]
fn clone_of_a_document_is_equal() {
    let mut d = Document::new();
    d.insert("a".to_string(), Value::Text("x".to_string()));
    d.insert("b".to_string(), Value::Number(3));
    assert_eq!(d.clone(), d);
    assert_eq!(Value::Structured("{}".to_string()).clone(), Value::Structured("{}".to_string()));
}

#[test]
fn same_as_does_not_count_the_order_of_the_fields() {
    let mut d = Document::new();
    d.insert("a".to_string(), Value::Number(1));
    d.insert("b".to_string(), Value::Text("x".to_string()));
    let mut e = Document::new();
    e.insert("b".to_string(), Value::Text("x".to_string()));
    e.insert("a".to_string(), Value::Number(1));
    assert_ne!(d, e);
    assert!(d.same_as(&e));
    assert!(e.same_as(&d));
    assert!(Document::new().same_as(&Document::new()));
}

#[test]
fn same_as_tells_different_mappings_apart() {
    let mut d = Document::new();
    d.insert("a".to_string(), Value::Number(1));
    let mut other_value = Document::new();
    other_value.insert("a".to_string(), Value::Number(2));
    let mut other_type = Document::new();
    other_type.insert("a".to_string(), Value::Text("1".to_string()));
    let mut more = Document::new();
    more.insert("a".to_string(), Value::Number(1));
    more.insert("b".to_string(), Value::Null);
    assert!(!d.same_as(&other_value));
    assert!(!d.same_as(&other_type));
    assert!(!d.same_as(&more));
    assert!(!more.same_as(&d));
    assert!(!d.same_as(&Document::new()));
    assert!(!Document::new().same_as(&d));
}

#[test]
fn same_value_is_the_same_type_and_content() {
    assert!(Value::Null.same(&Value::Null));
    assert!(Value::Bool(true).same(&Value::Bool(true)));
    assert!(!Value::Bool(true).same(&Value::Bool(false)));
    assert!(Value::Number(3).same(&Value::Number(3)));
    assert!(!Value::Number(3).same(&Value::Number(4)));
    assert!(Value::Text("a".to_string()).same(&Value::Text("a".to_string())));
    assert!(!Value::Text("a".to_string()).same(&Value::Structured("a".to_string())));
    assert!(!Value::Null.same(&Value::Bool(false)));
}
