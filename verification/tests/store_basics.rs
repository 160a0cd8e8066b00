use neemo::{Document, Neemo, StoreError, Value};

fn person(name: &str, age: i64) -> Document {
    let mut d = Document::new();
    d.insert("name".to_string(), Value::Text(name.to_string()));
    d.insert("age".to_string(), Value::Number(age));
    d
}

#[test]
fn get_after_insert_returns_the_document() {
    let mut store = Neemo::temporary().unwrap();
    let d = person("Alice", 30);
    store.insert("u1", d.clone()).unwrap();
    assert_eq!(store.get("u1").unwrap(), Some(d));
}

#[test]
fn get_after_insert_keeps_every_kind_of_value() {
    let mut store = Neemo::temporary().unwrap();
    let mut d = Document::new();
    d.insert("nothing".to_string(), Value::Null);
    d.insert("yes".to_string(), Value::Bool(true));
    d.insert("no".to_string(), Value::Bool(false));
    d.insert("least".to_string(), Value::Number(i64::MIN));
    d.insert("most".to_string(), Value::Number(i64::MAX));
    d.insert("text".to_string(), Value::Text("gr\u{fc}\u{df}e".to_string()));
    d.insert("list".to_string(), Value::Structured("[1,2,3]".to_string()));
    d.insert("".to_string(), Value::Text(String::new()));
    store.insert("all kinds", d.clone()).unwrap();
    assert_eq!(store.get("all kinds").unwrap(), Some(d));
}

#[test]
fn get_of_absent_key_is_none() {
    let store = Neemo::temporary().unwrap();
    assert_eq!(store.get("nobody").unwrap(), None);
}

#[test]
fn insert_replaces_the_document() {
    let mut store = Neemo::temporary().unwrap();
    store.insert("u1", person("Alice", 30)).unwrap();
    store.insert("u1", person("Alice", 31)).unwrap();
    assert_eq!(store.get("u1").unwrap(), Some(person("Alice", 31)));
    assert_eq!(store.list().unwrap().len(), 1);
}

#[test]
fn insert_retracts_the_index_keys_of_the_old_content() {
    let mut store = Neemo::temporary().unwrap();
    store.insert("u1", person("Alice", 30)).unwrap();
    store.insert("u1", person("Alice", 31)).unwrap();
    assert_eq!(store.query("age", Value::Number(30)).unwrap(), Vec::<Document>::new());
    assert_eq!(store.query("age", Value::Number(31)).unwrap(), vec![person("Alice", 31)]);
    assert_eq!(store.query("name", Value::Text("Alice".to_string())).unwrap().len(), 1);
}

#[test]
fn delete_returns_the_document_and_removes_it() {
    let mut store = Neemo::temporary().unwrap();
    let d = person("Bob", 41);
    store.insert("u2", d.clone()).unwrap();
    assert_eq!(store.delete("u2").unwrap(), Some(d));
    assert_eq!(store.get("u2").unwrap(), None);
}

#[test]
fn delete_of_absent_key_changes_nothing() {
    let mut store = Neemo::temporary().unwrap();
    store.insert("u1", person("Alice", 30)).unwrap();
    assert_eq!(store.delete("nobody").unwrap(), None);
    assert_eq!(store.list_keys().unwrap(), vec!["u1".to_string()]);
    assert_eq!(store.query("age", Value::Number(30)).unwrap().len(), 1);
}

#[test]
fn delete_leaves_no_match_for_any_pair_of_the_document() {
    let mut store = Neemo::temporary().unwrap();
    store.insert("u1", person("Alice", 30)).unwrap();
    store.insert("u2", person("Bob", 30)).unwrap();
    store.delete("u1").unwrap();
    assert_eq!(store.get("u1").unwrap(), None);
    let by_age = store.equality_scan("age", &Value::Number(30)).unwrap();
    assert_eq!(by_age, vec![b"u2".to_vec()]);
    let by_name = store.equality_scan("name", &Value::Text("Alice".to_string())).unwrap();
    assert_eq!(by_name, Vec::<Vec<u8>>::new());
}

#[test]
fn insert_of_text_with_the_separator_is_an_encoding_error() {
    let mut store = Neemo::temporary().unwrap();
    let mut d = Document::new();
    d.insert("name".to_string(), Value::Text("a\0b".to_string()));
    assert_eq!(store.insert("u1", d), Err(StoreError::Encoding));
    assert_eq!(store.get("u1").unwrap(), None);
    assert_eq!(store.list_keys().unwrap(), Vec::<String>::new());
}

#[test]
fn insert_of_field_name_with_the_separator_is_an_encoding_error() {
    let mut store = Neemo::temporary().unwrap();
    store.insert("u1", person("Alice", 30)).unwrap();
    let mut d = Document::new();
    d.insert("na\0me".to_string(), Value::Number(1));
    assert_eq!(store.insert("u1", d), Err(StoreError::Encoding));
    assert_eq!(store.get("u1").unwrap(), Some(person("Alice", 30)));
}

#[test]
fn open_where_no_directory_can_be_is_a_storage_error() {
    assert!(matches!(Neemo::new("/proc/neemo/no/such/place"), Err(StoreError::Storage)));
}

#[test]
fn flush_of_a_store_succeeds() {
    let mut store = Neemo::temporary().unwrap();
    store.insert("u1", person("Alice", 30)).unwrap();
    assert_eq!(store.flush(), Ok(()));
}

#[test]
fn two_inserts_of_distinct_keys_keep_both_documents_and_their_index_keys() {
    let mut first = Neemo::temporary().unwrap();
    first.insert("u1", person("Alice", 30)).unwrap();
    first.insert("u2", person("Bob", 40)).unwrap();
    let mut second = Neemo::temporary().unwrap();
    second.insert("u2", person("Bob", 40)).unwrap();
    second.insert("u1", person("Alice", 30)).unwrap();
    for store in [&first, &second] {
        assert_eq!(store.get("u1").unwrap(), Some(person("Alice", 30)));
        assert_eq!(store.get("u2").unwrap(), Some(person("Bob", 40)));
        assert_eq!(store.equality_scan("age", &Value::Number(30)).unwrap(), vec![b"u1".to_vec()]);
        assert_eq!(store.equality_scan("age", &Value::Number(40)).unwrap(), vec![b"u2".to_vec()]);
        assert_eq!(
            store.equality_scan("name", &Value::Text("Alice".to_string())).unwrap(),
            vec![b"u1".to_vec()]
        );
        assert_eq!(
            store.equality_scan("name", &Value::Text("Bob".to_string())).unwrap(),
            vec![b"u2".to_vec()]
        );
    }
}

#[test]
fn sub_stores_lie_under_data_and_index() {
    assert_eq!(
        neemo::store::sub_store_paths("neemo_db"),
        ("neemo_db/data".to_string(), "neemo_db/index".to_string())
    );
    assert_eq!(neemo::store::sub_store_paths(""), ("/data".to_string(), "/index".to_string()));
}
