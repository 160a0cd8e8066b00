use neemo::index::entry_key_bytes;
use neemo::stage::{stage_delete, stage_insert};
use neemo::{Document, Mutation, Neemo, StoreError, Value};

fn doc(n: i64) -> Document {
    let mut d = Document::new();
    d.insert("n".to_string(), Value::Number(n));
    d
}

fn bad() -> Document {
    let mut d = Document::new();
    d.insert("n".to_string(), Value::Text("\0".to_string()));
    d
}

fn insert(key: &str, d: Document) -> Mutation {
    Mutation::Insert { key: key.to_string(), doc: d }
}

fn delete(key: &str) -> Mutation {
    Mutation::Delete { key: key.to_string() }
}

#[test]
fn transaction_applies_the_mutations_in_order() {
    let mut store = Neemo::temporary().unwrap();
    let ops = vec![insert("a", doc(1)), insert("b", doc(2)), delete("a"), insert("b", doc(3))];
    assert_eq!(store.transaction(&ops), Ok(4));
    assert_eq!(store.get("a").unwrap(), None);
    assert_eq!(store.get("b").unwrap(), Some(doc(3)));
    assert_eq!(store.equality_scan("n", &Value::Number(2)).unwrap(), Vec::<Vec<u8>>::new());
    assert_eq!(store.equality_scan("n", &Value::Number(3)).unwrap(), vec![b"b".to_vec()]);
}

#[test]
fn transaction_with_a_refused_mutation_writes_nothing() {
    let mut store = Neemo::temporary().unwrap();
    store.insert("keep", doc(7)).unwrap();
    let ops = vec![insert("a", doc(1)), delete("keep"), insert("b", bad())];
    assert_eq!(store.transaction(&ops), Err(StoreError::Encoding));
    assert_eq!(store.get("a").unwrap(), None);
    assert_eq!(store.get("keep").unwrap(), Some(doc(7)));
    assert_eq!(store.list_keys().unwrap(), vec!["keep".to_string()]);
}

#[test]
fn batch_passes_over_the_refused_mutations() {
    let mut store = Neemo::temporary().unwrap();
    let ops = vec![insert("a", doc(1)), insert("b", bad()), insert("c", doc(3)), delete("a")];
    assert_eq!(store.batch(&ops), Ok(3));
    assert_eq!(store.list_keys().unwrap(), vec!["c".to_string()]);
    assert_eq!(store.batch(&Vec::new()), Ok(0));
}

#[test]
fn apply_of_one_mutation() {
    let mut store = Neemo::temporary().unwrap();
    assert_eq!(store.apply(&insert("a", doc(1))), Ok(()));
    assert_eq!(store.apply(&insert("b", bad())), Err(StoreError::Encoding));
    assert_eq!(store.apply(&delete("a")), Ok(()));
    assert_eq!(store.apply(&delete("a")), Ok(()));
    assert_eq!(store.list_keys().unwrap(), Vec::<String>::new());
}

#[test]
fn import_of_an_export_restores_keys_and_documents() {
    let mut first = Neemo::temporary().unwrap();
    first.insert("u1", doc(30)).unwrap();
    first.insert("u2", doc(30)).unwrap();
    first.insert("another key", doc(-5)).unwrap();
    let records = first.export().unwrap();
    assert_eq!(
        records,
        vec![
            ("another key".to_string(), doc(-5)),
            ("u1".to_string(), doc(30)),
            ("u2".to_string(), doc(30)),
        ]
    );
    let mut second = Neemo::temporary().unwrap();
    assert_eq!(second.import(&records), Ok(3));
    assert_eq!(second.list_keys().unwrap(), first.list_keys().unwrap());
    assert_eq!(second.export().unwrap(), records);
    assert_eq!(second.get("u1").unwrap(), Some(doc(30)));
    assert_eq!(
        second.equality_scan("n", &Value::Number(30)).unwrap(),
        vec![b"u1".to_vec(), b"u2".to_vec()]
    );
}

#[test]
fn import_with_a_refused_document_writes_nothing() {
    let mut store = Neemo::temporary().unwrap();
    let records = vec![("a".to_string(), doc(1)), ("b".to_string(), bad())];
    assert_eq!(store.import(&records), Err(StoreError::Encoding));
    assert_eq!(store.list_keys().unwrap(), Vec::<String>::new());
}

#[test]
fn reconcile_of_a_consistent_store_takes_nothing_out() {
    let mut store = Neemo::temporary().unwrap();
    store.insert("a", doc(1)).unwrap();
    store.insert("b", doc(2)).unwrap();
    assert_eq!(store.reconcile(), Ok(0));
    assert_eq!(store.equality_scan("n", &Value::Number(1)).unwrap(), vec![b"a".to_vec()]);
}

#[test]
fn open_takes_out_the_index_keys_of_absent_documents() {
    let path = "/tmp/neemo_tests/orphans";
    {
        let mut store = Neemo::new(path).unwrap();
        store.insert("a", doc(1)).unwrap();
        store.insert("b", doc(1)).unwrap();
        store.flush().unwrap();
    }
    {
        let raw = sled::open("/tmp/neemo_tests/orphans/data").unwrap();
        raw.remove(b"a").unwrap();
        raw.flush().unwrap();
    }
    {
        let raw = sled::open("/tmp/neemo_tests/orphans/index").unwrap();
        let orphan = entry_key_bytes("n", &Value::Number(1), b"a").unwrap();
        assert_eq!(raw.get(&orphan).unwrap().map(|v| v.to_vec()), Some(b"a".to_vec()));
    }
    let mut store = Neemo::new(path).unwrap();
    assert_eq!(store.get("a").unwrap(), None);
    assert_eq!(store.equality_scan("n", &Value::Number(1)).unwrap(), vec![b"b".to_vec()]);
    assert_eq!(store.query("n", Value::Number(1)).unwrap(), vec![doc(1)]);
    assert_eq!(store.reconcile(), Ok(0));
}

#[test]
fn staged_insert_retracts_only_what_the_document_lost() {
    let mut was = Document::new();
    was.insert("n".to_string(), Value::Number(1));
    was.insert("m".to_string(), Value::Number(2));
    let mut now = Document::new();
    now.insert("n".to_string(), Value::Number(1));
    now.insert("m".to_string(), Value::Number(3));
    let staged = stage_insert(b"a", &now, Some(&was)).unwrap();
    assert_eq!(staged.key(), &b"a".to_vec());
    assert_eq!(staged.body(), &Some(now.encode()));
    assert_eq!(
        staged.added(),
        &vec![
            entry_key_bytes("n", &Value::Number(1), b"a").unwrap(),
            entry_key_bytes("m", &Value::Number(3), b"a").unwrap(),
        ]
    );
    assert_eq!(staged.retracted(), &vec![entry_key_bytes("m", &Value::Number(2), b"a").unwrap()]);
}

#[test]
fn staged_insert_where_there_was_no_document_retracts_nothing() {
    let staged = stage_insert(b"a", &doc(1), None).unwrap();
    assert_eq!(staged.retracted(), &Vec::<Vec<u8>>::new());
    let over_bad = stage_insert(b"a", &doc(1), Some(&bad())).unwrap();
    assert_eq!(over_bad.retracted(), &Vec::<Vec<u8>>::new());
}

#[test]
fn staged_delete_retracts_every_index_key_of_the_document() {
    let staged = stage_delete(b"a", Some(&doc(1)));
    assert_eq!(staged.key(), &b"a".to_vec());
    assert_eq!(staged.body(), &None);
    assert_eq!(staged.added(), &Vec::<Vec<u8>>::new());
    assert_eq!(staged.retracted(), &vec![entry_key_bytes("n", &Value::Number(1), b"a").unwrap()]);
    let nothing = stage_delete(b"a", None);
    assert_eq!(nothing.retracted(), &Vec::<Vec<u8>>::new());
}

#[test]
fn staged_insert_of_a_refused_document() {
    assert!(matches!(stage_insert(b"a", &bad(), None), Err(StoreError::Encoding)));
}

#[test]
fn stored_bytes_that_do_not_decode_are_a_corruption_error() {
    let path = "/tmp/neemo_tests/corruption";
    {
        let mut store = Neemo::new(path).unwrap();
        store.insert("good", doc(1)).unwrap();
        store.flush().unwrap();
    }
    {
        let raw = sled::open("/tmp/neemo_tests/corruption/data").unwrap();
        raw.insert(b"bad", vec![0xffu8, 1, 2]).unwrap();
        raw.insert(vec![0xffu8], doc(9).encode()).unwrap();
        raw.flush().unwrap();
    }
    let mut store = Neemo::new(path).unwrap();
    assert_eq!(store.get("bad"), Err(StoreError::Corruption));
    assert_eq!(store.get("good").unwrap(), Some(doc(1)));
    assert_eq!(store.list().unwrap(), vec![doc(1), doc(9)]);
    assert_eq!(store.list_keys().unwrap(), vec!["bad".to_string(), "good".to_string()]);
    assert_eq!(store.export().unwrap(), vec![("good".to_string(), doc(1))]);
    assert_eq!(store.delete("bad"), Err(StoreError::Corruption));
    assert_eq!(store.get("bad"), Err(StoreError::Corruption));
    assert_eq!(store.apply(&delete("bad")), Err(StoreError::Corruption));
    assert_eq!(store.batch(&vec![insert("x", bad()), delete("bad")]), Err(StoreError::Corruption));
    store.insert("bad", doc(2)).unwrap();
    assert_eq!(store.delete("bad").unwrap(), Some(doc(2)));
    assert_eq!(store.get("bad").unwrap(), None);
}

#[test]
fn unreadable_gives_the_keys_of_records_that_do_not_decode() {
    let path = "/tmp/neemo_tests/unreadable";
    {
        let mut store = Neemo::new(path).unwrap();
        store.insert("good", doc(1)).unwrap();
    }
    {
        let raw = sled::open("/tmp/neemo_tests/unreadable/data").unwrap();
        raw.insert(b"bad", vec![0xffu8, 1, 2]).unwrap();
        raw.insert(b"worse", vec![0u8]).unwrap();
        raw.flush().unwrap();
    }
    let store = Neemo::new(path).unwrap();
    assert_eq!(store.unreadable().unwrap(), vec![b"bad".to_vec(), b"worse".to_vec()]);
    assert_eq!(store.list().unwrap(), vec![doc(1)]);
    assert_eq!(store.dangling().unwrap(), Vec::<(Vec<u8>, Vec<u8>)>::new());
}

#[test]
fn dangling_gives_the_index_entries_of_records_that_do_not_decode() {
    let path = "/tmp/neemo_tests/dangling";
    {
        let mut store = Neemo::new(path).unwrap();
        store.insert("a", doc(1)).unwrap();
        store.insert("b", doc(1)).unwrap();
    }
    {
        let raw = sled::open("/tmp/neemo_tests/dangling/data").unwrap();
        raw.insert(b"a", vec![0xffu8]).unwrap();
        raw.flush().unwrap();
    }
    let mut store = Neemo::new(path).unwrap();
    let lost = entry_key_bytes("n", &Value::Number(1), b"a").unwrap();
    assert_eq!(store.dangling().unwrap(), vec![(lost, b"a".to_vec())]);
    assert_eq!(store.query("n", Value::Number(1)).unwrap(), vec![doc(1)]);
    assert_eq!(
        store.equality_scan("n", &Value::Number(1)).unwrap(),
        vec![b"a".to_vec(), b"b".to_vec()]
    );
    store.insert("a", doc(1)).unwrap();
    assert_eq!(store.dangling().unwrap(), Vec::<(Vec<u8>, Vec<u8>)>::new());
}

#[test]
fn open_puts_the_primary_store_under_data_and_the_index_under_index() {
    let path = "/tmp/neemo_tests/places";
    {
        let mut store = Neemo::new(path).unwrap();
        store.insert("a", doc(1)).unwrap();
    }
    {
        let data = sled::open("/tmp/neemo_tests/places/data").unwrap();
        assert_eq!(data.get(b"a").unwrap().map(|v| v.to_vec()), Some(doc(1).encode()));
    }
    let index = sled::open("/tmp/neemo_tests/places/index").unwrap();
    let key = entry_key_bytes("n", &Value::Number(1), b"a").unwrap();
    assert_eq!(index.get(&key).unwrap().map(|v| v.to_vec()), Some(b"a".to_vec()));
}

#[test]
fn import_twice_changes_nothing_more() {
    let mut first = Neemo::temporary().unwrap();
    first.insert("u1", doc(30)).unwrap();
    first.insert("u2", doc(30)).unwrap();
    first.insert("u3", doc(40)).unwrap();
    let records = first.export().unwrap();
    let mut second = Neemo::temporary().unwrap();
    assert_eq!(second.import(&records), Ok(3));
    let listed = second.list().unwrap();
    let by_thirty = second.equality_scan("n", &Value::Number(30)).unwrap();
    assert_eq!(second.import(&records), Ok(3));
    assert_eq!(second.list().unwrap(), listed);
    assert_eq!(second.export().unwrap(), records);
    assert_eq!(second.equality_scan("n", &Value::Number(30)).unwrap(), by_thirty);
    assert_eq!(by_thirty, vec![b"u1".to_vec(), b"u2".to_vec()]);
    assert_eq!(second.aggregate("n", "sum"), first.aggregate("n", "sum"));
    assert_eq!(second.dangling().unwrap(), Vec::<(Vec<u8>, Vec<u8>)>::new());
}
