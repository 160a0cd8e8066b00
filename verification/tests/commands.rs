use neemo::command::{database_path, is_database_name, parse_command, split_field, Command};
use neemo::StoreError;

fn words(line: &str) -> Vec<String> {
    line.split_whitespace().map(String::from).collect()
}

#[test]
fn commands_of_one_word() {
    assert_eq!(parse_command(&words("LIST")), Ok(Command::List));
    assert_eq!(parse_command(&words("BATCH")), Ok(Command::Batch));
    assert_eq!(parse_command(&words("EXIT")), Ok(Command::Exit));
    assert_eq!(parse_command(&words("QUIT")), Ok(Command::Exit));
}

#[test]
fn commands_of_two_words() {
    assert_eq!(parse_command(&words("INSERT u1")), Ok(Command::Insert { key: "u1".to_string() }));
    assert_eq!(parse_command(&words("GET u1")), Ok(Command::Get { key: "u1".to_string() }));
    assert_eq!(parse_command(&words("DELETE u1")), Ok(Command::Delete { key: "u1".to_string() }));
    assert_eq!(parse_command(&words("SEARCH al")), Ok(Command::Search { query: "al".to_string() }));
    assert_eq!(parse_command(&words("EXPORT f")), Ok(Command::Export { path: "f".to_string() }));
    assert_eq!(parse_command(&words("IMPORT f")), Ok(Command::Import { path: "f".to_string() }));
    assert_eq!(parse_command(&words("BACKUP f")), Ok(Command::Backup { path: "f".to_string() }));
    assert_eq!(parse_command(&words("RESTORE f")), Ok(Command::Restore { path: "f".to_string() }));
}

#[test]
fn commands_of_three_and_four_words() {
    assert_eq!(
        parse_command(&words("CREATE DATABASE a.nemo")),
        Ok(Command::CreateDatabase { name: "a.nemo".to_string() })
    );
    assert_eq!(
        parse_command(&words("USE DATABASE a.nemo")),
        Ok(Command::UseDatabase { name: "a.nemo".to_string() })
    );
    assert_eq!(
        parse_command(&words("QUERY age 30")),
        Ok(Command::Query { field: "age".to_string(), value: "30".to_string() })
    );
    assert_eq!(
        parse_command(&words("AGGREGATE age avg")),
        Ok(Command::Aggregate { field: "age".to_string(), op: "avg".to_string() })
    );
    assert_eq!(
        parse_command(&words("RANGE n 0 50")),
        Ok(Command::Range {
            field: "n".to_string(),
            start: "0".to_string(),
            end: "50".to_string()
        })
    );
}

#[test]
fn words_that_make_no_command_are_a_validation_error() {
    for line in [
        "",
        "list",
        "LIST all",
        "GET",
        "GET a b",
        "CREATE TABLE t",
        "USE a.nemo",
        "RANGE n 0",
        "RANGE n 0 50 60",
        "QUERY age",
        "HELP",
    ] {
        assert_eq!(parse_command(&words(line)), Err(StoreError::Validation), "{:?}", line);
    }
}

#[test]
fn database_names_end_with_nemo() {
    assert!(is_database_name("a.nemo"));
    assert!(is_database_name(".nemo"));
    assert!(!is_database_name("a.nem"));
    assert!(!is_database_name("a.nemo.bak"));
    assert!(!is_database_name("nemo"));
    assert!(!is_database_name(""));
    assert_eq!(database_path("shop.nemo"), Ok("databases/shop.nemo".to_string()));
    assert_eq!(database_path("shop"), Err(StoreError::Validation));
}

#[test]
fn field_line_splits_at_the_first_equals() {
    assert_eq!(split_field("age=30"), Some(("age".to_string(), "30".to_string())));
    assert_eq!(split_field("q=\"a=b\""), Some(("q".to_string(), "\"a=b\"".to_string())));
    assert_eq!(split_field("=x"), Some((String::new(), "x".to_string())));
    assert_eq!(split_field("x="), Some(("x".to_string(), String::new())));
    assert_eq!(
        split_field("gr\u{fc}\u{df}=\u{1f600}"),
        Some(("gr\u{fc}\u{df}".to_string(), "\u{1f600}".to_string()))
    );
    assert_eq!(split_field("no sign"), None);
    assert_eq!(split_field(""), None);
}

#[test]
fn messages_of_the_errors_differ() {
    let all = [
        StoreError::Storage,
        StoreError::Corruption,
        StoreError::Encoding,
        StoreError::Validation,
    ];
    for (i, a) in all.iter().enumerate() {
        assert!(!a.message().is_empty());
        for b in all.iter().skip(i + 1) {
            assert_ne!(a.message(), b.message());
        }
    }
    assert_eq!(StoreError::Encoding.message(), "encoding error: unsupported value shape");
}
