use edgelink_core::context::{parse_context_store, parse_store};
use edgelink_core::EdgelinkError;

#[test]
fn test_parse_context_store() {
    let res = parse_store("#:(file1)::foo.bar").unwrap();
    assert_eq!(Some("file1"), res.store);
    assert_eq!("foo.bar", res.key);

    let res = parse_store("#:(memory1)::payload").unwrap();
    assert_eq!(Some("memory1"), res.store);
    assert_eq!("payload", res.key);

    let res = parse_store("foo.bar").unwrap();
    assert_eq!(None, res.store);
    assert_eq!("foo.bar", res.key);
}

#[test]
fn parse_store_accepts_spaces_around_the_store_name() {
    let res = parse_store("#:( file )::x").unwrap();
    assert_eq!(Some("file"), res.store);
    assert_eq!("x", res.key);

    // A malformed prefix makes the whole text the key.
    let res = parse_store("#:(file::x").unwrap();
    assert_eq!(None, res.store);
    assert_eq!("#:(file::x", res.key);
}

#[test]
fn parse_context_store_reads_store_and_key() {
    let res = parse_context_store("#:(file)::foo").unwrap();
    assert_eq!("file", res.store);
    assert_eq!("foo", res.key);

    // What follows the key name is ignored.
    let res = parse_context_store("#:(memory)::payload.x").unwrap();
    assert_eq!("memory", res.store);
    assert_eq!("payload", res.key);
}

#[test]
fn parse_context_store_refuses_other_text() {
    match parse_context_store("foo") {
        Err(EdgelinkError::BadArguments(m)) => assert_eq!(m, "Can not parse the key: 'foo'"),
        _ => panic!("expected BadArguments"),
    }
    assert!(parse_context_store("#:(file)::").is_err());
}
