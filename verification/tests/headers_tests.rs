use http::HeaderValue;
use presto_client::headers::{HeaderBuilder, HeaderField};

#[test]
fn test_set_headers_with_all_simple_fields() {
    let builder = http::Request::builder();
    let r = HeaderBuilder::new()
        .add_header(HeaderField::User("test user".to_string()))
        .add_header(HeaderField::Source("test source".to_string()))
        .add_header(HeaderField::Catalog("test catalog".to_string()))
        .add_header(HeaderField::Schema("test schema".to_string()))
        .add_header(HeaderField::TraceToken("test token".to_string()))
        .add_header(HeaderField::TransactionId("test id".to_string()))
        .add_header(HeaderField::ClientInfo("test info".to_string()))
        .add_header(HeaderField::ClientTag("test tag".to_string()))
        .set_headers(builder)
        .body(())
        .unwrap();

    assert_eq!(
        r.headers().get("X-Trino-User").unwrap(),
        &HeaderValue::from_str("test user").unwrap()
    );
    assert_eq!(
        r.headers().get("X-Trino-Source").unwrap(),
        &HeaderValue::from_str("test source").unwrap()
    );
    assert_eq!(
        r.headers().get("X-Trino-Catalog").unwrap(),
        &HeaderValue::from_str("test catalog").unwrap()
    );
    assert_eq!(
        r.headers().get("X-Trino-Schema").unwrap(),
        &HeaderValue::from_str("test schema").unwrap()
    );
    assert_eq!(
        r.headers().get("X-Trino-Trace-Token").unwrap(),
        &HeaderValue::from_str("test token").unwrap()
    );
    assert_eq!(
        r.headers().get("X-Trino-Transaction-Id").unwrap(),
        &HeaderValue::from_str("test id").unwrap()
    );
    assert_eq!(
        r.headers().get("X-Trino-Client-Info").unwrap(),
        &HeaderValue::from_str("test info").unwrap()
    );
    assert_eq!(
        r.headers().get("X-Trino-Client-Tags").unwrap(),
        &HeaderValue::from_str("test tag").unwrap()
    );
}

#[test]
fn test_set_headers_with_session() {
    let builder = http::Request::builder();
    let r = HeaderBuilder::new()
        .add_header(HeaderField::Session(vec![
            ("key1".to_string(), "value1".to_string()),
            ("key2".to_string(), "value2".to_string()),
        ]))
        .set_headers(builder)
        .body(())
        .unwrap();

    assert_eq!(
        r.headers().get("X-Trino-Session").unwrap(),
        &HeaderValue::from_str("key1=value1,key2=value2").unwrap()
    );
}

#[test]
fn session_serialization_sorts_by_key() {
    // Entries given in reverse order still come out sorted by key.
    let session = vec![
        ("key2".to_string(), "value2".to_string()),
        ("key1".to_string(), "value1".to_string()),
    ];
    let s = HeaderBuilder::serialize_session(&session);
    assert_eq!(s, "key1=value1,key2=value2");
}

#[test]
fn session_serialization_is_order_independent() {
    let a = vec![
        ("key2".to_string(), "value2".to_string()),
        ("key1".to_string(), "value1".to_string()),
    ];
    let b = vec![
        ("key1".to_string(), "value1".to_string()),
        ("key2".to_string(), "value2".to_string()),
    ];
    assert_eq!(
        HeaderBuilder::serialize_session(&a),
        HeaderBuilder::serialize_session(&b)
    );
}

#[test]
fn session_serialization_empty_and_single() {
    let empty: Vec<(String, String)> = vec![];
    assert_eq!(HeaderBuilder::serialize_session(&empty), "");
    let single = vec![("k".to_string(), "v".to_string())];
    assert_eq!(HeaderBuilder::serialize_session(&single), "k=v");
}

#[test]
fn key_mapping_is_fixed_for_every_variant() {
    assert_eq!(HeaderField::User("u".to_string()).get_key(), "User");
    assert_eq!(HeaderField::Source("s".to_string()).get_key(), "Source");
    assert_eq!(HeaderField::Catalog("c".to_string()).get_key(), "Catalog");
    assert_eq!(HeaderField::Schema("s".to_string()).get_key(), "Schema");
    assert_eq!(
        HeaderField::TraceToken("t".to_string()).get_key(),
        "Trace-Token"
    );
    assert_eq!(HeaderField::Session(vec![]).get_key(), "Session");
    assert_eq!(
        HeaderField::TransactionId("t".to_string()).get_key(),
        "Transaction-Id"
    );
    assert_eq!(
        HeaderField::ClientInfo("i".to_string()).get_key(),
        "Client-Info"
    );
    assert_eq!(
        HeaderField::ClientTag("t".to_string()).get_key(),
        "Client-Tags"
    );
    assert_eq!(HeaderBuilder::get_prefix(), "X-Trino-");
}

#[test]
fn encoding_is_deterministic() {
    let make = || {
        HeaderBuilder::new()
            .add_header(HeaderField::User("alice".to_string()))
            .add_header(HeaderField::Session(vec![
                ("b".to_string(), "2".to_string()),
                ("a".to_string(), "1".to_string()),
            ]))
            .add_header(HeaderField::Catalog("hive".to_string()))
    };
    let first = make().encoded();
    let second = make().encoded();
    assert_eq!(first, second);
    assert_eq!(
        first,
        vec![
            ("X-Trino-User".to_string(), "alice".to_string()),
            ("X-Trino-Session".to_string(), "a=1,b=2".to_string()),
            ("X-Trino-Catalog".to_string(), "hive".to_string()),
        ]
    );
}

#[test]
fn encoding_keeps_insertion_order_and_duplicates() {
    let pairs = HeaderBuilder::new()
        .add_header(HeaderField::User("first".to_string()))
        .add_header(HeaderField::User("second".to_string()))
        .encoded();
    assert_eq!(
        pairs,
        vec![
            ("X-Trino-User".to_string(), "first".to_string()),
            ("X-Trino-User".to_string(), "second".to_string()),
        ]
    );
}

#[test]
fn session_serialization_sorts_by_key_not_by_joined_text() {
    // "spill" must come before "spill2": entries are ordered by key, and the
    // '=' separator plays no part in the comparison.
    let session = vec![
        ("spill2".to_string(), "y".to_string()),
        ("spill".to_string(), "x".to_string()),
    ];
    assert_eq!(
        HeaderBuilder::serialize_session(&session),
        "spill=x,spill2=y"
    );
}

#[test]
fn session_serialization_orders_duplicate_keys_by_value() {
    let session = vec![
        ("k".to_string(), "b".to_string()),
        ("k".to_string(), "a".to_string()),
    ];
    assert_eq!(HeaderBuilder::serialize_session(&session), "k=a,k=b");
}

#[test]
fn to_request_builder_carries_headers_in_order() {
    let r = HeaderBuilder::new()
        .add_header(HeaderField::User("alice".to_string()))
        .add_header(HeaderField::User("bob".to_string()))
        .to_request_builder()
        .body(())
        .unwrap();
    let mut it = r.headers().get_all("X-Trino-User").iter();
    assert_eq!(it.next().unwrap(), &HeaderValue::from_str("alice").unwrap());
    assert_eq!(it.next().unwrap(), &HeaderValue::from_str("bob").unwrap());
    assert!(it.next().is_none());
}
