use fuzzy_tree::document::Document;
use fuzzy_tree::errors::FuzzyError;
use fuzzy_tree::json::parse_a_and_b;
use fuzzy_tree::store::TreeStore;

fn payload(text: &str) -> serde_json::Value {
    serde_json::from_str(text).expect("test payload parses")
}

#[test]
fn parse_reads_both_integer_fields() {
    let v = payload("{\"valueA\": 2, \"valueB\": 10}");
    assert_eq!(parse_a_and_b(&v), Ok((2, 10)));
}

#[test]
fn parse_rejects_missing_field() {
    let v = payload("{\"valueA\": 1}");
    assert_eq!(parse_a_and_b(&v), Err(FuzzyError::MalformedInput));
    let v = payload("{\"valueB\": 1}");
    assert_eq!(parse_a_and_b(&v), Err(FuzzyError::MalformedInput));
    let v = payload("{}");
    assert_eq!(parse_a_and_b(&v), Err(FuzzyError::MalformedInput));
}

#[test]
fn parse_rejects_non_integer_field() {
    let v = payload("{\"valueA\": 2, \"valueB\": \"ten\"}");
    assert_eq!(parse_a_and_b(&v), Err(FuzzyError::MalformedInput));
    let v = payload("{\"valueA\": 2.5, \"valueB\": 10}");
    assert_eq!(parse_a_and_b(&v), Err(FuzzyError::MalformedInput));
}

#[test]
fn fuzzy_insert_stores_the_centroid() {
    let mut store = TreeStore::new();
    let doc = store
        .add_node(&payload("{\"valueA\": 4, \"valueB\": 4}"))
        .expect("valid payload inserts");
    let expected = Document::Object {
        value: 4,
        children: vec![],
    };
    assert_eq!(doc, expected);
    assert_eq!(store.snapshot(), expected);
}

#[test]
fn malformed_payload_leaves_store_unchanged() {
    let mut store = TreeStore::new();
    let r = store.add_node(&payload("{\"valueA\": 1}"));
    assert_eq!(r, Err(FuzzyError::MalformedInput));
    assert_eq!(store.snapshot(), Document::Null);

    store.insert(6);
    let before = store.snapshot();
    let r = store.add_node(&payload("{\"valueA\": 1}"));
    assert_eq!(r, Err(FuzzyError::MalformedInput));
    assert_eq!(store.snapshot(), before);
}

#[test]
fn invalid_parameters_leave_store_unchanged() {
    let mut store = TreeStore::new();
    let r = store.add_node(&payload("{\"valueA\": 0, \"valueB\": 9}"));
    assert_eq!(r, Err(FuzzyError::InvalidParameter));
    let r = store.add_node(&payload("{\"valueA\": -1, \"valueB\": 9}"));
    assert_eq!(r, Err(FuzzyError::InvalidParameter));
    assert_eq!(store.snapshot(), Document::Null);
}

#[test]
fn raw_inserts_build_the_nested_document() {
    let mut store = TreeStore::new();
    assert_eq!(store.snapshot(), Document::Null);
    for v in [8, 3, 10, 1] {
        store.insert(v);
    }
    let expected = Document::Object {
        value: 8,
        children: vec![
            Document::Object {
                value: 3,
                children: vec![Document::Object {
                    value: 1,
                    children: vec![],
                }],
            },
            Document::Object {
                value: 10,
                children: vec![],
            },
        ],
    };
    assert_eq!(store.snapshot(), expected);
}

#[test]
fn fuzzy_inserts_accumulate_in_the_tree() {
    let mut store = TreeStore::new();
    store
        .add_node(&payload("{\"valueA\": 2, \"valueB\": 8}"))
        .expect("inserts 8");
    store
        .add_node(&payload("{\"valueA\": 3, \"valueB\": 3}"))
        .expect("inserts 3");
    store
        .add_node(&payload("{\"valueA\": 1, \"valueB\": 10}"))
        .expect("inserts 10");
    let expected = Document::Object {
        value: 8,
        children: vec![
            Document::Object {
                value: 3,
                children: vec![],
            },
            Document::Object {
                value: 10,
                children: vec![],
            },
        ],
    };
    assert_eq!(store.snapshot(), expected);
}
