use chrome::output::Body;
use chrome::request::{assemble_request, needs_file_contents, AssembleError, BodyType};
use chrome::request_item::{RequestItem, RequestItemType};

fn item(key: &str, value: &str, variant: RequestItemType) -> RequestItem {
    RequestItem { key: String::from(key), value: String::from(value), variant }
}

fn no_files(n: usize) -> Vec<Option<String>> {
    let mut v = Vec::new();
    for _ in 0..n {
        v.push(None);
    }
    v
}

#[test]
fn end_to_end_post() {
    let items = vec![
        item("X-Test", "1", RequestItemType::HTTPHeader),
        item("q", "x", RequestItemType::URLParameter),
        item("name", "bob", RequestItemType::DataField),
    ];
    let desc = assemble_request(
        String::from("POST"),
        "http://h/p",
        &items,
        &no_files(3),
        BodyType::Undecided,
    )
    .unwrap();
    assert_eq!(desc.method, "POST");
    assert_eq!(desc.url, "http://h/p?q=x");
    assert_eq!(desc.headers, vec![(String::from("X-Test"), String::from("1"))]);
    assert_eq!(desc.payload, "{\"name\":\"bob\"}");
    match &desc.body {
        Body::Json(preview) => assert_eq!(preview, "{\n  \"name\": \"bob\"\n}"),
        _ => panic!("expected a JSON body"),
    }
}

#[test]
fn query_order_preserved() {
    let items = vec![
        item("q", "1", RequestItemType::URLParameter),
        item("q", "2", RequestItemType::URLParameter),
    ];
    let desc = assemble_request(
        String::from("GET"),
        "http://h/p",
        &items,
        &no_files(2),
        BodyType::Undecided,
    )
    .unwrap();
    assert_eq!(desc.url, "http://h/p?q=1&q=2");
}

#[test]
fn header_order_preserved() {
    let items = vec![
        item("A", "1", RequestItemType::HTTPHeader),
        item("B", "2", RequestItemType::HTTPHeader),
        item("A", "3", RequestItemType::HTTPHeader),
    ];
    let desc = assemble_request(
        String::from("GET"),
        "http://h/",
        &items,
        &no_files(3),
        BodyType::Undecided,
    )
    .unwrap();
    assert_eq!(
        desc.headers,
        vec![
            (String::from("A"), String::from("1")),
            (String::from("B"), String::from("2")),
            (String::from("A"), String::from("3")),
        ]
    );
}

#[test]
fn form_override_conflicts_with_json_field() {
    let items = vec![
        item("a", "1", RequestItemType::JsonData),
        item("b", "x", RequestItemType::DataField),
        item("f", "g", RequestItemType::FormFile),
    ];
    let err = assemble_request(
        String::from("POST"),
        "http://h/",
        &items,
        &no_files(3),
        BodyType::Form,
    )
    .unwrap_err();
    match err {
        AssembleError::BodyTypeConflict { key } => assert_eq!(key, "a"),
        _ => panic!("expected a body-type conflict"),
    }
}

#[test]
fn single_data_field_defaults_to_json() {
    let items = vec![item("b", "x", RequestItemType::DataField)];
    let desc = assemble_request(
        String::from("POST"),
        "http://h/",
        &items,
        &no_files(1),
        BodyType::Undecided,
    )
    .unwrap();
    assert_eq!(desc.payload, "{\"b\":\"x\"}");
    match &desc.body {
        Body::Json(preview) => assert_eq!(preview, "{\n  \"b\": \"x\"\n}"),
        _ => panic!("expected a JSON body"),
    }
}

#[test]
fn form_file_after_json_is_conflict() {
    let items = vec![
        item("a", "1", RequestItemType::JsonData),
        item("f", "g", RequestItemType::FormFile),
    ];
    let err = assemble_request(
        String::from("POST"),
        "http://h/",
        &items,
        &no_files(2),
        BodyType::Undecided,
    )
    .unwrap_err();
    match err {
        AssembleError::BodyTypeConflict { key } => assert_eq!(key, "f"),
        _ => panic!("expected a body-type conflict"),
    }
}

#[test]
fn form_file_alone_is_not_implemented() {
    let items = vec![item("f", "g", RequestItemType::FormFile)];
    let err = assemble_request(
        String::from("POST"),
        "http://h/",
        &items,
        &no_files(1),
        BodyType::Undecided,
    )
    .unwrap_err();
    match err {
        AssembleError::NotImplemented { key } => assert_eq!(key, "f"),
        _ => panic!("expected the reserved-variant failure"),
    }
}

#[test]
fn json_field_after_form_field_conflicts_via_override() {
    let items = vec![
        item("b", "x", RequestItemType::DataField),
        item("a", "1", RequestItemType::JsonData),
    ];
    let err = assemble_request(
        String::from("POST"),
        "http://h/",
        &items,
        &no_files(2),
        BodyType::Form,
    )
    .unwrap_err();
    match err {
        AssembleError::BodyTypeConflict { key } => assert_eq!(key, "a"),
        _ => panic!("expected a body-type conflict"),
    }
}

#[test]
fn malformed_inline_json_is_fatal() {
    let items = vec![item("a", "{not json", RequestItemType::JsonData)];
    let err = assemble_request(
        String::from("POST"),
        "http://h/",
        &items,
        &no_files(1),
        BodyType::Undecided,
    )
    .unwrap_err();
    match err {
        AssembleError::JsonSyntax { key } => assert_eq!(key, "a"),
        _ => panic!("expected a JSON syntax failure"),
    }
}

#[test]
fn bad_base_url_is_fatal() {
    let items = vec![item("b", "x", RequestItemType::DataField)];
    let err = assemble_request(
        String::from("GET"),
        "",
        &items,
        &no_files(1),
        BodyType::Undecided,
    )
    .unwrap_err();
    assert!(matches!(err, AssembleError::UrlParse));
}

#[test]
fn empty_body_when_nothing_contributes() {
    let items = vec![item("X", "1", RequestItemType::HTTPHeader)];
    let desc = assemble_request(
        String::from("GET"),
        "http://h/",
        &items,
        &no_files(1),
        BodyType::Undecided,
    )
    .unwrap();
    assert!(matches!(desc.body, Body::Empty));
    assert_eq!(desc.payload, "");
}

#[test]
fn json_override_with_no_fields_sends_empty_object() {
    let items: Vec<RequestItem> = Vec::new();
    let desc = assemble_request(
        String::from("POST"),
        "http://h/",
        &items,
        &no_files(0),
        BodyType::JSON,
    )
    .unwrap();
    assert_eq!(desc.payload, "{}");
    match &desc.body {
        Body::Json(preview) => assert_eq!(preview, "{}"),
        _ => panic!("expected a JSON body"),
    }
}

#[test]
fn form_encoding_percent_encodes() {
    let items = vec![
        item("k", "a b", RequestItemType::DataField),
        item("u", "x&y", RequestItemType::DataField),
    ];
    let desc = assemble_request(
        String::from("POST"),
        "http://h/",
        &items,
        &no_files(2),
        BodyType::Form,
    )
    .unwrap();
    assert_eq!(desc.payload, "k=a+b&u=x%26y");
    match &desc.body {
        Body::Form(text) => assert_eq!(text, "k=a+b&u=x%26y"),
        _ => panic!("expected a form body"),
    }
}

#[test]
fn url_query_is_percent_encoded() {
    let items = vec![item("q", "x y", RequestItemType::URLParameter)];
    let desc = assemble_request(
        String::from("GET"),
        "http://h/p",
        &items,
        &no_files(1),
        BodyType::Undecided,
    )
    .unwrap();
    assert_eq!(desc.url, "http://h/p?q=x+y");
}

#[test]
fn inline_json_is_normalized_not_copied() {
    let items = vec![item("a", "  1 ", RequestItemType::JsonData)];
    let desc = assemble_request(
        String::from("POST"),
        "http://h/",
        &items,
        &no_files(1),
        BodyType::Undecided,
    )
    .unwrap();
    assert_eq!(desc.payload, "{\"a\":1}");
}

#[test]
fn nested_json_pretty_preview_is_indented() {
    let items = vec![item("a", "{\"x\": 1}", RequestItemType::JsonData)];
    let desc = assemble_request(
        String::from("POST"),
        "http://h/",
        &items,
        &no_files(1),
        BodyType::Undecided,
    )
    .unwrap();
    assert_eq!(desc.payload, "{\"a\":{\"x\":1}}");
    match &desc.body {
        Body::Json(preview) => {
            assert_eq!(preview, "{\n  \"a\": {\n    \"x\": 1\n  }\n}")
        },
        _ => panic!("expected a JSON body"),
    }
}

#[test]
fn plain_fields_merge_into_json_namespace_last_write_wins() {
    let items = vec![
        item("a", "1", RequestItemType::JsonData),
        item("a", "x", RequestItemType::DataField),
        item("b", "[1,2]", RequestItemType::JsonData),
    ];
    let desc = assemble_request(
        String::from("POST"),
        "http://h/",
        &items,
        &no_files(3),
        BodyType::Undecided,
    )
    .unwrap();
    assert_eq!(desc.payload, "{\"a\":\"x\",\"b\":[1,2]}");
}

#[test]
fn duplicate_plain_keys_last_write_wins() {
    let items = vec![
        item("a", "1", RequestItemType::DataField),
        item("a", "2", RequestItemType::DataField),
    ];
    let desc = assemble_request(
        String::from("POST"),
        "http://h/",
        &items,
        &no_files(2),
        BodyType::Undecided,
    )
    .unwrap();
    assert_eq!(desc.payload, "{\"a\":\"2\"}");
}

#[test]
fn string_values_are_json_escaped() {
    let items = vec![item("k", "he\"llo\n", RequestItemType::DataField)];
    let desc = assemble_request(
        String::from("POST"),
        "http://h/",
        &items,
        &no_files(1),
        BodyType::Undecided,
    )
    .unwrap();
    assert_eq!(desc.payload, "{\"k\":\"he\\\"llo\\n\"}");
}

#[test]
fn file_items_use_supplied_contents() {
    let items = vec![
        item("t", "notes.txt", RequestItemType::FileDataField),
        item("j", "data.json", RequestItemType::FileJsonData),
    ];
    assert!(needs_file_contents(&items[0]));
    assert!(needs_file_contents(&items[1]));
    let contents = vec![Some(String::from("hello")), Some(String::from("[1, 2]"))];
    let desc = assemble_request(
        String::from("POST"),
        "http://h/",
        &items,
        &contents,
        BodyType::Undecided,
    )
    .unwrap();
    assert_eq!(desc.payload, "{\"t\":\"hello\",\"j\":[1,2]}");
}

#[test]
fn file_json_with_bad_contents_is_fatal() {
    let items = vec![item("j", "data.json", RequestItemType::FileJsonData)];
    let contents = vec![Some(String::from("not json"))];
    let err = assemble_request(
        String::from("POST"),
        "http://h/",
        &items,
        &contents,
        BodyType::Undecided,
    )
    .unwrap_err();
    match err {
        AssembleError::JsonSyntax { key } => assert_eq!(key, "j"),
        _ => panic!("expected a JSON syntax failure"),
    }
}

#[test]
fn form_body_from_plain_fields() {
    let items = vec![
        item("x", "1", RequestItemType::DataField),
        item("y", "2", RequestItemType::DataField),
    ];
    let desc = assemble_request(
        String::from("POST"),
        "http://h/",
        &items,
        &no_files(2),
        BodyType::Form,
    )
    .unwrap();
    assert_eq!(desc.payload, "x=1&y=2");
}
