use chrome::request_item::{
    get_request_item, get_request_item_cached, is_request_item, tokenize, Cache, RequestItemType,
    TokenisedItem,
};

#[test]
fn no_separator_fails() {
    assert!(get_request_item(String::from("plainword")).is_none());
    assert!(get_request_item(String::from("")).is_none());
    assert!(is_request_item(String::from("plainword")).is_err());
    assert_eq!(
        is_request_item(String::from("plainword")).unwrap_err(),
        "The value does not match the format of a RequestItem"
    );
}

#[test]
fn each_separator_classifies() {
    let cases = [
        ("k:=@v", RequestItemType::FileJsonData),
        ("k:=v", RequestItemType::JsonData),
        ("k=@v", RequestItemType::FileDataField),
        ("k==v", RequestItemType::URLParameter),
        ("k@v", RequestItemType::FormFile),
        ("k=v", RequestItemType::DataField),
        ("k:v", RequestItemType::HTTPHeader),
    ];
    for (raw, variant) in cases {
        let item = get_request_item(String::from(raw)).unwrap();
        assert_eq!(item.key, "k", "raw: {raw}");
        assert_eq!(item.value, "v", "raw: {raw}");
        assert_eq!(item.variant, variant, "raw: {raw}");
    }
}

#[test]
fn separator_precedence() {
    let item = get_request_item(String::from("a:=@b")).unwrap();
    assert_eq!(item.key, "a");
    assert_eq!(item.value, "b");
    assert_eq!(item.variant, RequestItemType::FileJsonData);
}

#[test]
fn leftmost_separator_wins() {
    // at position 1 the longest match is `=`, so `:=` further right
    // never gets a look
    let item = get_request_item(String::from("a=b:=c")).unwrap();
    assert_eq!(item.key, "a");
    assert_eq!(item.value, "b:=c");
    assert_eq!(item.variant, RequestItemType::DataField);
}

#[test]
fn escaped_colon_is_no_separator() {
    let item = get_request_item(String::from("a\\:b=c")).unwrap();
    assert_eq!(item.key, "a:b");
    assert_eq!(item.value, "c");
    assert_eq!(item.variant, RequestItemType::DataField);
}

#[test]
fn escaped_backslash() {
    let item = get_request_item(String::from("a\\\\=b")).unwrap();
    assert_eq!(item.key, "a\\");
    assert_eq!(item.value, "b");
    assert_eq!(item.variant, RequestItemType::DataField);
}

#[test]
fn backslash_before_ordinary_char_is_kept() {
    let item = get_request_item(String::from("a\\xb=c")).unwrap();
    assert_eq!(item.key, "a\\xb");
    assert_eq!(item.value, "c");
}

#[test]
fn value_keeps_later_separators() {
    let item = get_request_item(String::from("k=v=w:z")).unwrap();
    assert_eq!(item.key, "k");
    assert_eq!(item.value, "v=w:z");
    assert_eq!(item.variant, RequestItemType::DataField);
}

#[test]
fn empty_key_and_empty_value() {
    let item = get_request_item(String::from("=v")).unwrap();
    assert_eq!(item.key, "");
    assert_eq!(item.value, "v");
    let item = get_request_item(String::from("k=")).unwrap();
    assert_eq!(item.key, "k");
    assert_eq!(item.value, "");
}

#[test]
fn tokenize_splits_escapes_out() {
    let tokens = tokenize("a\\:b");
    assert_eq!(tokens.len(), 3);
    match &tokens[0] {
        TokenisedItem::Normal(s) => assert_eq!(s, "a"),
        _ => panic!("expected a literal run"),
    }
    match &tokens[1] {
        TokenisedItem::Escaped(c) => assert_eq!(*c, ':'),
        _ => panic!("expected an escaped character"),
    }
    match &tokens[2] {
        TokenisedItem::Normal(s) => assert_eq!(s, "b"),
        _ => panic!("expected a literal run"),
    }
}

#[test]
fn classification_is_idempotent() {
    let a = get_request_item(String::from("x:=@y")).unwrap();
    let b = get_request_item(String::from("x:=@y")).unwrap();
    assert_eq!(a.key, b.key);
    assert_eq!(a.value, b.value);
    assert_eq!(a.variant, b.variant);
}

#[test]
fn cached_classification_matches_uncached() {
    let mut cache = Cache::new();
    let direct = get_request_item(String::from("name=bob")).unwrap();
    let first = get_request_item_cached(&mut cache, String::from("name=bob")).unwrap();
    let second = get_request_item_cached(&mut cache, String::from("name=bob")).unwrap();
    for item in [&first, &second] {
        assert_eq!(item.key, direct.key);
        assert_eq!(item.value, direct.value);
        assert_eq!(item.variant, direct.variant);
    }
    assert!(get_request_item_cached(&mut cache, String::from("nosep")).is_none());
}

#[test]
fn cache_lookup_misses_and_hits() {
    let mut cache = Cache::new();
    assert!(cache.get_from_cache("q==1").is_none());
    get_request_item_cached(&mut cache, String::from("q==1")).unwrap();
    let hit = cache.get_from_cache("q==1").unwrap();
    assert_eq!(hit.key, "q");
    assert_eq!(hit.value, "1");
    assert_eq!(hit.variant, RequestItemType::URLParameter);
}

#[test]
fn escaped_char_after_separator_joins_value() {
    let item = get_request_item(String::from("a=b\\:c")).unwrap();
    assert_eq!(item.key, "a");
    assert_eq!(item.value, "b:c");
    assert_eq!(item.variant, RequestItemType::DataField);
}

#[test]
fn escaped_char_before_separator_joins_key() {
    let item = get_request_item(String::from("\\:a=b")).unwrap();
    assert_eq!(item.key, ":a");
    assert_eq!(item.value, "b");
    assert_eq!(item.variant, RequestItemType::DataField);
}

#[test]
fn unicode_keys_and_values() {
    let item = get_request_item(String::from("grüße=münchen")).unwrap();
    assert_eq!(item.key, "grüße");
    assert_eq!(item.value, "münchen");
}
