use rift::label::{decode, encode, parse_pair, validate_key, Labels};

#[test]
fn labels_are_validated() {
    assert_eq!(parse_pair("project=rift"), Ok(("project", "rift")));
    assert_eq!(parse_pair("env.prod=v1_2-3"), Ok(("env.prod", "v1_2-3")));
    assert!(parse_pair("missing-equals").is_err());
    assert!(parse_pair("bad key=value").is_err());
    assert!(parse_pair("key=bad value").is_err());
    assert!(parse_pair("name=reserved").is_err());
}

#[test]
fn labels_encode_in_sorted_order() {
    let mut labels = Labels::new();
    labels.insert("project".to_string(), "rift".to_string());
    labels.insert("env".to_string(), "dev".to_string());
    assert_eq!(encode(&labels), "env=dev project=rift");
    assert_eq!(decode(&encode(&labels)), labels);
}

#[test]
fn parse_errors_name_the_rule_broken() {
    assert_eq!(
        parse_pair("missing-equals"),
        Err("label must use key=value syntax: missing-equals".to_string())
    );
    assert_eq!(parse_pair("=v"), Err("label key cannot be empty".to_string()));
    assert_eq!(
        parse_pair("cmd=x"),
        Err("\"cmd\" is a read-only built-in field".to_string())
    );
    assert_eq!(
        parse_pair("start_dir=x"),
        Err("\"start_dir\" is a read-only built-in field".to_string())
    );
    assert_eq!(
        parse_pair("bad key=value"),
        Err("label key may only contain letters, numbers, '-', '_', and '.': bad key".to_string())
    );
    assert_eq!(
        parse_pair("bad=value/with/slash"),
        Err("label value may only contain letters, numbers, '-', '_', and '.': value/with/slash"
            .to_string())
    );
    assert_eq!(
        parse_pair("k\u{e9}y=v"),
        Err("label key may only contain letters, numbers, '-', '_', and '.': k\u{e9}y".to_string())
    );
    assert_eq!(
        parse_pair("a=b=c"),
        Err("label value may only contain letters, numbers, '-', '_', and '.': b=c".to_string())
    );
    assert_eq!(parse_pair("k="), Ok(("k", "")));
}

#[test]
fn validate_key_checks_the_key_alone() {
    assert_eq!(validate_key("project"), Ok(()));
    assert_eq!(validate_key(""), Err("label key cannot be empty".to_string()));
    assert_eq!(
        validate_key("name"),
        Err("\"name\" is a read-only built-in field".to_string())
    );
    assert!(validate_key("a=b").is_err());
    assert!(validate_key("Name").is_ok());
}

#[test]
fn decode_splits_on_whitespace_and_later_wins() {
    let labels = decode("  b=2\tnoequals a=1\u{2003}b=3\n=empty c= ");
    let pairs: Vec<(String, String)> = labels.pairs().clone();
    assert_eq!(
        pairs,
        vec![
            ("".to_string(), "empty".to_string()),
            ("a".to_string(), "1".to_string()),
            ("b".to_string(), "3".to_string()),
            ("c".to_string(), "".to_string()),
        ]
    );
    assert_eq!(decode("").len(), 0);
}

#[test]
fn labels_insert_and_get() {
    let mut labels = Labels::new();
    assert_eq!(labels.get("k"), None);
    labels.insert("k".to_string(), "1".to_string());
    labels.insert("a".to_string(), "2".to_string());
    labels.insert("k".to_string(), "3".to_string());
    assert_eq!(labels.get("k"), Some("3"));
    assert_eq!(labels.get("a"), Some("2"));
    assert_eq!(labels.len(), 2);
    assert_eq!(encode(&labels), "a=2 k=3");
}

#[test]
fn encode_orders_keys_by_code_point() {
    let mut labels = Labels::new();
    labels.insert("b".to_string(), "1".to_string());
    labels.insert("B".to_string(), "2".to_string());
    labels.insert("ab".to_string(), "3".to_string());
    labels.insert("a".to_string(), "4".to_string());
    assert_eq!(encode(&labels), "B=2 a=4 ab=3 b=1");
    assert_eq!(encode(&Labels::new()), "");
    assert_eq!(decode(&encode(&labels)), labels);
}
