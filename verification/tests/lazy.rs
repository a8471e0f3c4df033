use json_decoder::{
    parse, parse_arr_lazy, parse_lazy, parse_obj_lazy, tokenize, JsonValue, JsonValueLazy,
    LazyObject, Number, ParseError,
};

#[test]
fn leaves_stay_as_they_were_read() {
    let value = parse_lazy("{\"a\": 1x, \"b\": \"s\", \"c\": [tru, 2.5]}").unwrap();
    match value.index("a") {
        JsonValueLazy::Something(token) => assert_eq!(token, "1x"),
        other => panic!("{:?}", other),
    }
    match value.index("b") {
        JsonValueLazy::Something(token) => assert_eq!(token, "\"s\""),
        other => panic!("{:?}", other),
    }
    match value.index("c") {
        JsonValueLazy::Array(elements) => {
            assert_eq!(elements.len(), 2);
            assert!(matches!(&elements[0], JsonValueLazy::Something(t) if t == "tru"));
            assert!(matches!(&elements[1], JsonValueLazy::Something(t) if t == "2.5"));
        }
        other => panic!("{:?}", other),
    }
}

#[test]
fn lazy_lookup_misses_safely() {
    let value = parse_lazy("{\"a\": {\"b\": 1}}").unwrap();
    assert!(matches!(value.index("a").index("b"), JsonValueLazy::Something(t) if t == "1"));
    assert!(matches!(value.index("a").index("z"), JsonValueLazy::InValidLocation));
    assert!(matches!(value.index("z").index("b"), JsonValueLazy::InValidLocation));
    assert!(matches!(value.index("a").index("b").index("c"), JsonValueLazy::InValidLocation));
}

#[test]
fn materializing_gives_what_decoding_gives() {
    let texts = [
        "{}",
        "{\"a\": 1}",
        "{\"a\":[1,2,{\"b\":true}]}",
        "{\"s\": \"x\\\"y\", \"f\": -2.5e3, \"n\": null, \"l\": [[], {}, [false]]}",
        "{\"a\": 1, \"a\": 2}",
    ];
    for text in texts {
        let eager = parse(text).unwrap();
        let lazy = parse_lazy(text).unwrap().materialize().unwrap();
        assert_eq!(format!("{:?}", lazy), format!("{:?}", eager), "{}", text);
    }
}

#[test]
fn materializing_classifies_each_leaf() {
    let value = parse_lazy("{\"a\": [3, 3.0, \"t\", t, f, n]}").unwrap().materialize().unwrap();
    let elements = value.index("a").clone().try_into_array().unwrap();
    assert!(matches!(elements[0], JsonValue::Number(Number::Int(3))));
    assert!(matches!(elements[1], JsonValue::Number(Number::Float(_))));
    assert!(matches!(&elements[2], JsonValue::String(s) if s == "t"));
    assert!(matches!(elements[3], JsonValue::Bool(true)));
    assert!(matches!(elements[4], JsonValue::Bool(false)));
    assert!(matches!(elements[5], JsonValue::Null));
}

#[test]
fn a_corrupt_leaf_fails_the_whole_conversion() {
    let lazy = parse_lazy("{\"a\": [1, {\"b\": 2x}], \"c\": 3}").unwrap();
    match lazy.materialize() {
        Err(ParseError::ParseIntError(numeral)) => assert_eq!(numeral, "2x"),
        other => panic!("{:?}", other),
    }
    let lazy = parse_lazy("{\"a\": 1.2.3}").unwrap();
    match lazy.materialize() {
        Err(ParseError::ParseFloatError(numeral)) => assert_eq!(numeral, "1.2.3"),
        other => panic!("{:?}", other),
    }
    assert!(matches!(
        JsonValueLazy::Something("\"".to_string()).materialize(),
        Err(ParseError::InvalidData(_))
    ));
}

#[test]
fn a_replaced_leaf_is_not_classified() {
    let text = "{\"a\": 1x, \"a\": 2}";
    assert!(matches!(parse(text), Err(ParseError::ParseIntError(_))));
    let value = parse_lazy(text).unwrap().materialize().unwrap();
    assert!(matches!(value.index("a"), JsonValue::Number(Number::Int(2))));
}

#[test]
fn the_sentinel_materializes_to_the_sentinel() {
    assert!(matches!(
        JsonValueLazy::InValidLocation.materialize(),
        Ok(JsonValue::InValidLocation)
    ));
}

#[test]
fn lazy_decoding_fails_on_structure_only() {
    for (text, message) in [
        ("{\"a\": 1", "unexpected end of input"),
        ("", "expected `{`"),
        ("[1]", "expected `{`"),
        ("{\"a\": 1]", "unbalanced brackets"),
        ("{\"a\": [1}", "unbalanced brackets"),
        ("{1: 2}", "expected a key"),
        ("{{}}", "expected a key"),
    ] {
        match parse_lazy(text) {
            Err(ParseError::InvalidData(m)) => assert_eq!(m, message, "{}", text),
            other => panic!("{:?}", other),
        }
    }
    assert!(parse_lazy("{\"a\": 1x}").is_ok());
}

#[test]
fn lazy_builders_report_the_closing_token() {
    let tokens = tokenize("{\"a\": [1, [2, 3]], \"c\": 4}");
    let (consumed, _) = parse_obj_lazy(&tokens, 0).unwrap();
    assert_eq!(consumed, tokens.len() - 1);
    let (consumed, array) = parse_arr_lazy(&tokens, 3).unwrap();
    assert_eq!(tokens[3 + consumed], "]");
    assert!(matches!(array, JsonValueLazy::Array(elements) if elements.len() == 2));
    assert!(matches!(parse_arr_lazy(&tokens, 0), Err(ParseError::InvalidData(m)) if m == "expected `[`"));
    assert!(matches!(parse_obj_lazy(&tokens, 3), Err(ParseError::InvalidData(m)) if m == "expected `{`"));
}

#[test]
fn lazy_objects_keep_one_member_per_key() {
    let mut members = LazyObject::new();
    members.insert("a".to_string(), JsonValueLazy::Something("1".to_string()));
    members.insert("b".to_string(), JsonValueLazy::InValidLocation);
    members.insert("a".to_string(), JsonValueLazy::Something("2".to_string()));
    assert!(matches!(members.get("a"), Some(JsonValueLazy::Something(t)) if t == "2"));
    assert!(matches!(members.get("b"), Some(JsonValueLazy::InValidLocation)));
    assert!(members.get("c").is_none());
    assert_eq!(members.into_entries().len(), 2);
}
