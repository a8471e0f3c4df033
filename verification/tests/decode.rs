use json_decoder::{
    parse, parse_arr, parse_obj, parse_value, tokenize, JsonObject, JsonValue, Number, ParseError,
};

fn int_at(value: &JsonValue, path: &[&str]) -> Result<i64, ParseError> {
    let mut here = value;
    for key in path {
        here = here.index(key);
    }
    here.clone().try_into_number()?.try_into_int()
}

fn float_of(value: JsonValue) -> f64 {
    let literal = value.try_into_number().unwrap().try_into_float().unwrap();
    literal.as_str().parse::<f64>().unwrap()
}

fn strings(tokens: &[&str]) -> Vec<String> {
    tokens.iter().map(|t| t.to_string()).collect()
}

fn invalid_data(result: Result<JsonValue, ParseError>) -> String {
    match result {
        Err(ParseError::InvalidData(message)) => message,
        other => panic!("expected a malformed structure, got {:?}", other),
    }
}

#[test]
fn numeral_classification() {
    assert!(matches!(parse_value("3"), Ok(JsonValue::Number(Number::Int(3)))));
    assert!(matches!(parse_value("-3"), Ok(JsonValue::Number(Number::Int(-3)))));
    assert_eq!(float_of(parse_value("3.0").unwrap()), 3.0);
    assert_eq!(float_of(parse_value("3e2").unwrap()), 300.0);
}

#[test]
fn exponent_without_fraction_is_a_float() {
    assert!(matches!(parse_value("1e3"), Ok(JsonValue::Number(Number::Float(_)))));
    assert_eq!(float_of(parse_value("1e3").unwrap()), 1000.0);
    assert_eq!(float_of(parse_value("1E3").unwrap()), 1000.0);
}

#[test]
fn a_number_is_never_the_other_kind() {
    let int = parse_value("3").unwrap().try_into_number().unwrap();
    match int.try_into_float() {
        Err(ParseError::TypeUnmatchedError(message)) => {
            assert_eq!(message, "Expected Number::Float")
        }
        other => panic!("{:?}", other),
    }
    let float = parse_value("3.0").unwrap().try_into_number().unwrap();
    match float.try_into_int() {
        Err(ParseError::TypeUnmatchedError(message)) => assert_eq!(message, "Expected Number::Int"),
        other => panic!("{:?}", other),
    }
}

#[test]
fn the_first_character_decides() {
    assert!(matches!(parse_value("null"), Ok(JsonValue::Null)));
    assert!(matches!(parse_value("true"), Ok(JsonValue::Bool(true))));
    assert!(matches!(parse_value("false"), Ok(JsonValue::Bool(false))));
    assert!(matches!(parse_value("nothing"), Ok(JsonValue::Null)));
    assert!(matches!(parse_value("t"), Ok(JsonValue::Bool(true))));
    assert!(matches!(parse_value("f1.5"), Ok(JsonValue::Bool(false))));
    match parse_value("\"text\"") {
        Ok(JsonValue::String(s)) => assert_eq!(s, "text"),
        other => panic!("{:?}", other),
    }
    match parse_value("\"\"") {
        Ok(JsonValue::String(s)) => assert_eq!(s, ""),
        other => panic!("{:?}", other),
    }
}

#[test]
fn malformed_numerals_fail_as_numerals() {
    match parse_value("1x") {
        Err(ParseError::ParseIntError(numeral)) => assert_eq!(numeral, "1x"),
        other => panic!("{:?}", other),
    }
    match parse_value("") {
        Err(ParseError::ParseIntError(numeral)) => assert_eq!(numeral, ""),
        other => panic!("{:?}", other),
    }
    match parse_value("9223372036854775808") {
        Err(ParseError::ParseIntError(numeral)) => assert_eq!(numeral, "9223372036854775808"),
        other => panic!("{:?}", other),
    }
    match parse_value("1.2.3") {
        Err(ParseError::ParseFloatError(numeral)) => assert_eq!(numeral, "1.2.3"),
        other => panic!("{:?}", other),
    }
    match parse_value("abcde") {
        Err(ParseError::ParseFloatError(numeral)) => assert_eq!(numeral, "abcde"),
        other => panic!("{:?}", other),
    }
    match parse_value("inf") {
        Err(ParseError::ParseIntError(numeral)) => assert_eq!(numeral, "inf"),
        other => panic!("{:?}", other),
    }
}

#[test]
fn a_lone_quote_is_no_string() {
    assert_eq!(invalid_data(parse_value("\"")), "unterminated string literal");
}

#[test]
fn escaped_quote_handling() {
    let value = parse("{\"a\": \"x\\\"y\"}").unwrap();
    match value.index("a") {
        JsonValue::String(s) => {
            assert_eq!(s, "x\\\"y");
            assert!(s.contains("x") && s.contains("\"y"));
        }
        other => panic!("{:?}", other),
    }
}

#[test]
fn safe_miss_lookup() {
    let value = parse("{\"a\": {\"b\": 1}}").unwrap();
    match int_at(&value, &["a", "z"]) {
        Err(ParseError::TypeUnmatchedError(message)) => {
            assert_eq!(message, "Expected JsonValue::Number")
        }
        other => panic!("{:?}", other),
    }
    assert!(matches!(value.index("a").index("z"), JsonValue::InValidLocation));
    assert!(matches!(value.index("q").index("r").index("s"), JsonValue::InValidLocation));
    assert!(matches!(value.index("a").index("b").index("c"), JsonValue::InValidLocation));
    assert_eq!(int_at(&value, &["a", "b"]).unwrap(), 1);
}

#[test]
fn empty_containers() {
    let value = parse("{}").unwrap();
    match value {
        JsonValue::Object(members) => {
            assert!(members.is_empty());
            assert_eq!(members.len(), 0);
        }
        other => panic!("{:?}", other),
    }
    let value = parse("{\"a\": []}").unwrap();
    match value.index("a") {
        JsonValue::Array(elements) => assert!(elements.is_empty()),
        other => panic!("{:?}", other),
    }
    let value = parse("{\"a\": {}}").unwrap();
    match value.index("a") {
        JsonValue::Object(members) => assert!(members.is_empty()),
        other => panic!("{:?}", other),
    }
}

#[test]
fn nested_round_trip() {
    let value = parse("{\"a\":[1,2,{\"b\":true}]}").unwrap();
    let members = value.try_into_object().unwrap();
    assert_eq!(members.len(), 1);
    let elements = members.get("a").unwrap().clone().try_into_array().unwrap();
    assert_eq!(elements.len(), 3);
    assert!(matches!(elements[0], JsonValue::Number(Number::Int(1))));
    assert!(matches!(elements[1], JsonValue::Number(Number::Int(2))));
    match &elements[2] {
        JsonValue::Object(inner) => {
            assert_eq!(inner.len(), 1);
            assert!(matches!(inner.get("b"), Some(JsonValue::Bool(true))));
        }
        other => panic!("{:?}", other),
    }
}

#[test]
fn malformed_input() {
    assert_eq!(invalid_data(parse("{\"a\": 1")), "unexpected end of input");
    assert_eq!(invalid_data(parse("{\"a\": {\"b\": 1}")), "unexpected end of input");
    assert_eq!(invalid_data(parse("{\"a\": [1, 2")), "unexpected end of input");
    assert_eq!(invalid_data(parse("{")), "unexpected end of input");
}

#[test]
fn the_root_is_an_object() {
    assert_eq!(invalid_data(parse("")), "expected `{`");
    assert_eq!(invalid_data(parse("[1, 2]")), "expected `{`");
    assert_eq!(invalid_data(parse("1")), "expected `{`");
    assert_eq!(invalid_data(parse("\"a\"")), "expected `{`");
}

#[test]
fn unbalanced_brackets_are_malformed() {
    assert_eq!(invalid_data(parse("{\"a\": 1]")), "unbalanced brackets");
    assert_eq!(invalid_data(parse("{\"a\": [1}}")), "unbalanced brackets");
}

#[test]
fn a_value_without_a_key_is_malformed() {
    assert_eq!(invalid_data(parse("{1: 2}")), "expected a key");
    assert_eq!(invalid_data(parse("{{}}")), "expected a key");
    assert_eq!(invalid_data(parse("{[1]}")), "expected a key");
    assert_eq!(invalid_data(parse("{\"a\": 1, true}")), "expected a key");
}

#[test]
fn a_failure_inside_comes_before_the_missing_key() {
    assert!(matches!(parse("{[1x]}"), Err(ParseError::ParseIntError(_))));
    assert_eq!(invalid_data(parse("{[")), "unexpected end of input");
}

#[test]
fn numeral_failure_aborts_the_document() {
    match parse("{\"a\": [1, 2x, 3]}") {
        Err(ParseError::ParseIntError(numeral)) => assert_eq!(numeral, "2x"),
        other => panic!("{:?}", other),
    }
    match parse("{\"a\": 1.5.5, \"b\": oops}") {
        Err(ParseError::ParseFloatError(numeral)) => assert_eq!(numeral, "1.5.5"),
        other => panic!("{:?}", other),
    }
}

#[test]
fn a_later_member_replaces_an_earlier_one() {
    let value = parse("{\"a\": 1, \"b\": 2, \"a\": 3}").unwrap();
    assert_eq!(int_at(&value, &["a"]).unwrap(), 3);
    assert_eq!(int_at(&value, &["b"]).unwrap(), 2);
    match value {
        JsonValue::Object(members) => assert_eq!(members.len(), 2),
        other => panic!("{:?}", other),
    }
}

#[test]
fn a_key_without_a_value_is_dropped() {
    let value = parse("{\"a\": 1, \"b\"}").unwrap();
    assert_eq!(int_at(&value, &["a"]).unwrap(), 1);
    assert!(matches!(value.index("b"), JsonValue::InValidLocation));
}

#[test]
fn what_follows_the_document_is_not_looked_at() {
    let value = parse("{\"a\": 1} ] oops").unwrap();
    assert_eq!(int_at(&value, &["a"]).unwrap(), 1);
}

#[test]
fn all_kinds_of_values() {
    let text = "{ \"s\": \"a b\", \"i\": -12, \"f\": 2.5e-1, \"t\": true, \"n\": null,\n\t\"o\": {\"k\": false}, \"l\": [\"x\", [], {}] }";
    let value = parse(text).unwrap();
    assert_eq!(value.index("s").clone().try_into_string().unwrap(), "a b");
    assert_eq!(int_at(&value, &["i"]).unwrap(), -12);
    assert_eq!(float_of(value.index("f").clone()), 0.25);
    assert_eq!(value.index("t").clone().try_into_bool().unwrap(), true);
    assert!(matches!(value.index("n"), JsonValue::Null));
    assert_eq!(value.index("o").index("k").clone().try_into_bool().unwrap(), false);
    let list = value.index("l").clone().try_into_array().unwrap();
    assert_eq!(list.len(), 3);
    assert_eq!(list[0].clone().try_into_string().unwrap(), "x");
    assert!(matches!(&list[1], JsonValue::Array(inner) if inner.is_empty()));
    assert!(matches!(&list[2], JsonValue::Object(inner) if inner.is_empty()));
}

#[test]
fn narrowing_meets_only_its_own_variant() {
    let value = parse("{\"b\": true}").unwrap();
    let flag = value.index("b");
    for (result, expected) in [
        (flag.clone().try_into_string().err(), "Expected JsonValue::String"),
        (flag.clone().try_into_number().err(), "Expected JsonValue::Number"),
        (flag.clone().try_into_object().err(), "Expected JsonValue::Object"),
        (flag.clone().try_into_array().err(), "Expected JsonValue::Array"),
        (value.clone().try_into_bool().err(), "Expected JsonValue::Bool"),
    ] {
        match result {
            Some(ParseError::TypeUnmatchedError(message)) => assert_eq!(message, expected),
            other => panic!("{:?}", other),
        }
    }
    assert_eq!(flag.clone().try_into_bool().unwrap(), true);
}

#[test]
fn builders_report_the_closing_token() {
    let tokens = tokenize("{\"a\": [1, [2, 3], {\"b\": {}}], \"c\": 4} {}");
    let (consumed, _) = parse_obj(&tokens, 0).unwrap();
    assert_eq!(tokens[consumed], "}");
    assert_eq!(consumed, tokens.len() - 3);
    let (consumed, array) = parse_arr(&tokens, 3).unwrap();
    assert_eq!(tokens[3 + consumed], "]");
    assert_eq!(array.try_into_array().unwrap().len(), 3);
    let (consumed, inner) = parse_arr(&tokens, 5).unwrap();
    assert_eq!(consumed, 3);
    assert_eq!(inner.try_into_array().unwrap().len(), 2);
    let (consumed, last) = parse_obj(&tokens, tokens.len() - 2).unwrap();
    assert_eq!(consumed, 1);
    assert!(last.try_into_object().unwrap().is_empty());
}

#[test]
fn builders_want_their_opening_token() {
    let tokens = strings(&["{", "}", "[", "]"]);
    assert_eq!(invalid_data(parse_obj(&tokens, 2).map(|r| r.1)), "expected `{`");
    assert_eq!(invalid_data(parse_obj(&tokens, 4).map(|r| r.1)), "expected `{`");
    assert_eq!(invalid_data(parse_obj(&tokens, usize::MAX).map(|r| r.1)), "expected `{`");
    assert_eq!(invalid_data(parse_arr(&tokens, 0).map(|r| r.1)), "expected `[`");
    assert_eq!(invalid_data(parse_arr(&tokens, 9).map(|r| r.1)), "expected `[`");
    assert_eq!(invalid_data(parse_arr(&[], 0).map(|r| r.1)), "expected `[`");
}

#[test]
fn colons_and_commas_carry_no_action() {
    let tokens = strings(&["[", ",", "1", ":", ",", "2", "]"]);
    let (consumed, array) = parse_arr(&tokens, 0).unwrap();
    assert_eq!(consumed, 6);
    assert_eq!(array.try_into_array().unwrap().len(), 2);
    let tokens = strings(&["{", "\"a\"", "1", ",", ":", "\"b\"", ":", ":", "2", "}"]);
    let (_, object) = parse_obj(&tokens, 0).unwrap();
    assert_eq!(int_at(&object, &["a"]).unwrap(), 1);
    assert_eq!(int_at(&object, &["b"]).unwrap(), 2);
}

#[test]
fn a_cut_document_never_partially_succeeds() {
    let tokens = tokenize("{\"a\": [1, {\"b\": 2}], \"c\": {\"d\": []}}");
    let (consumed, _) = parse_obj(&tokens, 0).unwrap();
    assert_eq!(consumed, tokens.len() - 1);
    for cut in 1..tokens.len() {
        let result = parse_obj(&tokens[..cut], 0).map(|r| r.1);
        assert_eq!(invalid_data(result), "unexpected end of input", "cut at {}", cut);
    }
}

#[test]
fn objects_keep_one_member_per_key() {
    let mut members = JsonObject::new();
    assert!(members.is_empty());
    members.insert("a".to_string(), JsonValue::Null);
    members.insert("b".to_string(), JsonValue::Bool(true));
    members.insert("a".to_string(), JsonValue::Bool(false));
    assert_eq!(members.len(), 2);
    assert!(!members.is_empty());
    assert!(matches!(members.get("a"), Some(JsonValue::Bool(false))));
    assert!(matches!(members.get("b"), Some(JsonValue::Bool(true))));
    assert!(members.get("c").is_none());
    assert!(members.get("").is_none());
    let copy = members.clone();
    assert_eq!(copy.len(), 2);
    let entries = members.into_entries();
    let keys: Vec<&str> = entries.iter().map(|e| e.0.as_str()).collect();
    assert_eq!(keys, vec!["a", "b"]);
}

#[test]
fn a_copy_is_the_same_tree() {
    let value = parse("{\"a\": [1, 2.5, \"s\", null, {\"b\": [true]}]}").unwrap();
    let copy = value.clone();
    assert_eq!(format!("{:?}", copy), format!("{:?}", value));
}

#[test]
fn deep_nesting_is_followed() {
    let mut text = String::new();
    for _ in 0..200 {
        text.push_str("{\"k\": [");
    }
    text.push_str("7");
    for _ in 0..200 {
        text.push_str("]}");
    }
    let value = parse(&text).unwrap();
    let mut here = &value;
    for _ in 0..199 {
        match here.index("k") {
            JsonValue::Array(elements) => here = &elements[0],
            other => panic!("{:?}", other),
        }
    }
    match here.index("k") {
        JsonValue::Array(elements) => {
            assert!(matches!(elements[0], JsonValue::Number(Number::Int(7))))
        }
        other => panic!("{:?}", other),
    }
}
