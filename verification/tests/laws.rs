use json_decoder::chars::{is_delimiter, is_digit, is_separator, is_whitespace};
use json_decoder::{parse, parse_lazy, tokenize, JsonValue, Number};

fn same_tree(a: &JsonValue, b: &JsonValue) -> bool {
    match (a, b) {
        (JsonValue::String(x), JsonValue::String(y)) => x == y,
        (JsonValue::Number(Number::Int(x)), JsonValue::Number(Number::Int(y))) => x == y,
        (JsonValue::Number(Number::Float(x)), JsonValue::Number(Number::Float(y))) => {
            x.as_str() == y.as_str()
        }
        (JsonValue::Bool(x), JsonValue::Bool(y)) => x == y,
        (JsonValue::Null, JsonValue::Null) => true,
        (JsonValue::InValidLocation, JsonValue::InValidLocation) => true,
        (JsonValue::Array(x), JsonValue::Array(y)) => {
            x.len() == y.len() && x.iter().zip(y.iter()).all(|(p, q)| same_tree(p, q))
        }
        (JsonValue::Object(x), JsonValue::Object(y)) => {
            x.len() == y.len()
                && x.clone().into_entries().iter().all(|(key, member)| match y.get(key) {
                    Some(other) => same_tree(member, other),
                    None => false,
                })
        }
        _ => false,
    }
}

#[test]
fn canonical_text_decodes_to_the_same_tree() {
    let cases = [
        ("{ }", "{}"),
        ("{ \"a\" : 1 }", "{\"a\":1}"),
        ("{\"a\": +007}", "{\"a\":7}"),
        ("{\"a\": tru, \"b\": nil, \"c\": fals}", "{\"a\":true,\"b\":null,\"c\":false}"),
        (
            "{ \"b\" : [ 1 , 2.50 , \"x\\\"y\" ] ,\n \"a\" : { \"k\" : null } }",
            "{\"a\":{\"k\":null},\"b\":[1,2.50,\"x\\\"y\"]}",
        ),
        ("{\"a\": 1, \"a\": [2]}", "{\"a\":[2]}"),
        ("{\"a\": -0, \"z\": [[[]]], \"\": \"\"}", "{\"\":\"\",\"z\":[[[]]],\"a\":0}"),
        ("{\"n\": -9223372036854775808}", "{\"n\":-9223372036854775808}"),
    ];
    for (text, canonical) in cases {
        let first = parse(text).unwrap();
        let second = parse(canonical).unwrap();
        assert!(same_tree(&first, &second), "{} / {}", text, canonical);
        let third = parse_lazy(canonical).unwrap().materialize().unwrap();
        assert!(same_tree(&first, &third), "{} / {}", text, canonical);
    }
}

#[test]
fn different_trees_are_told_apart() {
    let a = parse("{\"a\": [1, 2]}").unwrap();
    for other in ["{\"a\": [2, 1]}", "{\"a\": [1]}", "{\"b\": [1, 2]}", "{\"a\": [1, 2.0]}", "{}"] {
        assert!(!same_tree(&a, &parse(other).unwrap()), "{}", other);
    }
}

fn is_structural(token: &str) -> bool {
    matches!(token, "{" | "}" | "[" | "]" | ":")
}

fn escaped_quotes(chars: &[char]) -> bool {
    (0..chars.len()).all(|i| chars[i] != '"' || (i > 0 && chars[i - 1] == '\\'))
}

fn is_string_literal(token: &str) -> bool {
    let chars: Vec<char> = token.chars().collect();
    let n = chars.len();
    n >= 2
        && chars[0] == '"'
        && chars[n - 1] == '"'
        && escaped_quotes(&chars[1..n - 1])
        && (n == 2 || chars[n - 2] != '\\')
}

fn is_bare_literal(token: &str) -> bool {
    let chars: Vec<char> = token.chars().collect();
    !chars.is_empty()
        && chars[0] != '"'
        && chars.iter().all(|c| !c.is_whitespace() && !"{}[]:,".contains(*c))
        && escaped_quotes(&chars)
}

#[test]
fn every_token_is_sound() {
    let texts = [
        "",
        "{\"a\": 1, \"b\": [true, null], \"c\": \"x\\\"y\"}",
        " 12 34 , ab\\\"cd : \"q\" tail",
        "\\\"\\\"",
        "\"\"\"\"\"",
        "a\"b\\\"c\"d\"e",
        "{\"k\\\\\" : 1}",
        "\u{a0}x\u{3000}y\t,\"\u{2028}\"",
        "[[[{{{:::,,,",
        "\"unterminated \\\" text",
    ];
    for text in texts {
        for token in tokenize(text) {
            assert!(
                is_structural(&token) || is_string_literal(&token) || is_bare_literal(&token),
                "{:?} in {:?}",
                token,
                text
            );
        }
    }
}

#[test]
fn character_classes() {
    for c in ['{', '}', '[', ']', ':'] {
        assert!(is_delimiter(c) && is_separator(c) && !is_whitespace(c) && !is_digit(c));
    }
    assert!(is_separator(',') && !is_delimiter(','));
    for c in ['a', '"', '\\', '0', ' ', ';', '(', '.'] {
        assert!(!is_delimiter(c) && !is_separator(c), "{:?}", c);
    }
    for c in ['0', '5', '9'] {
        assert!(is_digit(c));
    }
    for c in ['/', ':', 'a', '\u{0661}', '\u{ff11}'] {
        assert!(!is_digit(c), "{:?}", c);
    }
    for c in [' ', '\t', '\n', '\r', '\u{b}', '\u{c}', '\u{85}', '\u{a0}', '\u{2003}', '\u{3000}'] {
        assert!(is_whitespace(c), "{:?}", c);
    }
    for c in ['a', '\u{200b}', '\u{180e}', '\u{feff}', '\0'] {
        assert!(!is_whitespace(c), "{:?}", c);
    }
}
