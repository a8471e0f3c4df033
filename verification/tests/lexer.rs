use json_decoder::tokenize;

fn tokens(text: &str) -> Vec<String> {
    tokenize(text)
}

#[test]
fn empty_document_has_no_tokens() {
    assert_eq!(tokens(""), Vec::<String>::new());
}

#[test]
fn delimiters_are_tokens_and_commas_are_dropped() {
    assert_eq!(tokens("{}[]:,"), vec!["{", "}", "[", "]", ":"]);
}

#[test]
fn simple_document() {
    assert_eq!(
        tokens("{\"a\": 1, \"b\": [true, null]}"),
        vec!["{", "\"a\"", ":", "1", "\"b\"", ":", "[", "true", "null", "]", "}"]
    );
}

#[test]
fn string_with_structural_characters_is_one_token() {
    assert_eq!(tokens("{\"k\": \"{[ :, ]}\"}"), vec!["{", "\"k\"", ":", "\"{[ :, ]}\"", "}"]);
}

#[test]
fn escaped_quotes_stay_inside_the_literal() {
    assert_eq!(tokens("{\"a\": \"x\\\"y\"}"), vec!["{", "\"a\"", ":", "\"x\\\"y\"", "}"]);
    assert_eq!(tokens("\"a\\\"b\\\"c\""), vec!["\"a\\\"b\\\"c\""]);
}

#[test]
fn whitespace_inside_a_bare_literal_is_removed() {
    assert_eq!(tokens("[1 2, tr ue]"), vec!["[", "12", "true", "]"]);
}

#[test]
fn unterminated_literal_is_closed() {
    assert_eq!(tokens("{\"a"), vec!["{", "\"a\""]);
    assert_eq!(tokens("\""), vec!["\"\""]);
}

#[test]
fn trailing_backslash_drops_the_last_segment() {
    assert_eq!(tokens("{\"a\":1}\\"), vec!["{", "\"a\""]);
    assert_eq!(tokens("\\"), Vec::<String>::new());
}
