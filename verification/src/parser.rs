//! The tree builder: from tokens to a tree.
//!
//! An object body and an array body are read by two procedures that call
//! each other for what is nested.  Each starts at the token that opens its
//! structure and reports, with the tree, how far behind that token the
//! closing token stands.

use vstd::prelude::*;
use crate::chars::{chars_of, single_char, string_of, QUOTE};
use crate::error::{Failure, ParseError};
use crate::lexer::{texts, tokenize, tokens_of};
use crate::numeral::{float_literal, i64_of, parse_i64};
use crate::value::{
    values_model, FloatLiteral, JsonModel, JsonObject, JsonValue, Number, NumberModel,
};

verus! {

/// Whether `token` holds a decimal point or an exponent mark.  Such a numeral
/// is read as a floating-point number, any other as an integer.
pub open spec fn float_marked(token: Seq<char>) -> bool {
    exists|i: int|
        0 <= i < token.len() && (#[trigger] token[i] == '.' || token[i] == 'e' || token[i] == 'E')
}

/// What a bare or quoted token stands for.  The first character decides: a
/// quote makes a string, `n` null, `t` true, `f` false.  Anything else is a
/// numeral, and fails as one where it is malformed.
pub open spec fn classify(token: Seq<char>) -> Result<JsonModel, Failure> {
    if token.len() > 0 && token[0] == QUOTE {
        if token.len() >= 2 {
            Ok(JsonModel::String(token.subrange(1, token.len() - 1)))
        } else {
            Err(Failure::unterminated_string())
        }
    } else if token.len() > 0 && token[0] == 'n' {
        Ok(JsonModel::Null)
    } else if token.len() > 0 && token[0] == 't' {
        Ok(JsonModel::Bool(true))
    } else if token.len() > 0 && token[0] == 'f' {
        Ok(JsonModel::Bool(false))
    } else if float_marked(token) {
        if float_literal(token) {
            Ok(JsonModel::Number(NumberModel::Float(token)))
        } else {
            Err(Failure::ParseFloatError(token))
        }
    } else {
        match i64_of(token) {
            Some(i) => Ok(JsonModel::Number(NumberModel::Int(i))),
            None => Err(Failure::ParseIntError(token)),
        }
    }
}

/// Whether `token` can serve as a key: a quote and at least one character
/// more.
pub open spec fn quoted_key(token: Seq<char>) -> bool {
    token.len() >= 2 && token[0] == QUOTE
}

/// The key that a quoted token holds: the token without its first and last
/// character.
pub open spec fn key_of(token: Seq<char>) -> Seq<char> {
    token.subrange(1, token.len() - 1)
}

/// The token that consists of the character `c`.
pub open spec fn mark(c: char) -> Seq<char> {
    seq![c]
}

/// A token is the mark of `c` if and only if `c` is its only character.
pub proof fn lemma_mark(token: Seq<char>)
    ensures
        forall|c: char| token == #[trigger] mark(c) <==> token.len() == 1 && token[0] == c,
{
    assert forall|c: char| token == #[trigger] mark(c) <==> token.len() == 1 && token[0]
        == c by {
        if token.len() == 1 && token[0] == c {
            assert(token =~= mark(c));
        }
        if token == mark(c) {
            assert(mark(c)[0] == c);
        }
    }
}

/// The rest of an object from the token at `at` on, where `key` is the key
/// that still waits for its value and `members` holds what was read: the
/// position of the closing brace, and the members.
///
/// A nested structure always ends at a token behind `at`, so the test on
/// what it consumed never fails.
pub open spec fn object_rest(
    tokens: Seq<Seq<char>>,
    at: int,
    key: Option<Seq<char>>,
    members: Map<Seq<char>, JsonModel>,
) -> Result<(int, Map<Seq<char>, JsonModel>), Failure>
    decreases tokens.len() - at, 1int,
{
    if at < 0 || at >= tokens.len() {
        Err(Failure::unexpected_end())
    } else if tokens[at] == mark('}') {
        Ok((at, members))
    } else if tokens[at] == mark(']') {
        Err(Failure::unbalanced())
    } else if tokens[at] == mark(':') || tokens[at] == mark(',') {
        object_rest(tokens, at + 1, key, members)
    } else if tokens[at] == mark('{') || tokens[at] == mark('[') {
        let nested = if tokens[at] == mark('{') {
            object_at(tokens, at)
        } else {
            array_at(tokens, at)
        };
        match nested {
            Err(e) => Err(e),
            Ok((consumed, value)) => match key {
                None => Err(Failure::expected_key()),
                Some(k) => if 0 < consumed && at + consumed < tokens.len() {
                    object_rest(tokens, at + consumed + 1, None, members.insert(k, value))
                } else {
                    Err(Failure::unexpected_end())
                },
            },
        }
    } else {
        match key {
            None => if quoted_key(tokens[at]) {
                object_rest(tokens, at + 1, Some(key_of(tokens[at])), members)
            } else {
                Err(Failure::expected_key())
            },
            Some(k) => match classify(tokens[at]) {
                Err(e) => Err(e),
                Ok(value) => object_rest(tokens, at + 1, None, members.insert(k, value)),
            },
        }
    }
}

/// The rest of an array from the token at `at` on, where `elements` holds
/// what was read: the position of the closing bracket, and the elements.
pub open spec fn array_rest(tokens: Seq<Seq<char>>, at: int, elements: Seq<JsonModel>) -> Result<
    (int, Seq<JsonModel>),
    Failure,
>
    decreases tokens.len() - at, 1int,
{
    if at < 0 || at >= tokens.len() {
        Err(Failure::unexpected_end())
    } else if tokens[at] == mark(']') {
        Ok((at, elements))
    } else if tokens[at] == mark('}') {
        Err(Failure::unbalanced())
    } else if tokens[at] == mark(':') || tokens[at] == mark(',') {
        array_rest(tokens, at + 1, elements)
    } else if tokens[at] == mark('{') || tokens[at] == mark('[') {
        let nested = if tokens[at] == mark('{') {
            object_at(tokens, at)
        } else {
            array_at(tokens, at)
        };
        match nested {
            Err(e) => Err(e),
            Ok((consumed, value)) => if 0 < consumed && at + consumed < tokens.len() {
                array_rest(tokens, at + consumed + 1, elements.push(value))
            } else {
                Err(Failure::unexpected_end())
            },
        }
    } else {
        match classify(tokens[at]) {
            Err(e) => Err(e),
            Ok(value) => array_rest(tokens, at + 1, elements.push(value)),
        }
    }
}

/// The object that the tokens from `pos` on begin with, where `tokens[pos]`
/// is to be the opening brace: how far behind `pos` the closing brace
/// stands, and the tree.
pub open spec fn object_at(tokens: Seq<Seq<char>>, pos: int) -> Result<(int, JsonModel), Failure>
    decreases tokens.len() - pos, 0int,
{
    if 0 <= pos < tokens.len() && tokens[pos] == mark('{') {
        match object_rest(tokens, pos + 1, None, Map::empty()) {
            Ok((close, members)) => Ok((close - pos, JsonModel::Object(members))),
            Err(e) => Err(e),
        }
    } else {
        Err(Failure::expected_object())
    }
}

/// The array that the tokens from `pos` on begin with, where `tokens[pos]`
/// is to be the opening bracket: how far behind `pos` the closing bracket
/// stands, and the tree.
pub open spec fn array_at(tokens: Seq<Seq<char>>, pos: int) -> Result<(int, JsonModel), Failure>
    decreases tokens.len() - pos, 0int,
{
    if 0 <= pos < tokens.len() && tokens[pos] == mark('[') {
        match array_rest(tokens, pos + 1, Seq::empty()) {
            Ok((close, elements)) => Ok((close - pos, JsonModel::Array(elements))),
            Err(e) => Err(e),
        }
    } else {
        Err(Failure::expected_array())
    }
}

/// The tree that a document decodes to.  The document is to be an object;
/// what follows its closing brace is not looked at.
pub open spec fn decode(text: Seq<char>) -> Result<JsonModel, Failure> {
    match object_at(tokens_of(text), 0) {
        Ok((_, tree)) => Ok(tree),
        Err(e) => Err(e),
    }
}

/// The mathematical content of a decoded value or a failure.
pub open spec fn value_result(r: Result<JsonValue, ParseError>) -> Result<JsonModel, Failure> {
    match r {
        Ok(value) => Ok(value@),
        Err(e) => Err(e@),
    }
}

/// The mathematical content of what a builder returns.
pub open spec fn built_result(r: Result<(usize, JsonValue), ParseError>) -> Result<
    (int, JsonModel),
    Failure,
> {
    match r {
        Ok((consumed, value)) => Ok((consumed as int, value@)),
        Err(e) => Err(e@),
    }
}

/// Whether `chars` holds a decimal point or an exponent mark.
fn has_float_mark(chars: &[char]) -> (b: bool)
    ensures
        b == float_marked(chars@),
{
    let mut i: usize = 0;
    while i < chars.len()
        invariant
            i <= chars.len(),
            forall|j: int|
                0 <= j < i ==> !(#[trigger] chars@[j] == '.' || chars@[j] == 'e' || chars@[j]
                    == 'E'),
        decreases chars.len() - i,
    {
        let c: char = chars[i];
        if c == '.' || c == 'e' || c == 'E' {
            assert(chars@[i as int] == '.' || chars@[i as int] == 'e' || chars@[i as int] == 'E');
            return true;
        }
        i += 1;
    }
    false
}

/// The value that the token `s` stands for.
pub fn parse_value(s: &str) -> (r: Result<JsonValue, ParseError>)
    ensures
        value_result(r) == classify(s@),
{
    let chars = chars_of(s);
    let n: usize = chars.len();
    if n > 0 && chars[0] == QUOTE {
        if n >= 2 {
            Ok(JsonValue::String(string_of(chars.as_slice(), 1, n - 1)))
        } else {
            Err(ParseError::unterminated_string())
        }
    } else if n > 0 && chars[0] == 'n' {
        Ok(JsonValue::Null)
    } else if n > 0 && chars[0] == 't' {
        Ok(JsonValue::Bool(true))
    } else if n > 0 && chars[0] == 'f' {
        Ok(JsonValue::Bool(false))
    } else if has_float_mark(chars.as_slice()) {
        match FloatLiteral::parse(s) {
            Some(f) => Ok(JsonValue::Number(Number::Float(f))),
            None => Err(ParseError::ParseFloatError(s.to_owned())),
        }
    } else {
        match parse_i64(chars.as_slice()) {
            Some(i) => Ok(JsonValue::Number(Number::Int(i))),
            None => Err(ParseError::ParseIntError(s.to_owned())),
        }
    }
}

/// The key that `token` holds, if it can serve as a key.
pub fn unquote(token: &str) -> (r: Option<String>)
    ensures
        match r {
            Some(key) => quoted_key(token@) && key@ == key_of(token@),
            None => !quoted_key(token@),
        },
{
    let chars = chars_of(token);
    let n: usize = chars.len();
    if n >= 2 && chars[0] == QUOTE {
        Some(string_of(chars.as_slice(), 1, n - 1))
    } else {
        None
    }
}

/// The text of a key that may be there.
pub open spec fn key_text(key: Option<String>) -> Option<Seq<char>> {
    match key {
        Some(k) => Some(k@),
        None => None,
    }
}

/// Builds the object that opens at `tokens[pos]`.  On success the first
/// component says how far behind `pos` the closing brace stands.
pub fn parse_obj(tokens: &[String], pos: usize) -> (r: Result<(usize, JsonValue), ParseError>)
    ensures
        built_result(r) == object_at(texts(tokens@), pos as int),
        r matches Ok((consumed, _)) ==> 0 < consumed && pos + consumed < tokens.len() && tokens[pos
            + consumed]@ == mark('}'),
    decreases tokens.len() - pos,
{
    if pos >= tokens.len() {
        return Err(ParseError::expected_object());
    }
    let opening: Option<char> = single_char(tokens[pos].as_str());
    if opening != Some('{') {
        assert(tokens[pos as int]@ != mark('{')) by {
            if tokens[pos as int]@ == mark('{') {
                assert(mark('{')[0] == '{');
            }
        }
        return Err(ParseError::expected_object());
    }
    let ghost all = texts(tokens@);
    let mut members = JsonObject::new();
    let mut key: Option<String> = None;
    let mut at: usize = pos + 1;
    loop
        invariant
            pos < at <= tokens.len(),
            all == texts(tokens@),
            all[pos as int] == mark('{'),
            object_rest(all, at as int, key_text(key), members@) == object_rest(
                all,
                pos + 1,
                None,
                Map::empty(),
            ),
        decreases tokens.len() - at,
    {
        if at >= tokens.len() {
            return Err(ParseError::unexpected_end());
        }
        let token: &str = tokens[at].as_str();
        assert(token@ == all[at as int]);
        proof {
            lemma_mark(token@);
        }
        let c: Option<char> = single_char(token);
        if c == Some('}') {
            return Ok((at - pos, JsonValue::Object(members)));
        } else if c == Some(']') {
            return Err(ParseError::unbalanced());
        } else if c == Some(':') || c == Some(',') {
        } else if c == Some('{') || c == Some('[') {
            let nested = if c == Some('{') {
                parse_obj(tokens, at)
            } else {
                parse_arr(tokens, at)
            };
            match nested {
                Err(e) => {
                    return Err(e);
                },
                Ok((consumed, value)) => match key.take() {
                    None => {
                        return Err(ParseError::expected_key());
                    },
                    Some(k) => {
                        members.insert(k, value);
                        at += consumed;
                    },
                },
            }
        } else {
            match key.take() {
                None => match unquote(token) {
                    Some(k) => {
                        key = Some(k);
                    },
                    None => {
                        return Err(ParseError::expected_key());
                    },
                },
                Some(k) => match parse_value(token) {
                    Err(e) => {
                        return Err(e);
                    },
                    Ok(value) => {
                        members.insert(k, value);
                    },
                },
            }
        }
        at += 1;
    }
}

/// Builds the array that opens at `tokens[pos]`.  On success the first
/// component says how far behind `pos` the closing bracket stands.
pub fn parse_arr(tokens: &[String], pos: usize) -> (r: Result<(usize, JsonValue), ParseError>)
    ensures
        built_result(r) == array_at(texts(tokens@), pos as int),
        r matches Ok((consumed, _)) ==> 0 < consumed && pos + consumed < tokens.len() && tokens[pos
            + consumed]@ == mark(']'),
    decreases tokens.len() - pos,
{
    if pos >= tokens.len() {
        return Err(ParseError::expected_array());
    }
    let opening: Option<char> = single_char(tokens[pos].as_str());
    if opening != Some('[') {
        assert(tokens[pos as int]@ != mark('[')) by {
            if tokens[pos as int]@ == mark('[') {
                assert(mark('[')[0] == '[');
            }
        }
        return Err(ParseError::expected_array());
    }
    let ghost all = texts(tokens@);
    let mut elements: Vec<JsonValue> = Vec::new();
    let mut at: usize = pos + 1;
    assert(values_model(elements@) =~= Seq::empty());
    loop
        invariant
            pos < at <= tokens.len(),
            all == texts(tokens@),
            all[pos as int] == mark('['),
            array_rest(all, at as int, values_model(elements@)) == array_rest(
                all,
                pos + 1,
                Seq::empty(),
            ),
        decreases tokens.len() - at,
    {
        if at >= tokens.len() {
            return Err(ParseError::unexpected_end());
        }
        let token: &str = tokens[at].as_str();
        assert(token@ == all[at as int]);
        proof {
            lemma_mark(token@);
        }
        let c: Option<char> = single_char(token);
        let ghost before = values_model(elements@);
        if c == Some(']') {
            return Ok((at - pos, JsonValue::Array(elements)));
        } else if c == Some('}') {
            return Err(ParseError::unbalanced());
        } else if c == Some(':') || c == Some(',') {
        } else if c == Some('{') || c == Some('[') {
            let nested = if c == Some('{') {
                parse_obj(tokens, at)
            } else {
                parse_arr(tokens, at)
            };
            match nested {
                Err(e) => {
                    return Err(e);
                },
                Ok((consumed, value)) => {
                    elements.push(value);
                    assert(values_model(elements@) =~= before.push(value@));
                    at += consumed;
                },
            }
        } else {
            match parse_value(token) {
                Err(e) => {
                    return Err(e);
                },
                Ok(value) => {
                    elements.push(value);
                    assert(values_model(elements@) =~= before.push(value@));
                },
            }
        }
        at += 1;
    }
}

/// Decodes a document.  The document is to be an object; what follows its
/// closing brace is not looked at.
pub fn parse(s: &str) -> (r: Result<JsonValue, ParseError>)
    ensures
        value_result(r) == decode(s@),
{
    let tokens = tokenize(s);
    match parse_obj(tokens.as_slice(), 0) {
        Ok((_, value)) => Ok(value),
        Err(e) => Err(e),
    }
}

} // verus!
