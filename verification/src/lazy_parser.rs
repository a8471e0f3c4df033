//! The tree builder for lazy trees.  It reads objects and arrays as the
//! eager builder does, but keeps every leaf as the token it was read from.

use vstd::prelude::*;
use crate::chars::single_char;
use crate::error::{Failure, ParseError};
use crate::lazy::{lazy_values_model, JsonValueLazy, LazyModel, LazyObject};
use crate::lexer::{texts, tokenize, tokens_of};
use crate::parser::{key_of, key_text, lemma_mark, mark, quoted_key, unquote};

verus! {

/// The rest of a lazy object from the token at `at` on, where `key` is the
/// key that still waits for its value and `members` holds what was read: the
/// position of the closing brace, and the members.
pub open spec fn lazy_object_rest(
    tokens: Seq<Seq<char>>,
    at: int,
    key: Option<Seq<char>>,
    members: Map<Seq<char>, LazyModel>,
) -> Result<(int, Map<Seq<char>, LazyModel>), Failure>
    decreases tokens.len() - at, 1int,
{
    if at < 0 || at >= tokens.len() {
        Err(Failure::unexpected_end())
    } else if tokens[at] == mark('}') {
        Ok((at, members))
    } else if tokens[at] == mark(']') {
        Err(Failure::unbalanced())
    } else if tokens[at] == mark(':') || tokens[at] == mark(',') {
        lazy_object_rest(tokens, at + 1, key, members)
    } else if tokens[at] == mark('{') || tokens[at] == mark('[') {
        let nested = if tokens[at] == mark('{') {
            lazy_object_at(tokens, at)
        } else {
            lazy_array_at(tokens, at)
        };
        match nested {
            Err(e) => Err(e),
            Ok((consumed, value)) => match key {
                None => Err(Failure::expected_key()),
                Some(k) => if 0 < consumed && at + consumed < tokens.len() {
                    lazy_object_rest(tokens, at + consumed + 1, None, members.insert(k, value))
                } else {
                    Err(Failure::unexpected_end())
                },
            },
        }
    } else {
        match key {
            None => if quoted_key(tokens[at]) {
                lazy_object_rest(tokens, at + 1, Some(key_of(tokens[at])), members)
            } else {
                Err(Failure::expected_key())
            },
            Some(k) => lazy_object_rest(
                tokens,
                at + 1,
                None,
                members.insert(k, LazyModel::Something(tokens[at])),
            ),
        }
    }
}

/// The rest of a lazy array from the token at `at` on, where `elements`
/// holds what was read: the position of the closing bracket, and the
/// elements.
pub open spec fn lazy_array_rest(
    tokens: Seq<Seq<char>>,
    at: int,
    elements: Seq<LazyModel>,
) -> Result<(int, Seq<LazyModel>), Failure>
    decreases tokens.len() - at, 1int,
{
    if at < 0 || at >= tokens.len() {
        Err(Failure::unexpected_end())
    } else if tokens[at] == mark(']') {
        Ok((at, elements))
    } else if tokens[at] == mark('}') {
        Err(Failure::unbalanced())
    } else if tokens[at] == mark(':') || tokens[at] == mark(',') {
        lazy_array_rest(tokens, at + 1, elements)
    } else if tokens[at] == mark('{') || tokens[at] == mark('[') {
        let nested = if tokens[at] == mark('{') {
            lazy_object_at(tokens, at)
        } else {
            lazy_array_at(tokens, at)
        };
        match nested {
            Err(e) => Err(e),
            Ok((consumed, value)) => if 0 < consumed && at + consumed < tokens.len() {
                lazy_array_rest(tokens, at + consumed + 1, elements.push(value))
            } else {
                Err(Failure::unexpected_end())
            },
        }
    } else {
        lazy_array_rest(tokens, at + 1, elements.push(LazyModel::Something(tokens[at])))
    }
}

/// The lazy object that the tokens from `pos` on begin with, where
/// `tokens[pos]` is to be the opening brace.
pub open spec fn lazy_object_at(tokens: Seq<Seq<char>>, pos: int) -> Result<
    (int, LazyModel),
    Failure,
>
    decreases tokens.len() - pos, 0int,
{
    if 0 <= pos < tokens.len() && tokens[pos] == mark('{') {
        match lazy_object_rest(tokens, pos + 1, None, Map::empty()) {
            Ok((close, members)) => Ok((close - pos, LazyModel::Object(members))),
            Err(e) => Err(e),
        }
    } else {
        Err(Failure::expected_object())
    }
}

/// The lazy array that the tokens from `pos` on begin with, where
/// `tokens[pos]` is to be the opening bracket.
pub open spec fn lazy_array_at(tokens: Seq<Seq<char>>, pos: int) -> Result<
    (int, LazyModel),
    Failure,
>
    decreases tokens.len() - pos, 0int,
{
    if 0 <= pos < tokens.len() && tokens[pos] == mark('[') {
        match lazy_array_rest(tokens, pos + 1, Seq::empty()) {
            Ok((close, elements)) => Ok((close - pos, LazyModel::Array(elements))),
            Err(e) => Err(e),
        }
    } else {
        Err(Failure::expected_array())
    }
}

/// The lazy tree that a document decodes to.
pub open spec fn decode_lazy(text: Seq<char>) -> Result<LazyModel, Failure> {
    match lazy_object_at(tokens_of(text), 0) {
        Ok((_, tree)) => Ok(tree),
        Err(e) => Err(e),
    }
}

/// The mathematical content of a lazily decoded value or a failure.
pub open spec fn lazy_result(r: Result<JsonValueLazy, ParseError>) -> Result<LazyModel, Failure> {
    match r {
        Ok(value) => Ok(value@),
        Err(e) => Err(e@),
    }
}

/// The mathematical content of what a lazy builder returns.
pub open spec fn lazy_built_result(r: Result<(usize, JsonValueLazy), ParseError>) -> Result<
    (int, LazyModel),
    Failure,
> {
    match r {
        Ok((consumed, value)) => Ok((consumed as int, value@)),
        Err(e) => Err(e@),
    }
}

/// Builds the lazy object that opens at `tokens[pos]`.  On success the first
/// component says how far behind `pos` the closing brace stands.
pub fn parse_obj_lazy(tokens: &[String], pos: usize) -> (r: Result<
    (usize, JsonValueLazy),
    ParseError,
>)
    ensures
        lazy_built_result(r) == lazy_object_at(texts(tokens@), pos as int),
        r matches Ok((consumed, _)) ==> 0 < consumed && pos + consumed < tokens.len() && tokens[pos
            + consumed]@ == mark('}'),
    decreases tokens.len() - pos,
{
    if pos >= tokens.len() {
        return Err(ParseError::expected_object());
    }
    let opening: Option<char> = single_char(tokens[pos].as_str());
    if opening != Some('{') {
        assert(tokens[pos as int]@ != mark('{')) by {
            if tokens[pos as int]@ == mark('{') {
                assert(mark('{')[0] == '{');
            }
        }
        return Err(ParseError::expected_object());
    }
    let ghost all = texts(tokens@);
    let mut members = LazyObject::new();
    let mut key: Option<String> = None;
    let mut at: usize = pos + 1;
    loop
        invariant
            pos < at <= tokens.len(),
            all == texts(tokens@),
            all[pos as int] == mark('{'),
            lazy_object_rest(all, at as int, key_text(key), members@) == lazy_object_rest(
                all,
                pos + 1,
                None,
                Map::empty(),
            ),
        decreases tokens.len() - at,
    {
        if at >= tokens.len() {
            return Err(ParseError::unexpected_end());
        }
        let token: &str = tokens[at].as_str();
        assert(token@ == all[at as int]);
        proof {
            lemma_mark(token@);
        }
        let c: Option<char> = single_char(token);
        if c == Some('}') {
            return Ok((at - pos, JsonValueLazy::Object(members)));
        } else if c == Some(']') {
            return Err(ParseError::unbalanced());
        } else if c == Some(':') || c == Some(',') {
        } else if c == Some('{') || c == Some('[') {
            let nested = if c == Some('{') {
                parse_obj_lazy(tokens, at)
            } else {
                parse_arr_lazy(tokens, at)
            };
            match nested {
                Err(e) => {
                    return Err(e);
                },
                Ok((consumed, value)) => match key.take() {
                    None => {
                        return Err(ParseError::expected_key());
                    },
                    Some(k) => {
                        members.insert(k, value);
                        at += consumed;
                    },
                },
            }
        } else {
            match key.take() {
                None => match unquote(token) {
                    Some(k) => {
                        key = Some(k);
                    },
                    None => {
                        return Err(ParseError::expected_key());
                    },
                },
                Some(k) => {
                    members.insert(k, JsonValueLazy::Something(token.to_owned()));
                },
            }
        }
        at += 1;
    }
}

/// Builds the lazy array that opens at `tokens[pos]`.  On success the first
/// component says how far behind `pos` the closing bracket stands.
pub fn parse_arr_lazy(tokens: &[String], pos: usize) -> (r: Result<
    (usize, JsonValueLazy),
    ParseError,
>)
    ensures
        lazy_built_result(r) == lazy_array_at(texts(tokens@), pos as int),
        r matches Ok((consumed, _)) ==> 0 < consumed && pos + consumed < tokens.len() && tokens[pos
            + consumed]@ == mark(']'),
    decreases tokens.len() - pos,
{
    if pos >= tokens.len() {
        return Err(ParseError::expected_array());
    }
    let opening: Option<char> = single_char(tokens[pos].as_str());
    if opening != Some('[') {
        assert(tokens[pos as int]@ != mark('[')) by {
            if tokens[pos as int]@ == mark('[') {
                assert(mark('[')[0] == '[');
            }
        }
        return Err(ParseError::expected_array());
    }
    let ghost all = texts(tokens@);
    let mut elements: Vec<JsonValueLazy> = Vec::new();
    let mut at: usize = pos + 1;
    assert(lazy_values_model(elements@) =~= Seq::empty());
    loop
        invariant
            pos < at <= tokens.len(),
            all == texts(tokens@),
            all[pos as int] == mark('['),
            lazy_array_rest(all, at as int, lazy_values_model(elements@)) == lazy_array_rest(
                all,
                pos + 1,
                Seq::empty(),
            ),
        decreases tokens.len() - at,
    {
        if at >= tokens.len() {
            return Err(ParseError::unexpected_end());
        }
        let token: &str = tokens[at].as_str();
        assert(token@ == all[at as int]);
        proof {
            lemma_mark(token@);
        }
        let c: Option<char> = single_char(token);
        let ghost before = lazy_values_model(elements@);
        if c == Some(']') {
            return Ok((at - pos, JsonValueLazy::Array(elements)));
        } else if c == Some('}') {
            return Err(ParseError::unbalanced());
        } else if c == Some(':') || c == Some(',') {
        } else if c == Some('{') || c == Some('[') {
            let nested = if c == Some('{') {
                parse_obj_lazy(tokens, at)
            } else {
                parse_arr_lazy(tokens, at)
            };
            match nested {
                Err(e) => {
                    return Err(e);
                },
                Ok((consumed, value)) => {
                    elements.push(value);
                    assert(lazy_values_model(elements@) =~= before.push(value@));
                    at += consumed;
                },
            }
        } else {
            let leaf = JsonValueLazy::Something(token.to_owned());
            elements.push(leaf);
            assert(lazy_values_model(elements@) =~= before.push(leaf@));
        }
        at += 1;
    }
}

/// Decodes a document into a lazy tree.  The document is to be an object;
/// what follows its closing brace is not looked at.
pub fn parse_lazy(s: &str) -> (r: Result<JsonValueLazy, ParseError>)
    ensures
        lazy_result(r) == decode_lazy(s@),
{
    let tokens = tokenize(s);
    match parse_obj_lazy(tokens.as_slice(), 0) {
        Ok((_, value)) => Ok(value),
        Err(e) => Err(e),
    }
}

} // verus!
