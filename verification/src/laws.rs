//! What holds of the decoder as a whole: laws that relate several of its
//! functions, each proved from their definitions.

use vstd::prelude::*;
use crate::error::Failure;
use crate::lazy::{
    lemma_materializable_elements, lemma_materializable_members, lemma_materialized_elements,
    lemma_materialized_members, materialized_elements, LazyModel,
};
use crate::lazy_parser::{
    decode_lazy, lazy_array_at, lazy_array_rest, lazy_object_at, lazy_object_rest,
};
use crate::lexer::tokens_of;
use crate::parser::{
    array_at, array_rest, classify, decode, key_of, mark, object_at, object_rest,
};
use crate::value::JsonModel;

verus! {

/// Whether the lazy members, once materialized, are the eager members.
pub open spec fn members_agree(
    lazy: Map<Seq<char>, LazyModel>,
    eager: Map<Seq<char>, JsonModel>,
) -> bool {
    &&& lazy.dom() == eager.dom()
    &&& forall|key: Seq<char>|
        lazy.dom().contains(key) ==> (#[trigger] lazy[key]).materializable()
            && lazy[key].materialized() == eager[key]
}

/// Whether the lazy elements, once materialized, are the eager elements.
pub open spec fn elements_agree(lazy: Seq<LazyModel>, eager: Seq<JsonModel>) -> bool {
    &&& lazy.len() == eager.len()
    &&& forall|i: int|
        0 <= i < lazy.len() ==> (#[trigger] lazy[i]).materializable() && lazy[i].materialized()
            == eager[i]
}

/// Whether the lazy tree is materializable and materializes to the eager
/// tree.
pub open spec fn trees_agree(lazy: LazyModel, eager: JsonModel) -> bool {
    lazy.materializable() && lazy.materialized() == eager
}

proof fn lemma_members_agree_insert(
    lazy: Map<Seq<char>, LazyModel>,
    eager: Map<Seq<char>, JsonModel>,
    key: Seq<char>,
    lazy_value: LazyModel,
    eager_value: JsonModel,
)
    requires
        members_agree(lazy, eager),
        trees_agree(lazy_value, eager_value),
    ensures
        members_agree(lazy.insert(key, lazy_value), eager.insert(key, eager_value)),
{
    assert(lazy.insert(key, lazy_value).dom() =~= eager.insert(key, eager_value).dom());
}

proof fn lemma_elements_agree_push(
    lazy: Seq<LazyModel>,
    eager: Seq<JsonModel>,
    lazy_value: LazyModel,
    eager_value: JsonModel,
)
    requires
        elements_agree(lazy, eager),
        trees_agree(lazy_value, eager_value),
    ensures
        elements_agree(lazy.push(lazy_value), eager.push(eager_value)),
{
}

proof fn lemma_object_agrees(lazy: Map<Seq<char>, LazyModel>, eager: Map<Seq<char>, JsonModel>)
    requires
        members_agree(lazy, eager),
    ensures
        trees_agree(LazyModel::Object(lazy), JsonModel::Object(eager)),
{
    lemma_materializable_members(lazy);
    lemma_materialized_members(lazy);
    let made = LazyModel::Object(lazy).materialized()->Object_0;
    assert(made =~= eager);
}

proof fn lemma_array_agrees(lazy: Seq<LazyModel>, eager: Seq<JsonModel>)
    requires
        elements_agree(lazy, eager),
    ensures
        trees_agree(LazyModel::Array(lazy), JsonModel::Array(eager)),
{
    lemma_materializable_elements(lazy);
    lemma_materialized_elements(lazy);
    assert(materialized_elements(lazy) =~= eager);
}

proof fn lemma_object_rest_agrees(
    tokens: Seq<Seq<char>>,
    at: int,
    key: Option<Seq<char>>,
    eager: Map<Seq<char>, JsonModel>,
    lazy: Map<Seq<char>, LazyModel>,
)
    requires
        members_agree(lazy, eager),
        object_rest(tokens, at, key, eager) is Ok,
    ensures
        lazy_object_rest(tokens, at, key, lazy) is Ok,
        lazy_object_rest(tokens, at, key, lazy)->Ok_0.0 == object_rest(
            tokens,
            at,
            key,
            eager,
        )->Ok_0.0,
        members_agree(
            lazy_object_rest(tokens, at, key, lazy)->Ok_0.1,
            object_rest(tokens, at, key, eager)->Ok_0.1,
        ),
    decreases tokens.len() - at, 1int,
{
    if at < 0 || at >= tokens.len() {
    } else if tokens[at] == mark('}') {
    } else if tokens[at] == mark(']') {
    } else if tokens[at] == mark(':') || tokens[at] == mark(',') {
        lemma_object_rest_agrees(tokens, at + 1, key, eager, lazy);
    } else if tokens[at] == mark('{') || tokens[at] == mark('[') {
        if tokens[at] == mark('{') {
            lemma_object_at_agrees(tokens, at);
        } else {
            lemma_array_at_agrees(tokens, at);
        }
        let nested = if tokens[at] == mark('{') {
            object_at(tokens, at)
        } else {
            array_at(tokens, at)
        };
        let lazy_nested = if tokens[at] == mark('{') {
            lazy_object_at(tokens, at)
        } else {
            lazy_array_at(tokens, at)
        };
        let (consumed, value) = nested->Ok_0;
        let (_, lazy_value) = lazy_nested->Ok_0;
        let k = key->Some_0;
        lemma_members_agree_insert(lazy, eager, k, lazy_value, value);
        lemma_object_rest_agrees(
            tokens,
            at + consumed + 1,
            None,
            eager.insert(k, value),
            lazy.insert(k, lazy_value),
        );
    } else {
        match key {
            None => {
                lemma_object_rest_agrees(tokens, at + 1, Some(key_of(tokens[at])), eager, lazy);
            },
            Some(k) => {
                let value = classify(tokens[at])->Ok_0;
                let lazy_value = LazyModel::Something(tokens[at]);
                lemma_members_agree_insert(lazy, eager, k, lazy_value, value);
                lemma_object_rest_agrees(
                    tokens,
                    at + 1,
                    None,
                    eager.insert(k, value),
                    lazy.insert(k, lazy_value),
                );
            },
        }
    }
}

proof fn lemma_array_rest_agrees(
    tokens: Seq<Seq<char>>,
    at: int,
    eager: Seq<JsonModel>,
    lazy: Seq<LazyModel>,
)
    requires
        elements_agree(lazy, eager),
        array_rest(tokens, at, eager) is Ok,
    ensures
        lazy_array_rest(tokens, at, lazy) is Ok,
        lazy_array_rest(tokens, at, lazy)->Ok_0.0 == array_rest(tokens, at, eager)->Ok_0.0,
        elements_agree(
            lazy_array_rest(tokens, at, lazy)->Ok_0.1,
            array_rest(tokens, at, eager)->Ok_0.1,
        ),
    decreases tokens.len() - at, 1int,
{
    if at < 0 || at >= tokens.len() {
    } else if tokens[at] == mark(']') {
    } else if tokens[at] == mark('}') {
    } else if tokens[at] == mark(':') || tokens[at] == mark(',') {
        lemma_array_rest_agrees(tokens, at + 1, eager, lazy);
    } else if tokens[at] == mark('{') || tokens[at] == mark('[') {
        if tokens[at] == mark('{') {
            lemma_object_at_agrees(tokens, at);
        } else {
            lemma_array_at_agrees(tokens, at);
        }
        let nested = if tokens[at] == mark('{') {
            object_at(tokens, at)
        } else {
            array_at(tokens, at)
        };
        let lazy_nested = if tokens[at] == mark('{') {
            lazy_object_at(tokens, at)
        } else {
            lazy_array_at(tokens, at)
        };
        let (consumed, value) = nested->Ok_0;
        let (_, lazy_value) = lazy_nested->Ok_0;
        lemma_elements_agree_push(lazy, eager, lazy_value, value);
        lemma_array_rest_agrees(
            tokens,
            at + consumed + 1,
            eager.push(value),
            lazy.push(lazy_value),
        );
    } else {
        let value = classify(tokens[at])->Ok_0;
        let lazy_value = LazyModel::Something(tokens[at]);
        lemma_elements_agree_push(lazy, eager, lazy_value, value);
        lemma_array_rest_agrees(tokens, at + 1, eager.push(value), lazy.push(lazy_value));
    }
}

proof fn lemma_object_at_agrees(tokens: Seq<Seq<char>>, pos: int)
    requires
        object_at(tokens, pos) is Ok,
    ensures
        lazy_object_at(tokens, pos) is Ok,
        lazy_object_at(tokens, pos)->Ok_0.0 == object_at(tokens, pos)->Ok_0.0,
        trees_agree(lazy_object_at(tokens, pos)->Ok_0.1, object_at(tokens, pos)->Ok_0.1),
    decreases tokens.len() - pos, 0int,
{
    let none: Option<Seq<char>> = None;
    assert(members_agree(
        Map::<Seq<char>, LazyModel>::empty(),
        Map::<Seq<char>, JsonModel>::empty(),
    )) by {
        assert(Map::<Seq<char>, LazyModel>::empty().dom() =~= Map::<
            Seq<char>,
            JsonModel,
        >::empty().dom());
    }
    lemma_object_rest_agrees(tokens, pos + 1, none, Map::empty(), Map::empty());
    let lazy = lazy_object_rest(tokens, pos + 1, none, Map::empty())->Ok_0.1;
    let eager = object_rest(tokens, pos + 1, none, Map::empty())->Ok_0.1;
    lemma_object_agrees(lazy, eager);
}

proof fn lemma_array_at_agrees(tokens: Seq<Seq<char>>, pos: int)
    requires
        array_at(tokens, pos) is Ok,
    ensures
        lazy_array_at(tokens, pos) is Ok,
        lazy_array_at(tokens, pos)->Ok_0.0 == array_at(tokens, pos)->Ok_0.0,
        trees_agree(lazy_array_at(tokens, pos)->Ok_0.1, array_at(tokens, pos)->Ok_0.1),
    decreases tokens.len() - pos, 0int,
{
    lemma_array_rest_agrees(tokens, pos + 1, Seq::empty(), Seq::empty());
    let lazy = lazy_array_rest(tokens, pos + 1, Seq::empty())->Ok_0.1;
    let eager = array_rest(tokens, pos + 1, Seq::empty())->Ok_0.1;
    lemma_array_agrees(lazy, eager);
}

/// Decoding lazily and then materializing gives what decoding eagerly
/// gives: where a document decodes to a tree, it decodes lazily as well,
/// the lazy tree can be materialized, and materializing it gives that tree.
pub proof fn law_materialize_after_lazy_is_eager(text: Seq<char>)
    requires
        decode(text) is Ok,
    ensures
        decode_lazy(text) is Ok,
        decode_lazy(text)->Ok_0.materializable(),
        decode_lazy(text)->Ok_0.materialized() == decode(text)->Ok_0,
{
    lemma_object_at_agrees(tokens_of(text), 0);
}

proof fn lemma_object_rest_close(
    tokens: Seq<Seq<char>>,
    at: int,
    key: Option<Seq<char>>,
    members: Map<Seq<char>, JsonModel>,
)
    requires
        object_rest(tokens, at, key, members) is Ok,
    ensures
        at <= object_rest(tokens, at, key, members)->Ok_0.0 < tokens.len(),
        tokens[object_rest(tokens, at, key, members)->Ok_0.0] == mark('}'),
    decreases tokens.len() - at, 1int,
{
    if at < 0 || at >= tokens.len() {
    } else if tokens[at] == mark('}') {
    } else if tokens[at] == mark(']') {
    } else if tokens[at] == mark(':') || tokens[at] == mark(',') {
        lemma_object_rest_close(tokens, at + 1, key, members);
    } else if tokens[at] == mark('{') || tokens[at] == mark('[') {
        let nested = if tokens[at] == mark('{') {
            object_at(tokens, at)
        } else {
            array_at(tokens, at)
        };
        let (consumed, value) = nested->Ok_0;
        lemma_object_rest_close(
            tokens,
            at + consumed + 1,
            None,
            members.insert(key->Some_0, value),
        );
    } else {
        match key {
            None => {
                lemma_object_rest_close(tokens, at + 1, Some(key_of(tokens[at])), members);
            },
            Some(k) => {
                lemma_object_rest_close(
                    tokens,
                    at + 1,
                    None,
                    members.insert(k, classify(tokens[at])->Ok_0),
                );
            },
        }
    }
}

proof fn lemma_array_rest_close(tokens: Seq<Seq<char>>, at: int, elements: Seq<JsonModel>)
    requires
        array_rest(tokens, at, elements) is Ok,
    ensures
        at <= array_rest(tokens, at, elements)->Ok_0.0 < tokens.len(),
        tokens[array_rest(tokens, at, elements)->Ok_0.0] == mark(']'),
    decreases tokens.len() - at, 1int,
{
    if at < 0 || at >= tokens.len() {
    } else if tokens[at] == mark(']') {
    } else if tokens[at] == mark('}') {
    } else if tokens[at] == mark(':') || tokens[at] == mark(',') {
        lemma_array_rest_close(tokens, at + 1, elements);
    } else if tokens[at] == mark('{') || tokens[at] == mark('[') {
        let nested = if tokens[at] == mark('{') {
            object_at(tokens, at)
        } else {
            array_at(tokens, at)
        };
        let (consumed, value) = nested->Ok_0;
        lemma_array_rest_close(tokens, at + consumed + 1, elements.push(value));
    } else {
        lemma_array_rest_close(tokens, at + 1, elements.push(classify(tokens[at])->Ok_0));
    }
}

/// What a builder reports as consumed leads from the opening token to the
/// closing token of the same structure: a brace for an object, a bracket
/// for an array.
pub proof fn law_consumed_leads_to_closing_token(tokens: Seq<Seq<char>>, pos: int)
    ensures
        object_at(tokens, pos) matches Ok((consumed, tree)) ==> {
            &&& tree is Object
            &&& tokens[pos] == mark('{')
            &&& 0 < consumed
            &&& pos + consumed < tokens.len()
            &&& tokens[pos + consumed] == mark('}')
        },
        array_at(tokens, pos) matches Ok((consumed, tree)) ==> {
            &&& tree is Array
            &&& tokens[pos] == mark('[')
            &&& 0 < consumed
            &&& pos + consumed < tokens.len()
            &&& tokens[pos + consumed] == mark(']')
        },
{
    if object_at(tokens, pos) is Ok {
        lemma_object_rest_close(tokens, pos + 1, None, Map::empty());
    }
    if array_at(tokens, pos) is Ok {
        lemma_array_rest_close(tokens, pos + 1, Seq::empty());
    }
}

proof fn lemma_object_rest_cut(
    tokens: Seq<Seq<char>>,
    at: int,
    key: Option<Seq<char>>,
    members: Map<Seq<char>, JsonModel>,
    cut: int,
)
    requires
        object_rest(tokens, at, key, members) is Ok,
        0 <= cut <= tokens.len(),
    ensures
        object_rest(tokens.take(cut), at, key, members) == if object_rest(
            tokens,
            at,
            key,
            members,
        )->Ok_0.0 < cut {
            object_rest(tokens, at, key, members)
        } else {
            Err(Failure::unexpected_end())
        },
    decreases tokens.len() - at, 1int,
{
    let short = tokens.take(cut);
    lemma_object_rest_close(tokens, at, key, members);
    if at >= cut {
    } else if tokens[at] == mark('}') {
    } else if tokens[at] == mark(']') {
    } else if tokens[at] == mark(':') || tokens[at] == mark(',') {
        lemma_object_rest_cut(tokens, at + 1, key, members, cut);
    } else if tokens[at] == mark('{') || tokens[at] == mark('[') {
        let nested = if tokens[at] == mark('{') {
            object_at(tokens, at)
        } else {
            array_at(tokens, at)
        };
        let (consumed, value) = nested->Ok_0;
        if tokens[at] == mark('{') {
            lemma_object_at_cut(tokens, at, cut);
        } else {
            lemma_array_at_cut(tokens, at, cut);
        }
        let grown = members.insert(key->Some_0, value);
        lemma_object_rest_close(tokens, at + consumed + 1, None, grown);
        lemma_object_rest_cut(tokens, at + consumed + 1, None, grown, cut);
    } else {
        match key {
            None => {
                lemma_object_rest_cut(tokens, at + 1, Some(key_of(tokens[at])), members, cut);
            },
            Some(k) => {
                lemma_object_rest_cut(
                    tokens,
                    at + 1,
                    None,
                    members.insert(k, classify(tokens[at])->Ok_0),
                    cut,
                );
            },
        }
    }
}

proof fn lemma_array_rest_cut(
    tokens: Seq<Seq<char>>,
    at: int,
    elements: Seq<JsonModel>,
    cut: int,
)
    requires
        array_rest(tokens, at, elements) is Ok,
        0 <= cut <= tokens.len(),
    ensures
        array_rest(tokens.take(cut), at, elements) == if array_rest(tokens, at, elements)->Ok_0.0
            < cut {
            array_rest(tokens, at, elements)
        } else {
            Err(Failure::unexpected_end())
        },
    decreases tokens.len() - at, 1int,
{
    let short = tokens.take(cut);
    lemma_array_rest_close(tokens, at, elements);
    if at >= cut {
    } else if tokens[at] == mark(']') {
    } else if tokens[at] == mark('}') {
    } else if tokens[at] == mark(':') || tokens[at] == mark(',') {
        lemma_array_rest_cut(tokens, at + 1, elements, cut);
    } else if tokens[at] == mark('{') || tokens[at] == mark('[') {
        let nested = if tokens[at] == mark('{') {
            object_at(tokens, at)
        } else {
            array_at(tokens, at)
        };
        let (consumed, value) = nested->Ok_0;
        if tokens[at] == mark('{') {
            lemma_object_at_cut(tokens, at, cut);
        } else {
            lemma_array_at_cut(tokens, at, cut);
        }
        lemma_array_rest_close(tokens, at + consumed + 1, elements.push(value));
        lemma_array_rest_cut(tokens, at + consumed + 1, elements.push(value), cut);
    } else {
        lemma_array_rest_cut(tokens, at + 1, elements.push(classify(tokens[at])->Ok_0), cut);
    }
}

proof fn lemma_object_at_cut(tokens: Seq<Seq<char>>, pos: int, cut: int)
    requires
        object_at(tokens, pos) is Ok,
        pos < cut <= tokens.len(),
    ensures
        object_at(tokens.take(cut), pos) == if pos + object_at(tokens, pos)->Ok_0.0 < cut {
            object_at(tokens, pos)
        } else {
            Err(Failure::unexpected_end())
        },
    decreases tokens.len() - pos, 0int,
{
    lemma_object_rest_cut(tokens, pos + 1, None, Map::empty(), cut);
}

proof fn lemma_array_at_cut(tokens: Seq<Seq<char>>, pos: int, cut: int)
    requires
        array_at(tokens, pos) is Ok,
        pos < cut <= tokens.len(),
    ensures
        array_at(tokens.take(cut), pos) == if pos + array_at(tokens, pos)->Ok_0.0 < cut {
            array_at(tokens, pos)
        } else {
            Err(Failure::unexpected_end())
        },
    decreases tokens.len() - pos, 0int,
{
    lemma_array_rest_cut(tokens, pos + 1, Seq::empty(), cut);
}

/// An object that lacks its closing brace is malformed: where the tokens
/// from `pos` on begin with an object, the tokens cut off anywhere behind
/// its opening brace and not behind its closing brace fail with the
/// malformed structure of an input that ends too early.  No part of the
/// object is handed out.
pub proof fn law_missing_close_is_malformed(tokens: Seq<Seq<char>>, pos: int, cut: int)
    requires
        object_at(tokens, pos) is Ok,
        pos < cut <= pos + object_at(tokens, pos)->Ok_0.0,
    ensures
        object_at(tokens.take(cut), pos) == Err::<(int, JsonModel), Failure>(
            Failure::unexpected_end(),
        ),
        Failure::unexpected_end().is_malformed_structure(),
{
    law_consumed_leads_to_closing_token(tokens, pos);
    lemma_object_at_cut(tokens, pos, cut);
}

/// A document that lacks its closing brace is malformed: where `text`
/// decodes to a tree and the tokens of `shorter` are those of `text` up to
/// some token that is not behind the closing brace of the document,
/// `shorter` fails to decode, as a malformed structure.
pub proof fn law_document_without_close_is_malformed(
    text: Seq<char>,
    shorter: Seq<char>,
    cut: int,
)
    requires
        decode(text) is Ok,
        0 <= cut <= object_at(tokens_of(text), 0)->Ok_0.0,
        tokens_of(shorter) == tokens_of(text).take(cut),
    ensures
        decode(shorter) is Err,
        decode(shorter)->Err_0.is_malformed_structure(),
{
    let tokens = tokens_of(text);
    law_consumed_leads_to_closing_token(tokens, 0);
    if cut > 0 {
        law_missing_close_is_malformed(tokens, 0, cut);
    }
}

} // verus!
