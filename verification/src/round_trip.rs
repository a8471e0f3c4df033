//! What is written is what decoding reads: the canonical text of a document
//! decodes to the tree that the document presents.

use vstd::prelude::*;
use crate::chars::{separator, BACKSLASH, QUOTE};
use crate::document::{
    element_pieces, element_trees, lemma_decimal, lemma_float_literal_is_bare,
    member_pieces, member_trees, plain, Document,
};
use crate::entries::{
    distinct_keys, entries_map, has_key, lemma_entries_map_dom, lemma_entries_map_lookup,
    lemma_entries_map_push,
};
use crate::error::Failure;
use crate::lexer::{quoted, tokens_of};
use crate::parser::{
    array_at, array_rest, classify, decode, key_of, lemma_mark, mark, object_at, object_rest,
    quoted_key,
};
use crate::tokens::{all_sound, law_tokens_are_sound, token_sound};
use crate::value::{JsonModel, NumberModel};
use crate::written::{
    bare, legible, lemma_pieces_are_read, pieces_text, pieces_tokens, quotable, Piece,
};

verus! {

/// What the pieces from a place on are written as depends only on the pieces
/// from that place on.
proof fn lemma_pieces_shift(pieces: Seq<Piece>, k: int, from: int)
    requires
        0 <= k,
        0 <= from,
        k + from <= pieces.len(),
    ensures
        pieces_text(pieces, k + from) == pieces_text(pieces.skip(k), from),
        pieces_tokens(pieces, k + from) == pieces_tokens(pieces.skip(k), from),
    decreases pieces.len() - k - from,
{
    if k + from < pieces.len() {
        lemma_pieces_shift(pieces, k, from + 1);
    }
}

/// Pieces written one behind the other give the texts and the tokens one
/// behind the other.
proof fn lemma_pieces_concat_from(a: Seq<Piece>, b: Seq<Piece>, from: int)
    requires
        0 <= from <= a.len(),
    ensures
        pieces_text(a + b, from) == pieces_text(a, from) + pieces_text(b, 0),
        pieces_tokens(a + b, from) == pieces_tokens(a, from) + pieces_tokens(b, 0),
    decreases a.len() - from,
{
    let whole = a + b;
    if from == a.len() {
        lemma_pieces_shift(whole, from, 0);
        assert(whole.skip(from) =~= b);
        assert(pieces_text(a, from) + pieces_text(b, 0) =~= pieces_text(b, 0));
        assert(pieces_tokens(a, from) + pieces_tokens(b, 0) =~= pieces_tokens(b, 0));
    } else {
        lemma_pieces_concat_from(a, b, from + 1);
        assert(whole[from] == a[from]);
        assert(a[from].text() + (pieces_text(a, from + 1) + pieces_text(b, 0)) =~= (a[from].text()
            + pieces_text(a, from + 1)) + pieces_text(b, 0));
        assert(a[from].tokens() + (pieces_tokens(a, from + 1) + pieces_tokens(b, 0)) =~= (
        a[from].tokens() + pieces_tokens(a, from + 1)) + pieces_tokens(b, 0));
    }
}

/// The text of pieces written one behind the other.
pub open spec fn text_of(pieces: Seq<Piece>) -> Seq<char> {
    pieces_text(pieces, 0)
}

/// The tokens of pieces written one behind the other.
pub open spec fn tokens_in(pieces: Seq<Piece>) -> Seq<Seq<char>> {
    pieces_tokens(pieces, 0)
}

proof fn lemma_pieces_concat(a: Seq<Piece>, b: Seq<Piece>)
    ensures
        text_of(a + b) == text_of(a) + text_of(b),
        tokens_in(a + b) == tokens_in(a) + tokens_in(b),
{
    lemma_pieces_concat_from(a, b, 0);
}

proof fn lemma_one_piece(piece: Piece)
    ensures
        text_of(seq![piece]) == piece.text(),
        tokens_in(seq![piece]) == piece.tokens(),
{
    let one = seq![piece];
    assert(pieces_text(one, 1) =~= Seq::<char>::empty());
    assert(pieces_tokens(one, 1) =~= Seq::<Seq<char>>::empty());
    assert(pieces_text(one, 0) =~= piece.text());
    assert(pieces_tokens(one, 0) =~= piece.tokens());
}

/// Whether each piece is sound and a delimiter or a comma follows each bare
/// literal that is not the last piece.
pub open spec fn orderly(pieces: Seq<Piece>) -> bool {
    &&& forall|i: int| 0 <= i < pieces.len() ==> (#[trigger] pieces[i]).sound()
    &&& forall|i: int|
        0 <= i < pieces.len() - 1 && (#[trigger] pieces[i]) is Atom ==> (pieces[i + 1] is Mark
            || pieces[i + 1] is Comma)
}

/// Whether a bare literal may stand directly before `pieces`.
pub open spec fn separates(pieces: Seq<Piece>) -> bool {
    pieces.len() > 0 && (pieces[0] is Mark || pieces[0] is Comma)
}

proof fn lemma_orderly_concat(a: Seq<Piece>, b: Seq<Piece>)
    requires
        orderly(a),
        orderly(b),
        a.len() == 0 || !(a.last() is Atom) || b.len() == 0 || separates(b),
    ensures
        orderly(a + b),
{
    let whole = a + b;
    assert forall|i: int| 0 <= i < whole.len() implies (#[trigger] whole[i]).sound() by {
        if i < a.len() {
            assert(whole[i] == a[i]);
        } else {
            assert(whole[i] == b[i - a.len()]);
        }
    }
    assert forall|i: int| 0 <= i < whole.len() - 1 && (#[trigger] whole[i]) is Atom implies (whole[i
        + 1] is Mark || whole[i + 1] is Comma) by {
        if i + 1 < a.len() {
            assert(whole[i] == a[i]);
            assert(whole[i + 1] == a[i + 1]);
        } else if i < a.len() {
            assert(whole[i] == a.last());
            assert(whole[i + 1] == b[0]);
        } else {
            assert(whole[i] == b[i - a.len()]);
            assert(whole[i + 1] == b[i - a.len() + 1]);
        }
    }
}

/// Whether each member has a quotable key and a well-formed value.
pub open spec fn members_well_formed(members: Seq<(Seq<char>, Document)>) -> bool {
    forall|i: int|
        0 <= i < members.len() ==> quotable((#[trigger] members[i]).0)
            && members[i].1.well_formed()
}

/// Whether each element is well formed.
pub open spec fn elements_well_formed(elements: Seq<Document>) -> bool {
    forall|i: int| 0 <= i < elements.len() ==> (#[trigger] elements[i]).well_formed()
}

proof fn lemma_well_formed_object(members: Seq<(Seq<char>, Document)>)
    ensures
        Document::Object(members).well_formed() <==> members_well_formed(members),
{
    let d = Document::Object(members);
    if d.well_formed() {
        assert forall|i: int| 0 <= i < members.len() implies quotable((#[trigger] members[i]).0)
            && members[i].1.well_formed() by {
            assert(quotable(d->Object_0[i].0) && d->Object_0[i].1.well_formed());
        }
    }
}

proof fn lemma_well_formed_array(elements: Seq<Document>)
    ensures
        Document::Array(elements).well_formed() <==> elements_well_formed(elements),
{
    let d = Document::Array(elements);
    if d.well_formed() {
        assert forall|i: int| 0 <= i < elements.len() implies (
        #[trigger] elements[i]).well_formed() by {
            assert(d->Array_0[i].well_formed());
        }
    }
}

/// Whether the document is a string, a number, a boolean or null.
pub open spec fn is_leaf(d: Document) -> bool {
    !(d is Object) && !(d is Array)
}

/// A well-formed leaf is written as one sound piece, and read as one token
/// that is classified as what the leaf presents.
proof fn lemma_leaf(d: Document)
    requires
        d.well_formed(),
        is_leaf(d),
    ensures
        d.pieces().len() == 1,
        d.pieces()[0].sound(),
        !(d.pieces()[0] is Mark) && !(d.pieces()[0] is Comma),
        d.tokens() == seq![d.pieces()[0].text()],
        classify(d.pieces()[0].text()) == Ok::<JsonModel, Failure>(d.tree()),
        forall|c: char| separator(c) ==> d.pieces()[0].text() != #[trigger] mark(c),
{
    let piece = d.pieces()[0];
    let token = piece.text();
    assert(d.pieces() =~= seq![piece]);
    lemma_one_piece(piece);
    lemma_mark(token);
    match d {
        Document::String(s) => {
            assert(token.len() == s.len() + 2);
            assert(token[0] == QUOTE);
            assert(token.subrange(1, token.len() - 1) =~= s);
        },
        Document::Number(NumberModel::Int(i)) => {
            lemma_decimal(i);
        },
        Document::Number(NumberModel::Float(literal)) => {
            lemma_float_literal_is_bare(literal);
        },
        Document::Bool(true) => {
            assert(token.len() == 4);
            assert(token[0] == 't');
            assert forall|i: int| 0 <= i < token.len() implies plain(
                #[trigger] token[i],
            ) by {
                assert(token[i] == 't' || token[i] == 'r' || token[i] == 'u' || token[i] == 'e');
            }
        },
        Document::Bool(false) => {
            assert(token.len() == 5);
            assert(token[0] == 'f');
            assert forall|i: int| 0 <= i < token.len() implies plain(
                #[trigger] token[i],
            ) by {
                assert(token[i] == 'f' || token[i] == 'a' || token[i] == 'l' || token[i] == 's'
                    || token[i] == 'e');
            }
        },
        Document::Null => {
            assert(token.len() == 4);
            assert(token[0] == 'n');
            assert forall|i: int| 0 <= i < token.len() implies plain(
                #[trigger] token[i],
            ) by {
                assert(token[i] == 'n' || token[i] == 'u' || token[i] == 'l');
            }
        },
        _ => {},
    }
    assert forall|c: char| separator(c) implies token != #[trigger] mark(c) by {
        if token == mark(c) {
            assert(token.len() == 1 && token[0] == c);
            if piece is Atom {
                assert(plain(token[0]));
            }
        }
    }
}

proof fn lemma_document_orderly(d: Document)
    requires
        d.well_formed(),
    ensures
        orderly(d.pieces()),
        d.pieces().len() > 0,
        !is_leaf(d) ==> d.pieces().len() >= 2 && d.pieces().last() is Mark,
        d is Object ==> d.pieces()[0] == Piece::Mark('{'),
        d is Array ==> d.pieces()[0] == Piece::Mark('['),
    decreases d, 0int,
{
    match d {
        Document::Object(members) => {
            lemma_well_formed_object(members);
            lemma_members_orderly(members, 0);
            let open = seq![Piece::Mark('{')];
            let close = seq![Piece::Mark('}')];
            let inner = member_pieces(members, 0);
            lemma_orderly_concat(open, inner);
            lemma_orderly_concat(open + inner, close);
        },
        Document::Array(elements) => {
            lemma_well_formed_array(elements);
            lemma_elements_orderly(elements, 0);
            let open = seq![Piece::Mark('[')];
            let close = seq![Piece::Mark(']')];
            let inner = element_pieces(elements, 0);
            lemma_orderly_concat(open, inner);
            lemma_orderly_concat(open + inner, close);
        },
        _ => {
            lemma_leaf(d);
        },
    }
}

proof fn lemma_members_orderly(members: Seq<(Seq<char>, Document)>, from: int)
    requires
        members_well_formed(members),
        0 <= from <= members.len(),
    ensures
        orderly(member_pieces(members, from)),
        0 < from < members.len() ==> separates(member_pieces(members, from)),
    decreases members, members.len() - from,
{
    if from < members.len() {
        let lead = if from > 0 {
            seq![Piece::Comma]
        } else {
            Seq::<Piece>::empty()
        };
        let key = seq![Piece::Quoted(members[from].0), Piece::Mark(':')];
        let value = members[from].1.pieces();
        let rest = member_pieces(members, from + 1);
        assert(members[from].1.well_formed());
        lemma_document_orderly(members[from].1);
        lemma_members_orderly(members, from + 1);
        lemma_orderly_concat(lead, key);
        lemma_orderly_concat(lead + key, value);
        lemma_orderly_concat(lead + key + value, rest);
    }
}

proof fn lemma_elements_orderly(elements: Seq<Document>, from: int)
    requires
        elements_well_formed(elements),
        0 <= from <= elements.len(),
    ensures
        orderly(element_pieces(elements, from)),
        0 < from < elements.len() ==> separates(element_pieces(elements, from)),
    decreases elements, elements.len() - from,
{
    if from < elements.len() {
        let lead = if from > 0 {
            seq![Piece::Comma]
        } else {
            Seq::<Piece>::empty()
        };
        let value = elements[from].pieces();
        let rest = element_pieces(elements, from + 1);
        assert(elements[from].well_formed());
        lemma_document_orderly(elements[from]);
        lemma_elements_orderly(elements, from + 1);
        lemma_orderly_concat(lead, value);
        lemma_orderly_concat(lead + value, rest);
    }
}

/// The tokens of the members from `from` on.
pub open spec fn member_tokens(members: Seq<(Seq<char>, Document)>, from: int) -> Seq<Seq<char>> {
    tokens_in(member_pieces(members, from))
}

/// The tokens of the elements from `from` on.
pub open spec fn element_tokens(elements: Seq<Document>, from: int) -> Seq<Seq<char>> {
    tokens_in(element_pieces(elements, from))
}

proof fn lemma_lead_has_no_tokens(from: int)
    ensures
        tokens_in(
            if from > 0 {
                seq![Piece::Comma]
            } else {
                Seq::<Piece>::empty()
            },
        ) == Seq::<Seq<char>>::empty(),
{
    lemma_one_piece(Piece::Comma);
}

proof fn lemma_member_tokens(members: Seq<(Seq<char>, Document)>, from: int)
    requires
        0 <= from < members.len(),
    ensures
        member_tokens(members, from) == seq![quoted(members[from].0), mark(':')]
            + members[from].1.tokens() + member_tokens(members, from + 1),
{
    let lead = if from > 0 {
        seq![Piece::Comma]
    } else {
        Seq::<Piece>::empty()
    };
    let name = seq![Piece::Quoted(members[from].0)];
    let colon = seq![Piece::Mark(':')];
    let key = seq![Piece::Quoted(members[from].0), Piece::Mark(':')];
    let value = members[from].1.pieces();
    let rest = member_pieces(members, from + 1);
    assert(key =~= name + colon);
    lemma_lead_has_no_tokens(from);
    lemma_one_piece(Piece::Quoted(members[from].0));
    lemma_one_piece(Piece::Mark(':'));
    lemma_pieces_concat(name, colon);
    lemma_pieces_concat(lead, key);
    lemma_pieces_concat(lead + key, value);
    lemma_pieces_concat(lead + key + value, rest);
    assert(tokens_in(key) =~= seq![quoted(members[from].0), mark(':')]);
    assert(tokens_in(lead + key) =~= tokens_in(key));
}

proof fn lemma_element_tokens(elements: Seq<Document>, from: int)
    requires
        0 <= from < elements.len(),
    ensures
        element_tokens(elements, from) == elements[from].tokens() + element_tokens(
            elements,
            from + 1,
        ),
{
    let lead = if from > 0 {
        seq![Piece::Comma]
    } else {
        Seq::<Piece>::empty()
    };
    let value = elements[from].pieces();
    let rest = element_pieces(elements, from + 1);
    lemma_lead_has_no_tokens(from);
    lemma_pieces_concat(lead, value);
    lemma_pieces_concat(lead + value, rest);
    assert(tokens_in(lead + value) =~= tokens_in(value));
}

proof fn lemma_object_tokens(members: Seq<(Seq<char>, Document)>)
    ensures
        Document::Object(members).tokens() == seq![mark('{')] + member_tokens(members, 0)
            + seq![mark('}')],
{
    let open = seq![Piece::Mark('{')];
    let close = seq![Piece::Mark('}')];
    let inner = member_pieces(members, 0);
    lemma_one_piece(Piece::Mark('{'));
    lemma_one_piece(Piece::Mark('}'));
    lemma_pieces_concat(open, inner);
    lemma_pieces_concat(open + inner, close);
}

proof fn lemma_array_tokens(elements: Seq<Document>)
    ensures
        Document::Array(elements).tokens() == seq![mark('[')] + element_tokens(elements, 0)
            + seq![mark(']')],
{
    let open = seq![Piece::Mark('[')];
    let close = seq![Piece::Mark(']')];
    let inner = element_pieces(elements, 0);
    lemma_one_piece(Piece::Mark('['));
    lemma_one_piece(Piece::Mark(']'));
    lemma_pieces_concat(open, inner);
    lemma_pieces_concat(open + inner, close);
}

/// Whether `part` stands in `tokens` from `at` on.
pub open spec fn holds(tokens: Seq<Seq<char>>, at: int, part: Seq<Seq<char>>) -> bool {
    &&& 0 <= at
    &&& at + part.len() <= tokens.len()
    &&& tokens.subrange(at, at + part.len()) == part
}

proof fn lemma_holds(tokens: Seq<Seq<char>>, at: int, a: Seq<Seq<char>>, b: Seq<Seq<char>>)
    requires
        holds(tokens, at, a + b),
    ensures
        holds(tokens, at, a),
        holds(tokens, at + a.len(), b),
{
    let whole = tokens.subrange(at, at + (a + b).len());
    assert(tokens.subrange(at, at + a.len()) =~= a) by {
        assert forall|i: int| 0 <= i < a.len() implies tokens[at + i] == a[i] by {
            assert(whole[i] == (a + b)[i]);
        }
    }
    assert(tokens.subrange(at + a.len(), at + a.len() + b.len()) =~= b) by {
        assert forall|i: int| 0 <= i < b.len() implies tokens[at + a.len() + i] == b[i] by {
            assert(whole[a.len() + i] == (a + b)[a.len() + i]);
        }
    }
}

proof fn lemma_holds_first(tokens: Seq<Seq<char>>, at: int, part: Seq<Seq<char>>)
    requires
        holds(tokens, at, part),
        part.len() > 0,
    ensures
        tokens[at] == part[0],
{
    assert(tokens.subrange(at, at + part.len())[0] == tokens[at]);
}

/// The tokens of a well-formed document, wherever they stand, are built
/// into the tree that the document presents.
proof fn lemma_document_is_built(d: Document, tokens: Seq<Seq<char>>, at: int)
    requires
        d.well_formed(),
        holds(tokens, at, d.tokens()),
    ensures
        d.tokens().len() >= 1,
        d is Object ==> d.tokens().len() >= 2 && tokens[at] == mark('{') && object_at(tokens, at)
            == Ok::<(int, JsonModel), Failure>((d.tokens().len() - 1, d.tree())),
        d is Array ==> d.tokens().len() >= 2 && tokens[at] == mark('[') && array_at(tokens, at)
            == Ok::<(int, JsonModel), Failure>((d.tokens().len() - 1, d.tree())),
        is_leaf(d) ==> d.tokens().len() == 1 && classify(tokens[at]) == Ok::<JsonModel, Failure>(
            d.tree(),
        ) && forall|c: char| separator(c) ==> tokens[at] != #[trigger] mark(c),
    decreases d, 0int,
{
    match d {
        Document::Object(members) => {
            lemma_well_formed_object(members);
            lemma_object_tokens(members);
            let inner = member_tokens(members, 0);
            let open = seq![mark('{')];
            let close = seq![mark('}')];
            assert(d.tokens() =~= open + (inner + close));
            lemma_holds(tokens, at, open, inner + close);
            lemma_holds_first(tokens, at, open);
            assert(member_trees(members).take(0) =~= Seq::empty());
            lemma_members_are_built(members, 0, tokens, at + 1, Map::empty());
        },
        Document::Array(elements) => {
            lemma_well_formed_array(elements);
            lemma_array_tokens(elements);
            let inner = element_tokens(elements, 0);
            let open = seq![mark('[')];
            let close = seq![mark(']')];
            assert(d.tokens() =~= open + (inner + close));
            lemma_holds(tokens, at, open, inner + close);
            lemma_holds_first(tokens, at, open);
            assert(element_trees(elements).take(0) =~= Seq::empty());
            lemma_elements_are_built(elements, 0, tokens, at + 1, Seq::empty());
        },
        _ => {
            lemma_leaf(d);
            lemma_holds_first(tokens, at, d.tokens());
        },
    }
}

proof fn lemma_members_are_built(
    members: Seq<(Seq<char>, Document)>,
    from: int,
    tokens: Seq<Seq<char>>,
    at: int,
    acc: Map<Seq<char>, JsonModel>,
)
    requires
        members_well_formed(members),
        0 <= from <= members.len(),
        holds(tokens, at, member_tokens(members, from) + seq![mark('}')]),
        acc == entries_map(member_trees(members).take(from)),
    ensures
        object_rest(tokens, at, None, acc) == Ok::<(int, Map<Seq<char>, JsonModel>), Failure>(
            (at + member_tokens(members, from).len(), entries_map(member_trees(members))),
        ),
    decreases members, members.len() - from,
{
    let close = seq![mark('}')];
    let none: Option<Seq<char>> = None;
    if from >= members.len() {
        assert(member_pieces(members, from) =~= Seq::<Piece>::empty());
        assert(member_tokens(members, from) =~= Seq::<Seq<char>>::empty());
        lemma_holds_first(tokens, at, member_tokens(members, from) + close);
        assert(tokens[at] == mark('}'));
        assert(member_trees(members).take(from) =~= member_trees(members));
    } else {
        let name = members[from].0;
        let value = members[from].1;
        let key = seq![quoted(name), mark(':')];
        let rest = member_tokens(members, from + 1);
        let n = value.tokens().len() as int;
        lemma_member_tokens(members, from);
        assert(member_tokens(members, from) + close =~= key + (value.tokens() + (rest + close)));
        lemma_holds(tokens, at, key, value.tokens() + (rest + close));
        lemma_holds(tokens, at + 2, value.tokens(), rest + close);
        assert(tokens[at] == quoted(name) && tokens[at + 1] == mark(':')) by {
            assert(tokens.subrange(at, at + 2)[0] == tokens[at]);
            assert(tokens.subrange(at, at + 2)[1] == tokens[at + 1]);
        }
        assert(value.well_formed());
        lemma_document_is_built(value, tokens, at + 2);
        lemma_mark(tokens[at]);
        lemma_mark(tokens[at + 1]);
        lemma_mark(tokens[at + 2]);
        assert(quoted(name).len() == name.len() + 2);
        assert(quoted(name)[0] == QUOTE);
        assert(quoted_key(tokens[at]));
        assert(key_of(tokens[at]) =~= name);
        let grown = acc.insert(name, value.tree());
        assert(member_trees(members).take(from + 1) =~= member_trees(members).take(from).push(
            (name, value.tree()),
        ));
        lemma_entries_map_push(member_trees(members).take(from), name, value.tree());
        lemma_members_are_built(members, from + 1, tokens, at + 2 + n, grown);
        let after = object_rest(tokens, at + 2 + n, none, grown);
        assert(object_rest(tokens, at + 2, Some(name), acc) == after) by {
            if is_leaf(value) {
                assert(separator('{') && separator('}') && separator('[') && separator(']')
                    && separator(':') && separator(','));
            }
        }
        assert(object_rest(tokens, at + 1, Some(name), acc) == after);
        assert(object_rest(tokens, at, none, acc) == after);
    }
}

proof fn lemma_elements_are_built(
    elements: Seq<Document>,
    from: int,
    tokens: Seq<Seq<char>>,
    at: int,
    acc: Seq<JsonModel>,
)
    requires
        elements_well_formed(elements),
        0 <= from <= elements.len(),
        holds(tokens, at, element_tokens(elements, from) + seq![mark(']')]),
        acc == element_trees(elements).take(from),
    ensures
        array_rest(tokens, at, acc) == Ok::<(int, Seq<JsonModel>), Failure>(
            (at + element_tokens(elements, from).len(), element_trees(elements)),
        ),
    decreases elements, elements.len() - from,
{
    let close = seq![mark(']')];
    if from >= elements.len() {
        assert(element_pieces(elements, from) =~= Seq::<Piece>::empty());
        assert(element_tokens(elements, from) =~= Seq::<Seq<char>>::empty());
        lemma_holds_first(tokens, at, element_tokens(elements, from) + close);
        assert(tokens[at] == mark(']'));
        assert(element_trees(elements).take(from) =~= element_trees(elements));
    } else {
        let value = elements[from];
        let rest = element_tokens(elements, from + 1);
        let n = value.tokens().len() as int;
        lemma_element_tokens(elements, from);
        assert(element_tokens(elements, from) + close =~= value.tokens() + (rest + close));
        lemma_holds(tokens, at, value.tokens(), rest + close);
        assert(value.well_formed());
        lemma_document_is_built(value, tokens, at);
        lemma_mark(tokens[at]);
        let grown = acc.push(value.tree());
        assert(element_trees(elements).take(from + 1) =~= grown);
        lemma_elements_are_built(elements, from + 1, tokens, at + n, grown);
        let after = array_rest(tokens, at + n, grown);
        assert(array_rest(tokens, at, acc) == after) by {
            if is_leaf(value) {
                assert(separator('{') && separator('}') && separator('[') && separator(']')
                    && separator(':') && separator(','));
            }
        }
    }
}

/// The pieces of a well-formed object or array can be read again, and their
/// text does not end with a backslash.
proof fn lemma_document_is_legible(d: Document)
    requires
        d.well_formed(),
        !is_leaf(d),
    ensures
        legible(d.pieces()),
        d.text().len() > 0,
        d.text().last() != BACKSLASH,
{
    lemma_document_orderly(d);
    let pieces = d.pieces();
    let front = pieces.drop_last();
    let last = pieces.last();
    assert(pieces =~= front + seq![last]);
    lemma_pieces_concat(front, seq![last]);
    lemma_one_piece(last);
    assert(last.sound());
    assert(d.text() == text_of(front) + last.text());
}

/// What is written is what decoding reads: the canonical text of a
/// well-formed document that is an object decodes to the tree that the
/// document presents.
pub proof fn law_written_document_decodes(d: Document)
    requires
        d is Object,
        d.well_formed(),
    ensures
        tokens_of(d.text()) == d.tokens(),
        decode(d.text()) == Ok::<JsonModel, Failure>(d.tree()),
{
    let text = d.text();
    let tokens = d.tokens();
    lemma_document_is_legible(d);
    assert(text.skip(0) =~= text);
    lemma_pieces_are_read(text, 0, d.pieces(), 0);
    assert(tokens.subrange(0, tokens.len() as int) =~= tokens);
    lemma_document_is_built(d, tokens, 0);
}

/// Whether the tree can be written and read again: each object has finitely
/// many members, each string and each key can stand between quotes, each
/// floating-point literal is classified as itself, and the sentinel of
/// failed lookups does not occur.
pub open spec fn printable(tree: JsonModel) -> bool
    decreases tree,
{
    match tree {
        JsonModel::String(s) => quotable(s),
        JsonModel::Number(NumberModel::Float(literal)) => classify(literal) == Ok::<
            JsonModel,
            Failure,
        >(JsonModel::Number(NumberModel::Float(literal))),
        JsonModel::Object(members) => members.dom().finite() && forall|key: Seq<char>|
            #![trigger members.dom().contains(key)]
            members.dom().contains(key) ==> quotable(key) && printable(members[key]),
        JsonModel::Array(elements) => forall|i: int|
            #![trigger elements[i]]
            0 <= i < elements.len() ==> printable(elements[i]),
        JsonModel::InValidLocation => false,
        _ => true,
    }
}

/// Whether each member has a quotable key and a printable tree.
pub open spec fn members_printable(members: Map<Seq<char>, JsonModel>) -> bool {
    members.dom().finite() && forall|key: Seq<char>|
        #![trigger members.dom().contains(key)]
        members.dom().contains(key) ==> quotable(key) && printable(members[key])
}

/// Whether each element is printable.
pub open spec fn elements_printable(elements: Seq<JsonModel>) -> bool {
    forall|i: int| #![trigger elements[i]] 0 <= i < elements.len() ==> printable(elements[i])
}

proof fn lemma_printable_object(members: Map<Seq<char>, JsonModel>)
    ensures
        printable(JsonModel::Object(members)) <==> members_printable(members),
{
    let tree = JsonModel::Object(members);
    if printable(tree) {
        assert forall|key: Seq<char>|
            #![trigger members.dom().contains(key)]
            members.dom().contains(key) implies quotable(key) && printable(members[key]) by {
            assert(tree->Object_0.dom().contains(key));
            assert(printable(tree->Object_0[key]));
            assert(quotable(key));
        }
    }
    if members_printable(members) {
        assert forall|key: Seq<char>|
            #![trigger tree->Object_0.dom().contains(key)]
            tree->Object_0.dom().contains(key) implies quotable(key) && printable(
            tree->Object_0[key],
        ) by {
            assert(members.dom().contains(key));
            assert(printable(members[key]));
        }
        assert(printable(tree));
    }
}

proof fn lemma_members_printable_insert(
    members: Map<Seq<char>, JsonModel>,
    key: Seq<char>,
    value: JsonModel,
)
    requires
        members_printable(members),
        quotable(key),
        printable(value),
    ensures
        members_printable(members.insert(key, value)),
{
    let grown = members.insert(key, value);
    assert forall|k: Seq<char>|
        #![trigger grown.dom().contains(k)]
        grown.dom().contains(k) implies quotable(k) && printable(grown[k]) by {
        if k != key {
            assert(members.dom().contains(k));
            assert(printable(members[k]));
        }
    }
}

proof fn lemma_printable_array(elements: Seq<JsonModel>)
    ensures
        printable(JsonModel::Array(elements)) <==> elements_printable(elements),
{
    let tree = JsonModel::Array(elements);
    if printable(tree) {
        assert forall|i: int| #![trigger elements[i]] 0 <= i < elements.len() implies printable(
            elements[i],
        ) by {
            assert(printable(tree->Array_0[i]));
        }
    }
}

/// What a sound token is classified as is printable.
proof fn lemma_classified_is_printable(token: Seq<char>)
    requires
        token_sound(token),
        classify(token) is Ok,
    ensures
        printable(classify(token)->Ok_0),
{
}

/// The key that a sound token holds can stand between quotes.
proof fn lemma_key_is_quotable(token: Seq<char>)
    requires
        token_sound(token),
        quoted_key(token),
    ensures
        quotable(key_of(token)),
{
}

proof fn lemma_object_rest_printable(
    tokens: Seq<Seq<char>>,
    at: int,
    key: Option<Seq<char>>,
    members: Map<Seq<char>, JsonModel>,
)
    requires
        all_sound(tokens),
        object_rest(tokens, at, key, members) is Ok,
        members_printable(members),
        key is Some ==> quotable(key->Some_0),
    ensures
        members_printable(object_rest(tokens, at, key, members)->Ok_0.1),
    decreases tokens.len() - at, 1int,
{
    if at < 0 || at >= tokens.len() {
    } else if tokens[at] == mark('}') {
    } else if tokens[at] == mark(']') {
    } else if tokens[at] == mark(':') || tokens[at] == mark(',') {
        lemma_object_rest_printable(tokens, at + 1, key, members);
    } else if tokens[at] == mark('{') || tokens[at] == mark('[') {
        if tokens[at] == mark('{') {
            lemma_object_at_printable(tokens, at);
        } else {
            lemma_array_at_printable(tokens, at);
        }
        let nested = if tokens[at] == mark('{') {
            object_at(tokens, at)
        } else {
            array_at(tokens, at)
        };
        let (consumed, value) = nested->Ok_0;
        lemma_members_printable_insert(members, key->Some_0, value);
        lemma_object_rest_printable(
            tokens,
            at + consumed + 1,
            None,
            members.insert(key->Some_0, value),
        );
    } else {
        assert(token_sound(tokens[at]));
        match key {
            None => {
                lemma_key_is_quotable(tokens[at]);
                lemma_object_rest_printable(tokens, at + 1, Some(key_of(tokens[at])), members);
            },
            Some(k) => {
                lemma_classified_is_printable(tokens[at]);
                lemma_members_printable_insert(members, k, classify(tokens[at])->Ok_0);
                lemma_object_rest_printable(
                    tokens,
                    at + 1,
                    None,
                    members.insert(k, classify(tokens[at])->Ok_0),
                );
            },
        }
    }
}

proof fn lemma_array_rest_printable(tokens: Seq<Seq<char>>, at: int, elements: Seq<JsonModel>)
    requires
        all_sound(tokens),
        array_rest(tokens, at, elements) is Ok,
        elements_printable(elements),
    ensures
        elements_printable(array_rest(tokens, at, elements)->Ok_0.1),
    decreases tokens.len() - at, 1int,
{
    if at < 0 || at >= tokens.len() {
    } else if tokens[at] == mark(']') {
    } else if tokens[at] == mark('}') {
    } else if tokens[at] == mark(':') || tokens[at] == mark(',') {
        lemma_array_rest_printable(tokens, at + 1, elements);
    } else if tokens[at] == mark('{') || tokens[at] == mark('[') {
        if tokens[at] == mark('{') {
            lemma_object_at_printable(tokens, at);
        } else {
            lemma_array_at_printable(tokens, at);
        }
        let nested = if tokens[at] == mark('{') {
            object_at(tokens, at)
        } else {
            array_at(tokens, at)
        };
        let (consumed, value) = nested->Ok_0;
        lemma_array_rest_printable(tokens, at + consumed + 1, elements.push(value));
    } else {
        assert(token_sound(tokens[at]));
        lemma_classified_is_printable(tokens[at]);
        lemma_array_rest_printable(tokens, at + 1, elements.push(classify(tokens[at])->Ok_0));
    }
}

proof fn lemma_object_at_printable(tokens: Seq<Seq<char>>, pos: int)
    requires
        all_sound(tokens),
        object_at(tokens, pos) is Ok,
    ensures
        printable(object_at(tokens, pos)->Ok_0.1),
        object_at(tokens, pos)->Ok_0.1 is Object,
    decreases tokens.len() - pos, 0int,
{
    let none: Option<Seq<char>> = None;
    lemma_object_rest_printable(tokens, pos + 1, none, Map::empty());
    lemma_printable_object(object_rest(tokens, pos + 1, none, Map::empty())->Ok_0.1);
}

proof fn lemma_array_at_printable(tokens: Seq<Seq<char>>, pos: int)
    requires
        all_sound(tokens),
        array_at(tokens, pos) is Ok,
    ensures
        printable(array_at(tokens, pos)->Ok_0.1),
    decreases tokens.len() - pos, 0int,
{
    lemma_array_rest_printable(tokens, pos + 1, Seq::empty());
    lemma_printable_array(array_rest(tokens, pos + 1, Seq::empty())->Ok_0.1);
}

/// Every tree that decoding gives is an object and is printable.
pub proof fn law_decoded_is_printable(text: Seq<char>)
    requires
        decode(text) is Ok,
    ensures
        decode(text)->Ok_0 is Object,
        printable(decode(text)->Ok_0),
{
    law_tokens_are_sound(text);
    lemma_object_at_printable(tokens_of(text), 0);
}

/// Whether the document writes each member of each of its objects under a
/// key of its own.
pub open spec fn canonical(d: Document) -> bool
    decreases d,
{
    match d {
        Document::Object(members) => distinct_keys(members) && forall|i: int|
            0 <= i < members.len() ==> canonical((#[trigger] members[i]).1),
        Document::Array(elements) => forall|i: int|
            0 <= i < elements.len() ==> canonical(#[trigger] elements[i]),
        _ => true,
    }
}

/// A canonical document that presents a printable tree is well formed.
proof fn lemma_presented_is_well_formed(d: Document)
    requires
        canonical(d),
        printable(d.tree()),
    ensures
        d.well_formed(),
    decreases d,
{
    match d {
        Document::Object(members) => {
            let trees = member_trees(members);
            let map = entries_map(trees);
            lemma_printable_object(map);
            assert(distinct_keys(trees)) by {
                assert forall|i: int, j: int| 0 <= i < j < trees.len() implies (
                #[trigger] trees[i]).0 != (#[trigger] trees[j]).0 by {
                    assert(members[i].0 != members[j].0);
                }
            }
            assert forall|i: int| 0 <= i < members.len() implies quotable(
                (#[trigger] members[i]).0,
            ) && members[i].1.well_formed() by {
                lemma_entries_map_lookup(trees, i);
                assert(map.dom().contains(trees[i].0));
                assert(printable(map[trees[i].0]));
                assert(canonical(d->Object_0[i].1));
                lemma_presented_is_well_formed(members[i].1);
            }
            lemma_well_formed_object(members);
        },
        Document::Array(elements) => {
            let trees = element_trees(elements);
            lemma_printable_array(trees);
            assert forall|i: int| 0 <= i < elements.len() implies (
            #[trigger] elements[i]).well_formed() by {
                assert(printable(trees[i]));
                assert(canonical(d->Array_0[i]));
                lemma_presented_is_well_formed(elements[i]);
            }
            lemma_well_formed_array(elements);
        },
        _ => {},
    }
}

/// Decoding, writing the tree and decoding again gives the same tree: where
/// a text decodes to a tree, the canonical text of every document that
/// presents that tree, each member of each object written once, in
/// whatever order, decodes to that tree as well.
pub proof fn law_round_trip(text: Seq<char>, d: Document)
    requires
        decode(text) is Ok,
        d.tree() == decode(text)->Ok_0,
        canonical(d),
    ensures
        decode(d.text()) == decode(text),
{
    law_decoded_is_printable(text);
    lemma_presented_is_well_formed(d);
    law_written_document_decodes(d);
}

/// Whether `keys` lists the elements of `set`, each once.
pub open spec fn enumerates(keys: Seq<Seq<char>>, set: Set<Seq<char>>) -> bool {
    &&& keys.no_duplicates()
    &&& forall|key: Seq<char>| set.contains(key) <==> keys.contains(key)
}

/// The elements of a finite set in some order, each once.
pub open spec fn keys_of(set: Set<Seq<char>>) -> Seq<Seq<char>> {
    choose|keys: Seq<Seq<char>>| enumerates(keys, set)
}

proof fn lemma_keys_of(set: Set<Seq<char>>)
    requires
        set.finite(),
    ensures
        enumerates(keys_of(set), set),
    decreases set.len(),
{
    if set.len() == 0 {
        let keys = Seq::<Seq<char>>::empty();
        assert forall|key: Seq<char>| set.contains(key) <==> keys.contains(key) by {
            if set.contains(key) {
                vstd::set_lib::axiom_is_empty(set);
            }
        }
        assert(enumerates(keys, set));
    } else {
        let x = set.choose();
        let rest = set.remove(x);
        lemma_keys_of(rest);
        let front = keys_of(rest);
        let keys = front.push(x);
        assert(keys.no_duplicates()) by {
            assert forall|i: int, j: int| 0 <= i < keys.len() && 0 <= j < keys.len() && i
                != j implies keys[i] != keys[j] by {
                if i < front.len() {
                    assert(front.contains(front[i]));
                }
                if j < front.len() {
                    assert(front.contains(front[j]));
                }
            }
        }
        assert forall|key: Seq<char>| set.contains(key) <==> keys.contains(key) by {
            if set.contains(key) {
                if key == x {
                    assert(keys[keys.len() - 1] == key);
                } else {
                    assert(rest.contains(key));
                    let i = choose|i: int| 0 <= i < front.len() && front[i] == key;
                    assert(keys[i] == key);
                }
            }
            if keys.contains(key) {
                let i = choose|i: int| 0 <= i < keys.len() && keys[i] == key;
                if i < front.len() {
                    assert(front.contains(front[i]));
                }
            }
        }
        assert(enumerates(keys, set));
    }
}

/// A document that presents `tree`: the same tree, with the members of
/// each object in some order.
pub open spec fn document_of(tree: JsonModel) -> Document
    decreases tree,
{
    match tree {
        JsonModel::String(s) => Document::String(s),
        JsonModel::Number(n) => Document::Number(n),
        JsonModel::Bool(b) => Document::Bool(b),
        JsonModel::Object(members) => {
            let keys = keys_of(members.dom());
            Document::Object(
                Seq::new(
                    keys.len(),
                    |i: int|
                        if 0 <= i < keys.len() && members.dom().contains(keys[i]) {
                            (keys[i], document_of(members[keys[i]]))
                        } else {
                            (Seq::empty(), Document::Null)
                        },
                ),
            )
        },
        JsonModel::Array(elements) => Document::Array(
            Seq::new(
                elements.len(),
                |i: int|
                    if 0 <= i < elements.len() {
                        document_of(elements[i])
                    } else {
                        Document::Null
                    },
            ),
        ),
        _ => Document::Null,
    }
}

/// The document of a printable tree is canonical and presents the tree.
proof fn lemma_document_of(tree: JsonModel)
    requires
        printable(tree),
    ensures
        canonical(document_of(tree)),
        document_of(tree).tree() == tree,
    decreases tree,
{
    let d = document_of(tree);
    match tree {
        JsonModel::Object(map) => {
            lemma_printable_object(map);
            lemma_keys_of(map.dom());
            let keys = keys_of(map.dom());
            let members = d->Object_0;
            assert(members.len() == keys.len());
            assert forall|i: int| 0 <= i < members.len() implies (#[trigger] members[i]).0
                == keys[i] && canonical(members[i].1) && members[i].1.tree() == map[keys[i]] by {
                assert(keys.contains(keys[i]));
                assert(map.dom().contains(keys[i]));
                assert(printable(tree->Object_0[keys[i]]));
                lemma_document_of(map[keys[i]]);
            }
            assert(distinct_keys(members)) by {
                assert forall|i: int, j: int| 0 <= i < j < members.len() implies (
                #[trigger] members[i]).0 != (#[trigger] members[j]).0 by {
                    assert(keys[i] != keys[j]);
                }
            }
            assert(canonical(d)) by {
                assert forall|i: int| 0 <= i < d->Object_0.len() implies canonical(
                    (#[trigger] d->Object_0[i]).1,
                ) by {
                    assert(canonical(members[i].1));
                }
            }
            let trees = member_trees(members);
            assert(distinct_keys(trees)) by {
                assert forall|i: int, j: int| 0 <= i < j < trees.len() implies (
                #[trigger] trees[i]).0 != (#[trigger] trees[j]).0 by {
                    assert(members[i].0 != members[j].0);
                }
            }
            let built = entries_map(trees);
            lemma_entries_map_dom(trees);
            assert forall|key: Seq<char>| built.dom().contains(key) <==> map.dom().contains(
                key,
            ) by {
                if built.dom().contains(key) {
                    let i = choose|i: int| 0 <= i < trees.len() && (#[trigger] trees[i]).0 == key;
                    assert(members[i].0 == keys[i]);
                    assert(keys.contains(keys[i]));
                }
                if map.dom().contains(key) {
                    assert(keys.contains(key));
                    let i = choose|i: int| 0 <= i < keys.len() && keys[i] == key;
                    assert(trees[i].0 == key);
                    assert(has_key(trees, key));
                }
            }
            assert forall|key: Seq<char>| built.dom().contains(key) implies built[key]
                == map[key] by {
                let i = choose|i: int| 0 <= i < trees.len() && (#[trigger] trees[i]).0 == key;
                lemma_entries_map_lookup(trees, i);
                assert(members[i].1.tree() == map[keys[i]]);
            }
            assert(built =~= map);
        },
        JsonModel::Array(list) => {
            lemma_printable_array(list);
            let elements = d->Array_0;
            assert forall|i: int| 0 <= i < elements.len() implies canonical(
                #[trigger] elements[i],
            ) && elements[i].tree() == list[i] by {
                assert(printable(tree->Array_0[i]));
                lemma_document_of(list[i]);
            }
            assert(canonical(d)) by {
                assert forall|i: int| 0 <= i < d->Array_0.len() implies canonical(
                    #[trigger] d->Array_0[i],
                ) by {
                    assert(canonical(elements[i]));
                }
            }
            assert(element_trees(elements) =~= list);
        },
        _ => {},
    }
}

/// Every tree that decoding gives can be written: it has a document that
/// presents it and writes each member of each object once.
pub proof fn law_decoded_tree_has_document(text: Seq<char>)
    requires
        decode(text) is Ok,
    ensures
        canonical(document_of(decode(text)->Ok_0)),
        document_of(decode(text)->Ok_0).tree() == decode(text)->Ok_0,
        decode(document_of(decode(text)->Ok_0).text()) == decode(text),
{
    law_decoded_is_printable(text);
    lemma_document_of(decode(text)->Ok_0);
    law_round_trip(text, document_of(decode(text)->Ok_0));
}

} // verus!
