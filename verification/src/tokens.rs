//! What holds of every token that the lexer gives out.

use vstd::prelude::*;
use crate::chars::{delimiter, separator, whitespace, BACKSLASH, QUOTE};
use crate::lexer::{
    atom_end, delimiting_quote, lemma_atom_end, lemma_segment_end, not_whitespace,
    quoted, segment_end, segment_tokens, split_atoms, tokens_from, tokens_of,
};
use crate::written::quotable;

verus! {

/// Whether a backslash stands directly before each quote of `s`.
pub open spec fn quotes_escaped(s: Seq<char>) -> bool {
    forall|i: int| 0 <= i < s.len() && #[trigger] s[i] == QUOTE ==> i > 0 && s[i - 1] == BACKSLASH
}

/// Whether `token` is a delimiter: one of `{ } [ ] :` and nothing else.
pub open spec fn structural(token: Seq<char>) -> bool {
    token.len() == 1 && delimiter(token[0])
}

/// Whether `token` is a string literal: it begins and ends with a quote, and
/// between the two a backslash stands before each quote and none at the end.
pub open spec fn string_literal(token: Seq<char>) -> bool {
    &&& token.len() >= 2
    &&& token[0] == QUOTE
    &&& token.last() == QUOTE
    &&& quotable(token.subrange(1, token.len() - 1))
}

/// Whether `token` is a bare literal: it is not empty, does not begin with
/// a quote, holds neither whitespace nor separator, and a backslash stands
/// before each quote in it.
pub open spec fn bare_literal(token: Seq<char>) -> bool {
    &&& token.len() >= 1
    &&& token[0] != QUOTE
    &&& forall|i: int|
        0 <= i < token.len() ==> !whitespace(#[trigger] token[i]) && !separator(token[i])
    &&& quotes_escaped(token)
}

/// Whether `token` is as a token should be: a delimiter, a string literal or
/// a bare literal.
pub open spec fn token_sound(token: Seq<char>) -> bool {
    structural(token) || string_literal(token) || bare_literal(token)
}

/// Whether each of `tokens` is sound.
pub open spec fn all_sound(tokens: Seq<Seq<char>>) -> bool {
    forall|i: int| 0 <= i < tokens.len() ==> token_sound(#[trigger] tokens[i])
}

proof fn lemma_all_sound_concat(a: Seq<Seq<char>>, b: Seq<Seq<char>>)
    requires
        all_sound(a),
        all_sound(b),
    ensures
        all_sound(a + b),
{
    let whole = a + b;
    assert forall|i: int| 0 <= i < whole.len() implies token_sound(#[trigger] whole[i]) by {
        if i < a.len() {
            assert(whole[i] == a[i]);
        } else {
            assert(whole[i] == b[i - a.len()]);
        }
    }
}

/// Stripping the whitespace keeps the quotes escaped, keeps a last
/// character that is no whitespace, and leaves no whitespace.
proof fn lemma_strip(x: Seq<char>)
    requires
        quotes_escaped(x),
    ensures
        quotes_escaped(x.filter(not_whitespace())),
        x.len() > 0 && !whitespace(x.last()) ==> x.filter(not_whitespace()).len() > 0
            && x.filter(not_whitespace()).last() == x.last(),
        forall|i: int|
            0 <= i < x.filter(not_whitespace()).len() ==> !whitespace(
                #[trigger] x.filter(not_whitespace())[i],
            ),
    decreases x.len(),
{
    reveal(Seq::filter);
    if x.len() > 0 {
        let front = x.drop_last();
        let last = x.last();
        assert(quotes_escaped(front)) by {
            assert forall|i: int| 0 <= i < front.len() && #[trigger] front[i] == QUOTE implies i > 0
                && front[i - 1] == BACKSLASH by {
                assert(x[i] == QUOTE);
            }
        }
        lemma_strip(front);
        let kept = front.filter(not_whitespace());
        let out = x.filter(not_whitespace());
        if !whitespace(last) {
            assert(out == kept.push(last));
            assert forall|i: int| 0 <= i < out.len() && #[trigger] out[i] == QUOTE implies i > 0
                && out[i - 1] == BACKSLASH by {
                if i == out.len() - 1 {
                    assert(x[x.len() - 1] == QUOTE);
                    assert(x.len() - 1 > 0 && x[x.len() - 2] == BACKSLASH);
                    assert(front.last() == BACKSLASH);
                    assert(kept.last() == BACKSLASH);
                } else {
                    assert(kept[i] == QUOTE);
                }
            }
        } else {
            assert(out == kept);
        }
    }
}

/// Each token that is split off a text without whitespace, in which the
/// quotes are escaped, is sound.
proof fn lemma_split_atoms_sound(s: Seq<char>, from: int)
    requires
        0 <= from <= s.len(),
        quotes_escaped(s),
        forall|i: int| 0 <= i < s.len() ==> !whitespace(#[trigger] s[i]),
        from == 0 || from == s.len() || separator(s[from - 1]) || separator(s[from]),
    ensures
        all_sound(split_atoms(s, from)),
    decreases s.len() - from,
{
    if from >= s.len() {
    } else if s[from] == ',' {
        lemma_split_atoms_sound(s, from + 1);
    } else if delimiter(s[from]) {
        lemma_split_atoms_sound(s, from + 1);
        let one = seq![seq![s[from]]];
        assert(all_sound(one)) by {
            assert(structural(one[0]));
        }
        lemma_all_sound_concat(one, split_atoms(s, from + 1));
    } else {
        lemma_atom_end(s, from);
        let end = atom_end(s, from);
        lemma_split_atoms_sound(s, end);
        let token = s.subrange(from, end);
        assert(bare_literal(token)) by {
            assert forall|i: int| 0 <= i < token.len() implies !whitespace(#[trigger] token[i])
                && !separator(token[i]) by {
                assert(token[i] == s[from + i]);
            }
            assert forall|i: int| 0 <= i < token.len() && #[trigger] token[i] == QUOTE implies i
                > 0 && token[i - 1] == BACKSLASH by {
                assert(s[from + i] == QUOTE);
                assert(s[from + i - 1] == BACKSLASH);
                if i > 0 {
                    assert(token[i - 1] == s[from + i - 1]);
                }
            }
            if token[0] == QUOTE {
                assert(s[from] == QUOTE);
                assert(s[from - 1] == BACKSLASH);
            }
        }
        let one = seq![token];
        assert(all_sound(one)) by {
            assert(token_sound(one[0]));
        }
        lemma_all_sound_concat(one, split_atoms(s, end));
    }
}

/// Each token of a segment is sound.
proof fn lemma_segment_tokens_sound(text: Seq<char>, from: int, inside: bool)
    requires
        0 <= from <= text.len(),
        from == 0 || text[from - 1] == QUOTE,
        segment_end(text, from) < text.len() || text.len() == 0 || text.last() != BACKSLASH,
    ensures
        all_sound(
            segment_tokens(text.subrange(from, segment_end(text, from)), inside),
        ),
{
    lemma_segment_end(text, from);
    let end = segment_end(text, from);
    let segment = text.subrange(from, end);
    assert(quotes_escaped(segment)) by {
        assert forall|i: int| 0 <= i < segment.len() && #[trigger] segment[i] == QUOTE implies i
            > 0 && segment[i - 1] == BACKSLASH by {
            assert(text[from + i] == QUOTE);
            assert(!delimiting_quote(text, from + i));
            assert(text[from + i - 1] == BACKSLASH);
            if i > 0 {
                assert(segment[i - 1] == text[from + i - 1]);
            }
        }
    }
    if inside {
        let token = quoted(segment);
        assert(token.len() == segment.len() + 2);
        assert(token.subrange(1, token.len() - 1) =~= segment);
        assert(token[0] == QUOTE);
        assert(token.last() == QUOTE);
        assert(quotable(segment)) by {
            if segment.len() > 0 {
                assert(segment.last() == text[end - 1]);
                if end < text.len() {
                    assert(delimiting_quote(text, end));
                } else {
                    assert(text.last() == text[end - 1]);
                }
            }
        }
        assert(string_literal(token));
        assert(token_sound(seq![token][0]));
    } else {
        lemma_strip(segment);
        lemma_split_atoms_sound(segment.filter(not_whitespace()), 0);
    }
}

proof fn lemma_tokens_from_sound(text: Seq<char>, from: int, inside: bool)
    requires
        0 <= from <= text.len(),
        from == 0 || text[from - 1] == QUOTE,
    ensures
        all_sound(tokens_from(text, from, inside)),
    decreases text.len() - from,
{
    lemma_segment_end(text, from);
    let end = segment_end(text, from);
    if end >= text.len() {
        if !(text.len() > 0 && text.last() == BACKSLASH) {
            lemma_segment_tokens_sound(text, from, inside);
        }
    } else {
        lemma_segment_tokens_sound(text, from, inside);
        lemma_tokens_from_sound(text, end + 1, !inside);
        lemma_all_sound_concat(
            segment_tokens(text.subrange(from, end), inside),
            tokens_from(text, end + 1, !inside),
        );
    }
}

/// Every token of every text is sound: a delimiter, a string literal that
/// begins and ends with a quote, or a bare literal without whitespace or
/// separator; and outside a string literal's two quotes no quote stands
/// without a backslash before it.
pub proof fn law_tokens_are_sound(text: Seq<char>)
    ensures
        all_sound(tokens_of(text)),
{
    lemma_tokens_from_sound(text, 0, false);
}

} // verus!
