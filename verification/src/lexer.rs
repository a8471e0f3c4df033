//! The lexer: from the text of a document to its tokens.
//!
//! The quotes that no backslash stands directly before cut the text into
//! segments, which lie by turns outside and inside string literals.  A
//! segment inside a literal is one token, with a quote put before and behind
//! it.  A segment outside is stripped of its whitespace; each of `{ } [ ] :`
//! in it is a token, a comma is dropped, and every run of other characters is
//! a token.

use vstd::prelude::*;
use crate::chars::{
    chars_of, delimiter, is_delimiter, is_separator, is_whitespace, separator, string_of,
    whitespace, BACKSLASH, QUOTE,
};

verus! {

/// Whether the character at `i` is a quote with no backslash directly before
/// it.  Such a quote opens or closes a string literal.
pub open spec fn delimiting_quote(text: Seq<char>, i: int) -> bool {
    &&& 0 <= i < text.len()
    &&& text[i] == QUOTE
    &&& !(i > 0 && text[i - 1] == BACKSLASH)
}

/// The end of the segment that begins at `from`: the position of the next
/// delimiting quote, or the end of the text.
pub open spec fn segment_end(text: Seq<char>, from: int) -> int
    decreases text.len() - from,
{
    if from < 0 || from >= text.len() {
        text.len() as int
    } else if delimiting_quote(text, from) {
        from
    } else {
        segment_end(text, from + 1)
    }
}

/// The predicate that holds of the characters that are no whitespace.
pub open spec fn not_whitespace() -> spec_fn(char) -> bool {
    |c: char| !whitespace(c)
}

/// The end of the bare literal of `s` that begins at `from`: the position of
/// the next separator, or the end of `s`.
pub open spec fn atom_end(s: Seq<char>, from: int) -> int
    decreases s.len() - from,
{
    if 0 <= from < s.len() && !separator(s[from]) {
        atom_end(s, from + 1)
    } else {
        from
    }
}

/// A bare literal ends within the text, holds no separator, and is followed
/// by a separator or by nothing.
pub proof fn lemma_atom_end(s: Seq<char>, from: int)
    requires
        0 <= from <= s.len(),
    ensures
        from <= atom_end(s, from) <= s.len(),
        from < s.len() && !separator(s[from]) ==> from < atom_end(s, from),
        forall|i: int| from <= i < atom_end(s, from) ==> !separator(#[trigger] s[i]),
        atom_end(s, from) < s.len() ==> separator(s[atom_end(s, from)]),
    decreases s.len() - from,
{
    if from < s.len() && !separator(s[from]) {
        lemma_atom_end(s, from + 1);
    }
}

/// A segment ends within the text, holds no delimiting quote, and is
/// followed by a delimiting quote or by nothing.
pub proof fn lemma_segment_end(text: Seq<char>, from: int)
    requires
        0 <= from <= text.len(),
    ensures
        from <= segment_end(text, from) <= text.len(),
        forall|i: int| from <= i < segment_end(text, from) ==> !delimiting_quote(text, i),
        segment_end(text, from) < text.len() ==> delimiting_quote(text, segment_end(text, from)),
    decreases text.len() - from,
{
    if from < text.len() && !delimiting_quote(text, from) {
        lemma_segment_end(text, from + 1);
    }
}

/// The tokens of `s[from..]`, where `s` holds no whitespace and lies outside
/// string literals.
pub open spec fn split_atoms(s: Seq<char>, from: int) -> Seq<Seq<char>>
    decreases s.len() - from,
{
    if from < 0 || from >= s.len() {
        Seq::empty()
    } else if s[from] == ',' {
        split_atoms(s, from + 1)
    } else if delimiter(s[from]) {
        seq![seq![s[from]]] + split_atoms(s, from + 1)
    } else {
        proof {
            lemma_atom_end(s, from);
        }
        seq![s.subrange(from, atom_end(s, from))] + split_atoms(s, atom_end(s, from))
    }
}

/// The tokens of a segment that lies outside string literals.
pub open spec fn bare_tokens(segment: Seq<char>) -> Seq<Seq<char>> {
    split_atoms(segment.filter(not_whitespace()), 0)
}

/// The token of a segment that lies inside a string literal: the segment
/// between two quotes.
pub open spec fn quoted(segment: Seq<char>) -> Seq<char> {
    seq![QUOTE] + segment + seq![QUOTE]
}

/// The tokens of one segment.
pub open spec fn segment_tokens(segment: Seq<char>, inside: bool) -> Seq<Seq<char>> {
    if inside {
        seq![quoted(segment)]
    } else {
        bare_tokens(segment)
    }
}

/// The tokens of `text[from..]`, where a segment begins at `from` that lies
/// inside a string literal or outside, as `inside` says.  Where the text ends
/// with a backslash, its last segment gives no tokens.
pub open spec fn tokens_from(text: Seq<char>, from: int, inside: bool) -> Seq<Seq<char>>
    decreases text.len() - from,
{
    if from < 0 || from > text.len() {
        Seq::empty()
    } else {
        let end = segment_end(text, from);
        let here = segment_tokens(text.subrange(from, end), inside);
        if end >= text.len() {
            if text.len() > 0 && text.last() == BACKSLASH {
                Seq::empty()
            } else {
                here
            }
        } else {
            proof {
                lemma_segment_end(text, from);
            }
            here + tokens_from(text, end + 1, !inside)
        }
    }
}

/// The tokens of a document.
pub open spec fn tokens_of(text: Seq<char>) -> Seq<Seq<char>> {
    tokens_from(text, 0, false)
}

/// The texts of a list of strings.
pub open spec fn texts(strings: Seq<String>) -> Seq<Seq<char>> {
    Seq::new(strings.len(), |i: int| strings[i]@)
}

/// The text of a list with one more string is the texts of the list with one
/// more text.
pub proof fn lemma_texts_push(strings: Seq<String>, s: String)
    ensures
        texts(strings.push(s)) == texts(strings).push(s@),
{
    assert(texts(strings.push(s)) =~= texts(strings).push(s@));
}

/// The end of the segment of `text` that begins at `from`.
fn find_segment_end(text: &[char], from: usize) -> (end: usize)
    requires
        from <= text.len(),
    ensures
        end == segment_end(text@, from as int),
        from <= end <= text.len(),
{
    let mut i: usize = from;
    while i < text.len()
        invariant
            from <= i <= text.len(),
            segment_end(text@, i as int) == segment_end(text@, from as int),
        decreases text.len() - i,
    {
        if text[i] == QUOTE && !(i > 0 && text[i - 1] == BACKSLASH) {
            return i;
        }
        i += 1;
    }
    i
}

/// The characters of `text[from..to]` that are no whitespace.
fn strip_whitespace(text: &[char], from: usize, to: usize) -> (out: Vec<char>)
    requires
        from <= to <= text.len(),
    ensures
        out@ == text@.subrange(from as int, to as int).filter(not_whitespace()),
{
    let mut out: Vec<char> = Vec::new();
    let mut i: usize = from;
    proof {
        reveal(Seq::filter);
    }
    while i < to
        invariant
            from <= i <= to <= text.len(),
            out@ == text@.subrange(from as int, i as int).filter(not_whitespace()),
        decreases to - i,
    {
        let c: char = text[i];
        proof {
            let before = text@.subrange(from as int, i as int);
            assert(text@.subrange(from as int, i + 1) =~= before.push(c));
            before.lemma_filter_push(c, not_whitespace());
        }
        if !is_whitespace(c) {
            out.push(c);
        }
        i += 1;
    }
    out
}

/// Appends to `tokens` the tokens of `s`, which holds no whitespace and lies
/// outside string literals.
fn push_atoms(s: &[char], tokens: &mut Vec<String>)
    ensures
        texts(final(tokens)@) == texts(old(tokens)@) + split_atoms(s@, 0),
{
    let mut i: usize = 0;
    while i < s.len()
        invariant
            i <= s.len(),
            texts(tokens@) + split_atoms(s@, i as int) == texts(old(tokens)@) + split_atoms(s@, 0),
        decreases s.len() - i,
    {
        let c: char = s[i];
        let ghost before = tokens@;
        if c == ',' {
            i += 1;
        } else if is_delimiter(c) {
            tokens.push(string_of(s, i, i + 1));
            proof {
                lemma_texts_push(before, tokens@.last());
                assert(before.push(tokens@.last()) =~= tokens@);
                assert(s@.subrange(i as int, i + 1) =~= seq![c]);
                assert(texts(tokens@) + split_atoms(s@, i + 1) =~= texts(before) + split_atoms(
                    s@,
                    i as int,
                ));
            }
            i += 1;
        } else {
            let mut end: usize = i + 1;
            while end < s.len() && !is_separator(s[end])
                invariant
                    i < end <= s.len(),
                    atom_end(s@, end as int) == atom_end(s@, i as int),
                decreases s.len() - end,
            {
                end += 1;
            }
            tokens.push(string_of(s, i, end));
            proof {
                lemma_texts_push(before, tokens@.last());
                assert(before.push(tokens@.last()) =~= tokens@);
                assert(texts(tokens@) + split_atoms(s@, end as int) =~= texts(before)
                    + split_atoms(s@, i as int));
            }
            i = end;
        }
    }
    assert(texts(tokens@) + Seq::<Seq<char>>::empty() =~= texts(tokens@));
}

/// Appends to `tokens` the tokens of the segment `text[from..to]`.
fn push_segment_tokens(
    text: &[char],
    from: usize,
    to: usize,
    inside: bool,
    tokens: &mut Vec<String>,
)
    requires
        from <= to <= text.len(),
    ensures
        texts(final(tokens)@) == texts(old(tokens)@) + segment_tokens(
            text@.subrange(from as int, to as int),
            inside,
        ),
{
    if inside {
        let ghost segment = text@.subrange(from as int, to as int);
        let mut token = String::new();
        token.push(QUOTE);
        let mut i: usize = from;
        while i < to
            invariant
                from <= i <= to <= text.len(),
                token@ == seq![QUOTE] + text@.subrange(from as int, i as int),
            decreases to - i,
        {
            token.push(text[i]);
            assert(text@.subrange(from as int, i + 1) =~= text@.subrange(
                from as int,
                i as int,
            ).push(text@[i as int]));
            assert(token@ =~= seq![QUOTE] + text@.subrange(from as int, i + 1));
            i += 1;
        }
        token.push(QUOTE);
        assert(token@ =~= quoted(segment));
        let ghost before = tokens@;
        tokens.push(token);
        proof {
            lemma_texts_push(before, token);
            assert(texts(tokens@) =~= texts(before) + seq![quoted(segment)]);
        }
    } else {
        let stripped = strip_whitespace(text, from, to);
        push_atoms(stripped.as_slice(), tokens);
    }
}

/// The tokens of the document `s`.
pub fn tokenize(s: &str) -> (tokens: Vec<String>)
    ensures
        texts(tokens@) == tokens_of(s@),
{
    let text = chars_of(s);
    let n: usize = text.len();
    let ends_with_backslash: bool = n > 0 && text[n - 1] == BACKSLASH;
    let mut tokens: Vec<String> = Vec::new();
    let mut from: usize = 0;
    let mut inside: bool = false;
    assert(texts(tokens@) =~= Seq::<Seq<char>>::empty());
    assert(texts(tokens@) + tokens_from(text@, 0, false) =~= tokens_of(s@));
    loop
        invariant_except_break
            texts(tokens@) + tokens_from(text@, from as int, inside) == tokens_of(s@),
        invariant
            from <= n == text.len(),
            text@ == s@,
            ends_with_backslash == (text@.len() > 0 && text@.last() == BACKSLASH),
        ensures
            texts(tokens@) == tokens_of(s@),
        decreases n - from,
    {
        let end = find_segment_end(text.as_slice(), from);
        if end >= n {
            if !ends_with_backslash {
                push_segment_tokens(text.as_slice(), from, end, inside, &mut tokens);
            } else {
                assert(texts(tokens@) + Seq::<Seq<char>>::empty() =~= texts(tokens@));
            }
            break ;
        }
        let ghost before = texts(tokens@);
        push_segment_tokens(text.as_slice(), from, end, inside, &mut tokens);
        proof {
            let here = segment_tokens(text@.subrange(from as int, end as int), inside);
            let rest = tokens_from(text@, end + 1, !inside);
            assert((before + here) + rest =~= before + (here + rest));
        }
        from = end + 1;
        inside = !inside;
    }
    tokens
}

} // verus!
