//! Documents as they are written: a ghost model of canonical JSON text, made
//! to state and prove that what is written is what decoding reads.
//!
//! A text is written as a sequence of pieces: delimiters, commas, bare
//! literals and quoted strings.

use vstd::prelude::*;
use crate::chars::{delimiter, separator, whitespace, BACKSLASH, QUOTE};
use crate::lexer::{
    atom_end, bare_tokens, delimiting_quote, lemma_atom_end, lemma_segment_end, not_whitespace,
    quoted, segment_end, split_atoms, tokens_from, };

verus! {

/// One piece of a written text.
pub enum Piece {
    /// One of the delimiters `{ } [ ] :`.
    Mark(char),
    /// The comma between two members or two elements.
    Comma,
    /// A bare literal: a number, `true`, `false` or `null`.
    Atom(Seq<char>),
    /// A string, to be written between quotes.
    Quoted(Seq<char>),
}

/// Whether `s` can stand as a bare literal: it is not empty and holds no
/// whitespace, separator, quote or backslash.
pub open spec fn bare(s: Seq<char>) -> bool {
    &&& s.len() > 0
    &&& forall|i: int|
        0 <= i < s.len() ==> {
            let c = #[trigger] s[i];
            !whitespace(c) && !separator(c) && c != QUOTE && c != BACKSLASH
        }
}

/// Whether `s` can stand between quotes: a backslash stands directly before
/// each quote in it, and none at its end.
pub open spec fn quotable(s: Seq<char>) -> bool {
    &&& forall|i: int|
        0 <= i < s.len() && #[trigger] s[i] == QUOTE ==> i > 0 && s[i - 1] == BACKSLASH
    &&& s.len() > 0 ==> s.last() != BACKSLASH
}

impl Piece {
    /// The characters that the piece is written with.
    pub open spec fn text(self) -> Seq<char> {
        match self {
            Piece::Mark(c) => seq![c],
            Piece::Comma => seq![','],
            Piece::Atom(s) => s,
            Piece::Quoted(s) => quoted(s),
        }
    }

    /// The tokens that the piece is read as: itself, but nothing for a comma.
    pub open spec fn tokens(self) -> Seq<Seq<char>> {
        match self {
            Piece::Comma => Seq::empty(),
            _ => seq![self.text()],
        }
    }

    /// Whether the piece is sound in itself.
    pub open spec fn sound(self) -> bool {
        match self {
            Piece::Mark(c) => delimiter(c),
            Piece::Comma => true,
            Piece::Atom(s) => bare(s),
            Piece::Quoted(s) => quotable(s),
        }
    }
}

/// The text that the pieces from `from` on are written as.
pub open spec fn pieces_text(pieces: Seq<Piece>, from: int) -> Seq<char>
    decreases pieces.len() - from,
{
    if from < 0 || from >= pieces.len() {
        Seq::empty()
    } else {
        pieces[from].text() + pieces_text(pieces, from + 1)
    }
}

/// The tokens that the pieces from `from` on are read as.
pub open spec fn pieces_tokens(pieces: Seq<Piece>, from: int) -> Seq<Seq<char>>
    decreases pieces.len() - from,
{
    if from < 0 || from >= pieces.len() {
        Seq::empty()
    } else {
        pieces[from].tokens() + pieces_tokens(pieces, from + 1)
    }
}

/// Whether the pieces can be written one behind the other and read again:
/// each is sound, and a delimiter or a comma follows each bare literal.
pub open spec fn legible(pieces: Seq<Piece>) -> bool {
    &&& forall|i: int| 0 <= i < pieces.len() ==> (#[trigger] pieces[i]).sound()
    &&& forall|i: int|
        0 <= i < pieces.len() && (#[trigger] pieces[i]) is Atom ==> i + 1 < pieces.len() && (
        pieces[i + 1] is Mark || pieces[i + 1] is Comma)
}

/// Where the bare literal that begins at a place ends depends only on what
/// stands from that place on.
proof fn lemma_atom_end_shift(s: Seq<char>, k: int, from: int)
    requires
        0 <= k,
        0 <= from,
        k + from <= s.len(),
    ensures
        atom_end(s, k + from) == k + atom_end(s.skip(k), from),
    decreases s.len() - k - from,
{
    if k + from < s.len() && !separator(s[k + from]) {
        lemma_atom_end_shift(s, k, from + 1);
    }
}

/// The tokens from a place on depend only on what stands from that place on.
proof fn lemma_split_atoms_shift(s: Seq<char>, k: int, from: int)
    requires
        0 <= k,
        0 <= from,
        k + from <= s.len(),
    ensures
        split_atoms(s, k + from) == split_atoms(s.skip(k), from),
    decreases s.len() - k - from,
{
    let t = s.skip(k);
    if k + from >= s.len() {
    } else if s[k + from] == ',' || delimiter(s[k + from]) {
        lemma_split_atoms_shift(s, k, from + 1);
    } else {
        lemma_atom_end_shift(s, k, from);
        lemma_atom_end(t, from);
        let end = atom_end(t, from);
        lemma_split_atoms_shift(s, k, end);
        assert(s.subrange(k + from, k + end) =~= t.subrange(from, end));
    }
}

/// A bare literal of `x` ends at the same place in `x + y`, where a
/// separator stands at the end of `x` or at the beginning of `y`, or `y` is
/// empty.
proof fn lemma_atom_end_concat(x: Seq<char>, y: Seq<char>, from: int)
    requires
        0 <= from < x.len(),
        y.len() == 0 || separator(y[0]) || separator(x.last()),
    ensures
        atom_end(x + y, from) == atom_end(x, from),
    decreases x.len() - from,
{
    let whole = x + y;
    assert(whole[from] == x[from]);
    if !separator(x[from]) {
        if from + 1 < x.len() {
            lemma_atom_end_concat(x, y, from + 1);
        } else {
            assert(x.last() == x[from]);
            assert(atom_end(x, from + 1) == from + 1);
            if y.len() > 0 {
                assert(whole[from + 1] == y[0]);
            }
            assert(atom_end(whole, from + 1) == from + 1);
        }
    }
}

/// Where a separator stands at the end of `x` or at the beginning of `y`,
/// or one of them is empty, the tokens of `x + y` are those of `x` and then
/// those of `y`.
proof fn lemma_split_atoms_concat(x: Seq<char>, y: Seq<char>, from: int)
    requires
        0 <= from <= x.len(),
        y.len() == 0 || separator(y[0]) || x.len() == 0 || separator(x.last()),
    ensures
        split_atoms(x + y, from) == split_atoms(x, from) + split_atoms(y, 0),
    decreases x.len() - from,
{
    let whole = x + y;
    if from == x.len() {
        lemma_split_atoms_shift(whole, from, 0);
        assert(whole.skip(from) =~= y);
        assert(split_atoms(x, from) + split_atoms(y, 0) =~= split_atoms(y, 0));
    } else {
        assert(whole[from] == x[from]);
        if x[from] == ',' {
            lemma_split_atoms_concat(x, y, from + 1);
        } else if delimiter(x[from]) {
            lemma_split_atoms_concat(x, y, from + 1);
            assert(seq![seq![x[from]]] + (split_atoms(x, from + 1) + split_atoms(y, 0)) =~= (
            seq![seq![x[from]]] + split_atoms(x, from + 1)) + split_atoms(y, 0));
        } else {
            lemma_atom_end_concat(x, y, from);
            lemma_atom_end(x, from);
            let end = atom_end(x, from);
            lemma_split_atoms_concat(x, y, end);
            assert(whole.subrange(from, end) =~= x.subrange(from, end));
            assert(seq![x.subrange(from, end)] + (split_atoms(x, end) + split_atoms(y, 0)) =~= (
            seq![x.subrange(from, end)] + split_atoms(x, end)) + split_atoms(y, 0));
        }
    }
}

/// Stripping the whitespace from a text that holds none leaves it as it is.
proof fn lemma_strip_nothing(x: Seq<char>)
    requires
        forall|i: int| 0 <= i < x.len() ==> !whitespace(#[trigger] x[i]),
    ensures
        x.filter(not_whitespace()) == x,
    decreases x.len(),
{
    reveal(Seq::filter);
    if x.len() > 0 {
        lemma_strip_nothing(x.drop_last());
        assert(x.drop_last().push(x.last()) =~= x);
    }
}

/// What is left of a text that begins with a character that is no
/// whitespace begins with that character.
proof fn lemma_strip_keeps_first(x: Seq<char>)
    requires
        x.len() > 0,
        !whitespace(x[0]),
    ensures
        x.filter(not_whitespace()).len() > 0,
        x.filter(not_whitespace())[0] == x[0],
{
    let first = seq![x[0]];
    let rest = x.skip(1);
    assert(x =~= first + rest);
    Seq::filter_distributes_over_add(first, rest, not_whitespace());
    lemma_strip_nothing(first);
}

/// The segment that begins at `from` ends at `end` if no quote before `end`
/// delimits and `end` is a delimiting quote or the end of the text.
proof fn lemma_segment_ends_at(text: Seq<char>, from: int, end: int)
    requires
        0 <= from <= end <= text.len(),
        forall|i: int| from <= i < end ==> !delimiting_quote(text, i),
        end < text.len() ==> delimiting_quote(text, end),
    ensures
        segment_end(text, from) == end,
    decreases end - from,
{
    if from < end {
        lemma_segment_ends_at(text, from + 1, end);
    }
}

/// What stands outside string literals and holds neither quote nor
/// whitespace is read for itself, where a separator stands at its end or
/// directly behind it, or nothing stands behind it.
proof fn lemma_read_outside(text: Seq<char>, pos: int, k: int)
    requires
        0 <= pos,
        0 <= k,
        pos + k <= text.len(),
        forall|i: int| pos <= i < pos + k ==> (#[trigger] text[i]) != QUOTE && !whitespace(text[i]),
        k == 0 || separator(text[pos + k - 1]) || pos + k == text.len() || separator(
            text[pos + k],
        ),
        text.len() == 0 || text.last() != BACKSLASH,
    ensures
        tokens_from(text, pos, false) == split_atoms(text.subrange(pos, pos + k), 0) + tokens_from(
            text,
            pos + k,
            false,
        ),
{
    let mid = pos + k;
    lemma_segment_end(text, mid);
    let end = segment_end(text, mid);
    lemma_segment_ends_at(text, pos, end);
    let x = text.subrange(pos, mid);
    let tail = text.subrange(mid, end);
    let y = tail.filter(not_whitespace());
    assert(text.subrange(pos, end) =~= x + tail);
    Seq::filter_distributes_over_add(x, tail, not_whitespace());
    lemma_strip_nothing(x);
    assert(y.len() == 0 || separator(y[0]) || x.len() == 0 || separator(x.last())) by {
        if k > 0 && !separator(text[mid - 1]) {
            if mid == text.len() {
                assert(tail.len() == 0);
                reveal(Seq::filter);
            } else {
                assert(separator(text[mid]));
                assert(!delimiting_quote(text, mid));
                assert(tail[0] == text[mid]);
                lemma_strip_keeps_first(tail);
            }
        } else if k > 0 {
            assert(x.last() == text[mid - 1]);
        }
    }
    lemma_split_atoms_concat(x, y, 0);
    let rest = if end >= text.len() {
        Seq::<Seq<char>>::empty()
    } else {
        tokens_from(text, end + 1, true)
    };
    assert(tokens_from(text, mid, false) == split_atoms(y, 0) + rest);
    assert(tokens_from(text, pos, false) == split_atoms(x + y, 0) + rest);
    assert((split_atoms(x, 0) + split_atoms(y, 0)) + rest =~= split_atoms(x, 0) + (split_atoms(
        y,
        0,
    ) + rest));
}

/// A quotable text between two quotes is read as one token.
proof fn lemma_read_quoted(text: Seq<char>, pos: int, s: Seq<char>)
    requires
        0 <= pos,
        pos + s.len() + 2 <= text.len(),
        text.subrange(pos, pos + s.len() + 2) == quoted(s),
        quotable(s),
        pos == 0 || text[pos - 1] != BACKSLASH,
        text.last() != BACKSLASH,
    ensures
        tokens_from(text, pos, false) == seq![quoted(s)] + tokens_from(
            text,
            pos + s.len() + 2,
            false,
        ),
{
    let n = s.len() as int;
    let close = pos + n + 1;
    let q = quoted(s);
    assert(q.len() == n + 2);
    assert forall|i: int| pos <= i <= close implies text[i] == q[i - pos] by {
        assert(text.subrange(pos, pos + n + 2)[i - pos] == text[i]);
    }
    assert(q[0] == QUOTE);
    assert(q[n + 1] == QUOTE);
    assert forall|i: int| 0 <= i < n implies q[i + 1] == s[i] by {}
    assert(delimiting_quote(text, pos));
    assert(delimiting_quote(text, close)) by {
        if n > 0 {
            assert(text[close - 1] == q[n]);
            assert(q[n] == s[n - 1]);
        }
    }
    assert forall|i: int| pos + 1 <= i < close implies !delimiting_quote(text, i) by {
        if text[i] == QUOTE {
            let j = i - pos - 1;
            assert(q[j + 1] == s[j]);
            assert(s[j] == QUOTE);
            assert(j > 0 && s[j - 1] == BACKSLASH);
            assert(q[j] == s[j - 1]);
            assert(text[i - 1] == q[j]);
        }
    }
    lemma_segment_ends_at(text, pos, pos);
    lemma_segment_ends_at(text, pos + 1, close);
    assert(text.subrange(pos + 1, close) =~= s);
    assert(text.subrange(pos, pos) =~= Seq::<char>::empty());
    assert(bare_tokens(Seq::<char>::empty()) =~= Seq::<Seq<char>>::empty()) by {
        reveal(Seq::filter);
    }
    assert(tokens_from(text, pos + 1, true) == seq![quoted(s)] + tokens_from(
        text,
        close + 1,
        false,
    ));
    assert(tokens_from(text, pos, false) == Seq::<Seq<char>>::empty() + tokens_from(
        text,
        pos + 1,
        true,
    ));
    assert(Seq::<Seq<char>>::empty() + tokens_from(text, pos + 1, true) =~= tokens_from(
        text,
        pos + 1,
        true,
    ));
}

/// A sound piece is written with at least one character, and the last one
/// is no backslash.
proof fn lemma_piece_text(piece: Piece)
    requires
        piece.sound(),
    ensures
        piece.text().len() > 0,
        piece.text().last() != BACKSLASH,
{
    match piece {
        Piece::Atom(s) => {
            assert(s[s.len() - 1] != BACKSLASH);
        },
        _ => {},
    }
}

/// Legible pieces, written one behind the other, are read as their tokens:
/// where the text from `pos` on is what the pieces from `from` on are
/// written as, the tokens from `pos` on are the tokens of those pieces.
pub proof fn lemma_pieces_are_read(text: Seq<char>, pos: int, pieces: Seq<Piece>, from: int)
    requires
        legible(pieces),
        0 <= from <= pieces.len(),
        0 <= pos <= text.len(),
        text.skip(pos) == pieces_text(pieces, from),
        pos == 0 || text[pos - 1] != BACKSLASH,
        text.len() == 0 || text.last() != BACKSLASH,
    ensures
        tokens_from(text, pos, false) == pieces_tokens(pieces, from),
    decreases pieces.len() - from,
{
    if from >= pieces.len() {
        assert(text.skip(pos).len() == 0);
        assert(pos == text.len());
        assert(text.subrange(pos, pos) =~= Seq::<char>::empty());
        assert(bare_tokens(Seq::<char>::empty()) =~= Seq::<Seq<char>>::empty()) by {
            reveal(Seq::filter);
        }
    } else {
        let piece = pieces[from];
        let written = piece.text();
        let rest = pieces_text(pieces, from + 1);
        let k = written.len() as int;
        lemma_piece_text(piece);
        assert(text.skip(pos) == written + rest);
        assert(pos + k <= text.len()) by {
            assert(text.skip(pos).len() == k + rest.len());
        }
        assert forall|i: int| 0 <= i < k implies text[pos + i] == written[i] by {
            assert(text.skip(pos)[i] == (written + rest)[i]);
        }
        assert(text.subrange(pos, pos + k) =~= written);
        assert(text.skip(pos + k) =~= rest) by {
            assert forall|i: int| 0 <= i < rest.len() implies text.skip(pos + k)[i] == rest[i] by {
                assert(text.skip(pos)[k + i] == (written + rest)[k + i]);
            }
        }
        assert(text[pos + k - 1] == written.last());
        lemma_pieces_are_read(text, pos + k, pieces, from + 1);
        match piece {
            Piece::Mark(c) => {
                assert(text[pos] == c);
                lemma_read_outside(text, pos, 1);
                assert(split_atoms(written, 1) =~= Seq::<Seq<char>>::empty());
                assert(split_atoms(written, 0) =~= seq![written]);
            },
            Piece::Comma => {
                assert(text[pos] == ',');
                lemma_read_outside(text, pos, 1);
                assert(split_atoms(written, 1) =~= Seq::<Seq<char>>::empty());
                assert(split_atoms(written, 0) =~= Seq::<Seq<char>>::empty());
                assert(Seq::<Seq<char>>::empty() + pieces_tokens(pieces, from + 1)
                    =~= pieces_tokens(pieces, from + 1));
            },
            Piece::Atom(a) => {
                let next = pieces[from + 1];
                assert(rest == next.text() + pieces_text(pieces, from + 2));
                assert(rest[0] == next.text()[0]);
                assert(text[pos + k] == text.skip(pos + k)[0]);
                assert(separator(text[pos + k]));
                assert forall|i: int| pos <= i < pos + k implies (#[trigger] text[i]) != QUOTE
                    && !whitespace(text[i]) by {
                    assert(text[i] == a[i - pos]);
                }
                lemma_read_outside(text, pos, k);
                lemma_atom_end(a, 0);
                assert(atom_end(a, 0) == k) by {
                    if atom_end(a, 0) < k {
                        assert(separator(a[atom_end(a, 0)]));
                    }
                }
                assert(a.subrange(0, k) =~= a);
                assert(split_atoms(a, k) =~= Seq::<Seq<char>>::empty());
                assert(split_atoms(a, 0) =~= seq![a]);
            },
            Piece::Quoted(s) => {
                assert(k == s.len() + 2);
                lemma_read_quoted(text, pos, s);
            },
        }
    }
}

} // verus!
