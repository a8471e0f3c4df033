//! Documents: a ghost model of what can be written as canonical JSON text.
//! A document is a tree whose objects keep their members in the order in
//! which they are written.

use vstd::prelude::*;
use crate::chars::{digit, separator, whitespace, BACKSLASH, QUOTE};
use crate::entries::entries_map;
use crate::numeral::{
    all_digits, decimal_number, digits_end, digits_value, exponent, float_literal, i64_of,
    integer_literal, integer_value, letter, sign_len, special_float, spells,
};
use crate::parser::{classify, float_marked};
use crate::value::{JsonModel, NumberModel};
use crate::written::{bare, pieces_text, pieces_tokens, quotable, Piece};

verus! {

/// The character of a digit below ten.
pub open spec fn digit_char(d: int) -> char {
    if d == 0 {
        '0'
    } else if d == 1 {
        '1'
    } else if d == 2 {
        '2'
    } else if d == 3 {
        '3'
    } else if d == 4 {
        '4'
    } else if d == 5 {
        '5'
    } else if d == 6 {
        '6'
    } else if d == 7 {
        '7'
    } else if d == 8 {
        '8'
    } else {
        '9'
    }
}

/// The digits that a natural number is written with.
pub open spec fn digits_of(n: nat) -> Seq<char>
    decreases n,
{
    if n < 10 {
        seq![digit_char(n as int)]
    } else {
        digits_of(n / 10).push(digit_char((n % 10) as int))
    }
}

/// The decimal numeral of an integer: its digits, behind a minus sign where
/// it is negative.
pub open spec fn decimal(i: int) -> Seq<char> {
    if i < 0 {
        seq!['-'] + digits_of((-i) as nat)
    } else {
        digits_of(i as nat)
    }
}

/// The digits of a number are digits, at least one, and denote the number.
pub proof fn lemma_digits_of(n: nat)
    ensures
        digits_of(n).len() > 0,
        all_digits(digits_of(n)),
        digits_value(digits_of(n)) == n,
    decreases n,
{
    if n < 10 {
        let s = digits_of(n);
        assert(s.drop_last() =~= Seq::<char>::empty());
        assert(digits_value(s.drop_last()) == 0);
        assert(s.last() == digit_char(n as int));
    } else {
        lemma_digits_of(n / 10);
        let front = digits_of(n / 10);
        let s = digits_of(n);
        assert(s.drop_last() =~= front);
        assert(s.last() == digit_char((n % 10) as int));
        assert forall|i: int| 0 <= i < s.len() implies digit(#[trigger] s[i]) by {
            if i < front.len() {
                assert(s[i] == front[i]);
            }
        }
    }
}

/// The decimal numeral of a 64-bit signed integer is a bare literal that is
/// classified as that integer.
pub proof fn lemma_decimal(i: i64)
    ensures
        bare(decimal(i as int)),
        classify(decimal(i as int)) == Ok::<JsonModel, crate::error::Failure>(
            JsonModel::Number(NumberModel::Int(i)),
        ),
{
    let s = decimal(i as int);
    let n: nat = if i < 0 {
        (-i) as nat
    } else {
        i as nat
    };
    lemma_digits_of(n);
    let digits = digits_of(n);
    if i < 0 {
        assert(s[0] == '-');
        assert(s.skip(1) =~= digits);
        assert(sign_len(s) == 1);
    } else {
        assert(digit(s[0]));
        assert(sign_len(s) == 0);
        assert(s.skip(0) =~= digits);
    }
    assert forall|k: int| 0 <= k < s.len() implies digit(#[trigger] s[k]) || s[k] == '-' by {
        if i < 0 && k > 0 {
            assert(s[k] == digits[k - 1]);
        }
    }
    assert(!float_marked(s)) by {
        if float_marked(s) {
            let k = choose|k: int|
                0 <= k < s.len() && (#[trigger] s[k] == '.' || s[k] == 'e' || s[k] == 'E');
            assert(digit(s[k]) || s[k] == '-');
        }
    }
    assert(integer_literal(s));
    assert(integer_value(s) == i);
    assert(i64_of(s) == Some(i));
}

/// A run of digits lies within the text and holds digits only.
pub proof fn lemma_digits_end(s: Seq<char>, from: int)
    requires
        0 <= from <= s.len(),
    ensures
        from <= digits_end(s, from) <= s.len(),
        forall|i: int| from <= i < digits_end(s, from) ==> digit(#[trigger] s[i]),
    decreases s.len() - from,
{
    if from < s.len() && digit(s[from]) {
        lemma_digits_end(s, from + 1);
    }
}

/// Whether `c` may stand in a bare literal.
pub open spec fn plain(c: char) -> bool {
    !whitespace(c) && !separator(c) && c != QUOTE && c != BACKSLASH
}

/// A letter, in either case, may stand in a bare literal.
proof fn lemma_letter_is_plain(c: char, l: char)
    requires
        letter(c, l),
        'a' <= l <= 'z',
    ensures
        plain(c),
{
}

/// A word spelled in letters holds plain characters only.
proof fn lemma_spelled_is_plain(s: Seq<char>, from: int, w: Seq<char>)
    requires
        0 <= from,
        spells(s, from, w),
        forall|j: int| 0 <= j < w.len() ==> 'a' <= #[trigger] w[j] <= 'z',
    ensures
        forall|i: int| from <= i < s.len() ==> plain(#[trigger] s[i]),
{
    assert forall|i: int| from <= i < s.len() implies plain(#[trigger] s[i]) by {
        let j = i - from;
        assert(letter(s[from + j], w[j]));
        lemma_letter_is_plain(s[i], w[j]);
    }
}

/// A floating-point literal is a bare literal.
pub proof fn lemma_float_literal_is_bare(s: Seq<char>)
    requires
        float_literal(s),
    ensures
        bare(s),
{
    let from = sign_len(s);
    if special_float(s, from) {
        if spells(s, from, seq!['i', 'n', 'f']) {
            lemma_spelled_is_plain(s, from, seq!['i', 'n', 'f']);
        } else if spells(s, from, seq!['i', 'n', 'f', 'i', 'n', 'i', 't', 'y']) {
            lemma_spelled_is_plain(s, from, seq!['i', 'n', 'f', 'i', 'n', 'i', 't', 'y']);
        } else {
            lemma_spelled_is_plain(s, from, seq!['n', 'a', 'n']);
        }
        assert forall|i: int| 0 <= i < s.len() implies plain(#[trigger] s[i]) by {}
    } else {
        assert(decimal_number(s, from));
        lemma_digits_end(s, from);
        let whole_end = digits_end(s, from);
        let point = whole_end < s.len() && s[whole_end] == '.';
        if point {
            lemma_digits_end(s, whole_end + 1);
        }
        let mantissa_end = if point {
            digits_end(s, whole_end + 1)
        } else {
            whole_end
        };
        if mantissa_end != s.len() {
            assert(exponent(s, mantissa_end));
            let digits = if mantissa_end + 1 < s.len() && (s[mantissa_end + 1] == '+'
                || s[mantissa_end + 1] == '-') {
                mantissa_end + 2
            } else {
                mantissa_end + 1
            };
            lemma_digits_end(s, digits);
        }
        assert forall|i: int| 0 <= i < s.len() implies plain(#[trigger] s[i]) by {
            if i < from {
            } else if i < whole_end {
                assert(digit(s[i]));
            } else if i < mantissa_end {
                if i > whole_end {
                    assert(digit(s[i]));
                }
            } else if i == mantissa_end {
            } else {
                let digits = if mantissa_end + 1 < s.len() && (s[mantissa_end + 1] == '+'
                    || s[mantissa_end + 1] == '-') {
                    mantissa_end + 2
                } else {
                    mantissa_end + 1
                };
                if i >= digits {
                    assert(digit(s[i]));
                }
            }
        }
    }
}

/// A document: a tree as it is written, with the members of each object in
/// their written order.
pub enum Document {
    String(Seq<char>),
    Number(NumberModel),
    Bool(bool),
    Null,
    Object(Seq<(Seq<char>, Document)>),
    Array(Seq<Document>),
}

/// The keys of the members, each with the tree of its member.
pub open spec fn member_trees(members: Seq<(Seq<char>, Document)>) -> Seq<(Seq<char>, JsonModel)>
    decreases members, 0int,
{
    Seq::new(
        members.len(),
        |i: int|
            if 0 <= i < members.len() {
                (members[i].0, members[i].1.tree())
            } else {
                (Seq::empty(), JsonModel::Null)
            },
    )
}

/// The trees of the elements.
pub open spec fn element_trees(elements: Seq<Document>) -> Seq<JsonModel>
    decreases elements, 0int,
{
    Seq::new(
        elements.len(),
        |i: int|
            if 0 <= i < elements.len() {
                elements[i].tree()
            } else {
                JsonModel::Null
            },
    )
}

/// The pieces that the members from `from` on are written with: each as its
/// key between quotes, a colon and its value, with a comma before every
/// member but the first.
pub open spec fn member_pieces(members: Seq<(Seq<char>, Document)>, from: int) -> Seq<Piece>
    decreases members, members.len() - from,
{
    if from < 0 || from >= members.len() {
        Seq::empty()
    } else {
        let lead = if from > 0 {
            seq![Piece::Comma]
        } else {
            Seq::empty()
        };
        lead + seq![Piece::Quoted(members[from].0), Piece::Mark(':')] + members[from].1.pieces()
            + member_pieces(members, from + 1)
    }
}

/// The pieces that the elements from `from` on are written with, with a
/// comma before every element but the first.
pub open spec fn element_pieces(elements: Seq<Document>, from: int) -> Seq<Piece>
    decreases elements, elements.len() - from,
{
    if from < 0 || from >= elements.len() {
        Seq::empty()
    } else {
        let lead = if from > 0 {
            seq![Piece::Comma]
        } else {
            Seq::empty()
        };
        lead + elements[from].pieces() + element_pieces(elements, from + 1)
    }
}

impl Document {
    /// The tree that the document presents.  Where a key is written twice,
    /// the later member counts.
    pub open spec fn tree(self) -> JsonModel
        decreases self, 0int,
    {
        match self {
            Document::String(s) => JsonModel::String(s),
            Document::Number(n) => JsonModel::Number(n),
            Document::Bool(b) => JsonModel::Bool(b),
            Document::Null => JsonModel::Null,
            Document::Object(members) => JsonModel::Object(entries_map(member_trees(members))),
            Document::Array(elements) => JsonModel::Array(element_trees(elements)),
        }
    }

    /// The pieces that the document is written with.
    pub open spec fn pieces(self) -> Seq<Piece>
        decreases self, 0int,
    {
        match self {
            Document::String(s) => seq![Piece::Quoted(s)],
            Document::Number(NumberModel::Int(i)) => seq![Piece::Atom(decimal(i as int))],
            Document::Number(NumberModel::Float(literal)) => seq![Piece::Atom(literal)],
            Document::Bool(true) => seq![Piece::Atom(seq!['t', 'r', 'u', 'e'])],
            Document::Bool(false) => seq![Piece::Atom(seq!['f', 'a', 'l', 's', 'e'])],
            Document::Null => seq![Piece::Atom(seq!['n', 'u', 'l', 'l'])],
            Document::Object(members) => seq![Piece::Mark('{')] + member_pieces(members, 0)
                + seq![Piece::Mark('}')],
            Document::Array(elements) => seq![Piece::Mark('[')] + element_pieces(elements, 0)
                + seq![Piece::Mark(']')],
        }
    }

    /// Whether the document can be written and read again: each string and
    /// each key can stand between quotes, and each floating-point literal
    /// is classified as itself.
    pub open spec fn well_formed(self) -> bool
        decreases self, 0int,
    {
        match self {
            Document::String(s) => quotable(s),
            Document::Number(NumberModel::Float(literal)) => classify(literal) == Ok::<
                JsonModel,
                crate::error::Failure,
            >(JsonModel::Number(NumberModel::Float(literal))),
            Document::Object(members) => forall|i: int|
                0 <= i < members.len() ==> quotable((#[trigger] members[i]).0)
                    && members[i].1.well_formed(),
            Document::Array(elements) => forall|i: int|
                0 <= i < elements.len() ==> (#[trigger] elements[i]).well_formed(),
            _ => true,
        }
    }

    /// The canonical text of the document.
    pub open spec fn text(self) -> Seq<char> {
        pieces_text(self.pieces(), 0)
    }

    /// The tokens that the document is made of.
    pub open spec fn tokens(self) -> Seq<Seq<char>> {
        pieces_tokens(self.pieces(), 0)
    }
}

} // verus!
