//! What can go wrong while decoding or while narrowing a value.

use vstd::prelude::*;
use vstd::string::StringExecFns;

verus! {

/// A failure of decoding or of a narrowing conversion.
#[derive(Debug)]
pub enum ParseError {
    /// The tokens do not form a well-formed structure; the text says why.
    InvalidData(String),
    /// A value was asked to be of a variant that it is not; the text names
    /// the variant that was expected.
    TypeUnmatchedError(String),
    /// A numeral that was classified as floating-point is no floating-point
    /// literal; the text is the numeral.
    ParseFloatError(String),
    /// A numeral that was classified as an integer denotes no 64-bit signed
    /// integer; the text is the numeral.
    ParseIntError(String),
}

/// The mathematical content of a [`ParseError`].
pub enum Failure {
    InvalidData(Seq<char>),
    TypeUnmatchedError(Seq<char>),
    ParseFloatError(Seq<char>),
    ParseIntError(Seq<char>),
}

impl Failure {
    /// The token stream ended inside an object or an array.
    pub open spec fn unexpected_end() -> Failure {
        Failure::InvalidData("unexpected end of input"@)
    }

    /// A value, an object or an array stands where an object needs a key.
    pub open spec fn expected_key() -> Failure {
        Failure::InvalidData("expected a key"@)
    }

    /// An object was closed by `]`, or an array by `}`.
    pub open spec fn unbalanced() -> Failure {
        Failure::InvalidData("unbalanced brackets"@)
    }

    /// What should be an object does not begin with `{`.
    pub open spec fn expected_object() -> Failure {
        Failure::InvalidData("expected `{`"@)
    }

    /// What should be an array does not begin with `[`.
    pub open spec fn expected_array() -> Failure {
        Failure::InvalidData("expected `[`"@)
    }

    /// A token opens a string literal and holds nothing else.
    pub open spec fn unterminated_string() -> Failure {
        Failure::InvalidData("unterminated string literal"@)
    }

    /// A narrowing conversion met another variant than `variant`.
    pub open spec fn expected(variant: Seq<char>) -> Failure {
        Failure::TypeUnmatchedError("Expected "@ + variant)
    }

    /// Whether the failure is a malformed structure.
    pub open spec fn is_malformed_structure(self) -> bool {
        self is InvalidData
    }
}

impl ParseError {
    /// The mathematical content of the failure.
    pub open spec fn view(&self) -> Failure {
        match self {
            ParseError::InvalidData(s) => Failure::InvalidData(s@),
            ParseError::TypeUnmatchedError(s) => Failure::TypeUnmatchedError(s@),
            ParseError::ParseFloatError(s) => Failure::ParseFloatError(s@),
            ParseError::ParseIntError(s) => Failure::ParseIntError(s@),
        }
    }

    /// The failure of a token stream that ends inside an object or an array.
    pub fn unexpected_end() -> (e: ParseError)
        ensures
            e@ == Failure::unexpected_end(),
    {
        ParseError::InvalidData(String::from_str("unexpected end of input"))
    }

    /// The failure of an object that holds a value where it needs a key.
    pub fn expected_key() -> (e: ParseError)
        ensures
            e@ == Failure::expected_key(),
    {
        ParseError::InvalidData(String::from_str("expected a key"))
    }

    /// The failure of an object closed by `]`, or an array closed by `}`.
    pub fn unbalanced() -> (e: ParseError)
        ensures
            e@ == Failure::unbalanced(),
    {
        ParseError::InvalidData(String::from_str("unbalanced brackets"))
    }

    /// The failure of what should be an object and does not begin with `{`.
    pub fn expected_object() -> (e: ParseError)
        ensures
            e@ == Failure::expected_object(),
    {
        ParseError::InvalidData(String::from_str("expected `{`"))
    }

    /// The failure of what should be an array and does not begin with `[`.
    pub fn expected_array() -> (e: ParseError)
        ensures
            e@ == Failure::expected_array(),
    {
        ParseError::InvalidData(String::from_str("expected `[`"))
    }

    /// The failure of a token that opens a string literal and holds nothing
    /// else.
    pub fn unterminated_string() -> (e: ParseError)
        ensures
            e@ == Failure::unterminated_string(),
    {
        ParseError::InvalidData(String::from_str("unterminated string literal"))
    }

    /// The failure of a narrowing conversion that expected `variant`.
    pub fn expected(variant: &str) -> (e: ParseError)
        ensures
            e@ == Failure::expected(variant@),
    {
        let mut message = String::from_str("Expected ");
        message.append(variant);
        ParseError::TypeUnmatchedError(message)
    }
}

} // verus!
