use vstd::prelude::*;
use crate::lexer::TokenType;

verus! {

/// What went wrong while cutting the query text into tokens.
#[derive(Clone, Copy, Debug, PartialEq, Eq, Structural)]
pub enum LexError {
    /// A `"` with no closing `"` after it.
    UnterminatedString,
    /// A `.` after digits that no digit follows.
    MalformedNumber,
    /// A `$` that no letter follows.
    BadVariable,
    /// A character that starts no token.
    UnexpectedChar(char),
}

/// A token that the grammar did not allow where it stood.
#[derive(Clone, Debug)]
pub struct ParseError {
    /// The line of the token found.
    pub line: usize,
    /// The kind of token that was required, where a single one was.
    pub expected: Option<TokenType>,
    /// The kind of token found.
    pub found: TokenType,
}

/// Every failure of lexing, parsing or evaluating a query.
#[derive(Clone, Debug)]
pub enum Error {
    Lex { kind: LexError, line: usize },
    Parse(ParseError),
    /// `$name` where no enclosing scope binds `name`.
    UndefinedVariable(String),
    /// A second binding of a name in one scope.
    Redefinition(String),
    /// The operator (by its token kind) met operands it is not defined on.
    Type(TokenType),
    /// A list literal whose elements are not all of one type.
    MixedList,
    /// A numeric result outside the representable range.
    NumberRange,
    /// A query with no statement.
    EmptyQuery,
    /// A bare identifier where a value was needed.
    UnexpectedAtom,
    /// An operator call whose path names no registered operator.
    UnknownOperator,
    /// An operator was not given a required argument (its name).
    MissingArgument(String),
    /// An operator argument had a value the operator does not accept (its name).
    BadArgument(String),
    /// An operator that needs an element found its input empty.
    EmptyInput,
    /// Operator calls apply to lists only.
    NotAList,
}

} // verus!

verus! {

/// The mathematical content of an `Error`.
pub enum Failure {
    Lex(LexError),
    Parse,
    UndefinedVariable(Seq<char>),
    Redefinition(Seq<char>),
    Type(TokenType),
    MixedList,
    NumberRange,
    EmptyQuery,
    UnexpectedAtom,
    UnknownOperator,
    MissingArgument(Seq<char>),
    BadArgument(Seq<char>),
    EmptyInput,
    NotAList,
}

impl View for Error {
    type V = Failure;

    open spec fn view(&self) -> Failure {
        match self {
            Error::Lex { kind, line } => Failure::Lex(*kind),
            Error::Parse(_) => Failure::Parse,
            Error::UndefinedVariable(n) => Failure::UndefinedVariable(n@),
            Error::Redefinition(n) => Failure::Redefinition(n@),
            Error::Type(k) => Failure::Type(*k),
            Error::MixedList => Failure::MixedList,
            Error::NumberRange => Failure::NumberRange,
            Error::EmptyQuery => Failure::EmptyQuery,
            Error::UnexpectedAtom => Failure::UnexpectedAtom,
            Error::UnknownOperator => Failure::UnknownOperator,
            Error::MissingArgument(n) => Failure::MissingArgument(n@),
            Error::BadArgument(n) => Failure::BadArgument(n@),
            Error::EmptyInput => Failure::EmptyInput,
            Error::NotAList => Failure::NotAList,
        }
    }
}

/// The view of a result: values by their models, errors by their failures.
pub open spec fn result_view<T: View>(r: Result<T, Error>) -> Result<T::V, Failure> {
    match r {
        Ok(v) => Ok(v@),
        Err(e) => Err(e@),
    }
}

} // verus!
