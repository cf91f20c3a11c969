//! Extraction of grammar productions from the LaTeX-style notation used in
//! formal-specification documents.
//!
//! Every parser here is a pure function of its input: it either returns the
//! parsed node together with the unconsumed remainder, or a located error.
//! The grammar itself is written down as spec functions over `Seq<char>` and
//! each executable parser is proved to agree with it.
use vstd::prelude::*;

pub mod parser;
pub mod document;
pub mod syntax;

verus! {

/// A located parse failure; the position counts characters from the start of
/// the text handed to the public entry point.
#[derive(Debug, PartialEq, Eq, Structural, Clone, Copy)]
pub enum ParseError {
    /// The text at this position does not have the expected shape.
    Mismatch(usize),
    /// An explicit `\K` or `\X` escape at this position carries no argument.
    /// Unlike a mismatch, no alternative is tried after this failure.
    MissingArgument(usize),
}

impl ParseError {
    pub open spec fn is_fatal(self) -> bool {
        self is MissingArgument
    }

    pub open spec fn position(self) -> usize {
        match self {
            ParseError::Mismatch(p) => p,
            ParseError::MissingArgument(p) => p,
        }
    }
}

/// The result of a public parser: the unconsumed remainder and the node.
pub type PResult<'a, T> = Result<(&'a str, T), ParseError>;

/// An executable parser at a position agrees with its grammar function.
pub open spec fn agrees<T, M>(
    r: Result<(usize, T), ParseError>,
    m: Result<(int, M), ParseError>,
    view: spec_fn(T) -> M,
) -> bool {
    match r {
        Ok((j, t)) => m == Ok::<(int, M), ParseError>((j as int, view(t))),
        Err(e) => m == Err::<(int, M), ParseError>(e),
    }
}

/// A public parser agrees with its grammar function applied at the start of
/// `text`: the remainder is what follows the consumed prefix.
pub open spec fn delivers<'a, T, M>(
    text: Seq<char>,
    r: PResult<'a, T>,
    m: Result<(int, M), ParseError>,
    view: spec_fn(T) -> M,
) -> bool {
    match r {
        Ok((rest, t)) => m is Ok && rest@ == text.skip(m->Ok_0.0) && m->Ok_0.1 == view(t),
        Err(e) => m == Err::<(int, M), ParseError>(e),
    }
}

} // verus!
