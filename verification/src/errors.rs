//! The error taxonomy of schema compilation and parsing.

use vstd::prelude::*;

verus! {

/// The three required keys of a schema document.
#[derive(Clone, Copy, Debug, Eq, PartialEq, Structural)]
pub enum SchemaKey {
    /// The `timestamp` sequence.
    Timestamp,
    /// The `variables` mapping.
    Variables,
    /// The `delimiters` string.
    Delimiters,
}

/// Every failure the library reports, as a symbolic reason.
#[derive(Clone, Copy, Debug, Eq, PartialEq, Structural)]
pub enum Error {
    /// The schema document is not well-formed YAML.
    YamlParsingError,
    /// A required schema key is absent.
    MissingSchemaKey(SchemaKey),
    /// A schema key is present with the wrong shape.
    InvalidSchema,
    /// A byte above 127 in a pattern, the delimiter set, or the input stream.
    NoneASCIICharacters,
    /// A negated Perl class or bracket class in a pattern.
    NegationNotSupported,
    /// A non-greedy repetition in a pattern.
    NonGreedyRepetitionNotSupported,
    /// A group other than an indexed capture.
    UnsupportedGroupKindType,
    /// A bracket class whose inner form is not a supported class-set item.
    UnsupportedAstBracketedKind,
    /// A class-set item variant outside the supported set.
    UnsupportedClassSetType,
    /// A pattern node variant outside the supported set.
    UnsupportedAstNodeType,
    /// The underlying stream or file failed.
    IOError,
    /// An internal invariant of the log parser was violated.
    LogParserInternalErr,
}

} // verus!
