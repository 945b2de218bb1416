//! The abstract syntax of the restricted regex dialect.
//!
//! A pattern is a closed sum of the variants below. Variants that the NFA
//! builder rejects (negated classes, non-greedy repetitions, exotic group
//! kinds) are still representable, so that rejection is the builder's
//! deterministic decision and carries a symbolic error.

use vstd::prelude::*;

verus! {

/// How many times a repetition operator repeats its operand.
#[derive(Clone, Debug)]
pub enum RepetitionKind {
    /// `?`
    ZeroOrOne,
    /// `*`
    ZeroOrMore,
    /// `+`
    OneOrMore,
    /// `{n}`
    Exactly(u32),
    /// `{n,}`
    AtLeast(u32),
    /// `{n,m}`
    Bounded(u32, u32),
}

/// The kind of a group `(...)`.
#[derive(Clone, Debug)]
pub enum GroupKind {
    /// A plain indexed capture group; the only kind the builder accepts.
    CaptureIndex(u32),
    /// A named capture group.
    CaptureName(u32),
    /// A non-capturing group, possibly with flags.
    NonCapturing,
}

/// A Perl-style character class.
#[derive(Clone, Copy, Debug)]
pub enum PerlKind {
    /// `\d`: the decimal digits.
    Digit,
    /// `\s`: whitespace.
    Space,
    /// `\w`: word characters.
    Word,
}

/// One item inside a bracketed class `[...]`.
#[derive(Debug)]
pub enum ClassSetItem {
    /// An empty item.
    Empty,
    /// A single literal character.
    Literal(char),
    /// A character range `a-z`.
    Range(char, char),
    /// A POSIX class such as `[:alpha:]`; rejected by the builder.
    Ascii,
    /// A Unicode class; rejected by the builder.
    Unicode,
    /// A Perl class such as `\d`; `negated` ones are rejected.
    Perl { negated: bool, kind: PerlKind },
    /// A nested bracketed class.
    Bracketed(Box<ClassBracketed>),
    /// A juxtaposition of items.
    Union(Vec<ClassSetItem>),
}

/// The contents of a bracketed class.
#[derive(Debug)]
pub enum ClassSet {
    /// A single item (possibly a union of items).
    Item(ClassSetItem),
    /// A set operation such as intersection; rejected by the builder.
    BinaryOp,
}

/// A bracketed class `[...]`.
#[derive(Debug)]
pub struct ClassBracketed {
    pub negated: bool,
    pub kind: ClassSet,
}

/// A node of the regex abstract syntax tree.
#[derive(Debug)]
pub enum RegexAst {
    /// Matches the empty string.
    Empty,
    /// An inline flag setting; rejected by the builder.
    Flags,
    /// A single literal character.
    Literal(char),
    /// `.`: any character.
    Dot,
    /// An anchor such as `^`; rejected by the builder.
    Assertion,
    /// A Unicode class; rejected by the builder.
    ClassUnicode,
    /// A Perl class; `negated` ones are rejected.
    ClassPerl { negated: bool, kind: PerlKind },
    /// A bracketed class.
    ClassBracketed(Box<ClassBracketed>),
    /// A repetition of an operand.
    Repetition { greedy: bool, kind: RepetitionKind, ast: Box<RegexAst> },
    /// A group around an operand.
    Group { kind: GroupKind, ast: Box<RegexAst> },
    /// An ordered choice among alternatives.
    Alternation(Vec<RegexAst>),
    /// A sequence of operands.
    Concat(Vec<RegexAst>),
}

/// The `(min, max)` bounds a repetition kind stands for, `None` meaning
/// unbounded.
pub open spec fn spec_repetition_range(kind: RepetitionKind) -> (u32, Option<u32>) {
    match kind {
        RepetitionKind::ZeroOrOne => (0, Some(1)),
        RepetitionKind::ZeroOrMore => (0, None),
        RepetitionKind::OneOrMore => (1, None),
        RepetitionKind::Exactly(n) => (n, Some(n)),
        RepetitionKind::AtLeast(n) => (n, None),
        RepetitionKind::Bounded(a, b) => (a, Some(b)),
    }
}

} // verus!
