//! A grammar and style linting core: a morphological dictionary expansion
//! engine that turns a compact base dictionary plus affix rules into a full
//! inflected word list, and a lint orchestration pipeline that composes
//! independent detectors over one document and merges their findings into a
//! deterministically ordered diagnostic stream.

use vstd::prelude::*;

pub mod metadata;
pub mod replacement;
pub mod expansion;
pub mod lint;
pub mod document;
pub mod dictionary;
pub mod linters;
pub mod lint_set;
pub mod expand;
pub mod record;

pub use metadata::WordMetadata;
pub use expansion::{Expansion, HumanReadableExpansion};
pub use lint::{Lint, LintKind, Span};
pub use document::{Document, Token, TokenKind};
pub use dictionary::Dictionary;
pub use linters::Linter;
pub use lint_set::LintSet;
pub use expand::{BaseEntry, expand};
pub use record::{ClockError, LintGroupConfig, Record, RecordKind};

verus! {

/// Failures raised while building a dictionary from base entries and affix
/// rules, or while reading an affix rule back from its textual form.
#[derive(Clone, Copy, PartialEq, Eq, Structural, Debug)]
pub enum Error {
    /// A base entry referenced a flag that has no registered expansion.
    UnknownFlag(char),
    /// A replacement's condition pattern is invalid, or its strip reaches
    /// beyond the region the condition can match.
    MalformedReplacement,
}

} // verus!
