//! The ways in which loading, resolving and highlighting fail.

use vstd::prelude::*;

verus! {

/// A rule whose pattern the regular-expression engine refused.
#[derive(Debug)]
pub struct PatternError {
    /// The index of the rule in its definition.
    pub rule: usize,
    /// The engine's description of the fault.
    pub message: String,
}

/// Why a highlight call gave no result.
#[derive(Debug)]
pub enum HighlightError {
    /// The identifier is neither the name of a language nor an extension that
    /// one claims. Holds the identifier.
    LanguageNotFound(String),
    /// A rule of the language has a pattern that the engine refused.
    Pattern(PatternError),
}

/// Why a definition source was refused.
#[derive(Debug)]
pub enum ConfigParseError {
    /// The text is no TOML document. Holds the reader's description.
    Syntax(String),
    /// The document is no table of entries.
    NotATable,
    /// The entry of this name is no language definition: it is no table, it
    /// lacks a list of texts named `extensions`, or one of its other fields
    /// is no text.
    Definition(String),
}

/// A definition source that could not be loaded.
#[derive(Debug)]
pub struct LoadError {
    /// The index of the source: 0 for the baseline, `i + 1` for override `i`.
    pub source: usize,
    /// Why the source was refused.
    pub cause: ConfigParseError,
}

impl HighlightError {
    /// What [`HighlightError::describe`] returns.
    pub open spec fn description(self) -> Seq<char> {
        match self {
            HighlightError::LanguageNotFound(name) => "Could not find language "@ + name@,
            HighlightError::Pattern(fault) => fault.message@,
        }
    }

    /// The error as a sentence for the user.
    pub fn describe(&self) -> (text: String)
        ensures
            text@ == self.description(),
    {
        match self {
            HighlightError::LanguageNotFound(name) => {
                let mut text = String::from_str("Could not find language ");
                text.append(name.as_str());
                text
            },
            HighlightError::Pattern(fault) => fault.message.clone(),
        }
    }
}

impl ConfigParseError {
    /// What [`ConfigParseError::describe`] returns.
    pub open spec fn description(self) -> Seq<char> {
        match self {
            ConfigParseError::Syntax(message) => message@,
            ConfigParseError::NotATable => "the document is not a table"@,
            ConfigParseError::Definition(name) => "the entry "@ + name@
                + " is not a language definition"@,
        }
    }

    /// The error as a sentence for the user.
    pub fn describe(&self) -> (text: String)
        ensures
            text@ == self.description(),
    {
        match self {
            ConfigParseError::Syntax(message) => message.clone(),
            ConfigParseError::NotATable => String::from_str("the document is not a table"),
            ConfigParseError::Definition(name) => {
                let mut text = String::from_str("the entry ");
                text.append(name.as_str());
                text.append(" is not a language definition");
                text
            },
        }
    }
}

} // verus!
