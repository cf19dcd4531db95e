//! Language definitions: a name, the file extensions that select it, and its
//! ordered pattern rules.

use vstd::prelude::*;

verus! {

/// A named set of highlighting rules.
///
/// A rule is a pair of a style label and a pattern. The position of a rule in
/// `rules` is its priority: where two rules match the same character, the one
/// further back in the list wins.
#[derive(Clone, Debug)]
pub struct Language {
    /// The name under which the definition is registered.
    pub name: String,
    /// File extensions, without a leading dot, that select this language.
    pub extensions: Vec<String>,
    /// The rules, lowest priority first.
    pub rules: Vec<(String, String)>,
}

/// What a [`Language`] holds, as mathematical values.
pub struct LanguageModel {
    pub name: Seq<char>,
    pub extensions: Seq<Seq<char>>,
    pub rules: Seq<(Seq<char>, Seq<char>)>,
}

impl LanguageModel {
    /// The style labels of the rules, in rule order.
    pub open spec fn labels(self) -> Seq<Seq<char>> {
        Seq::new(self.rules.len(), |i: int| self.rules[i].0)
    }

    /// The patterns of the rules, in rule order.
    pub open spec fn patterns(self) -> Seq<Seq<char>> {
        Seq::new(self.rules.len(), |i: int| self.rules[i].1)
    }

    /// Whether `extension` is one of the definition's extensions.
    pub open spec fn claims(self, extension: Seq<char>) -> bool {
        self.extensions.contains(extension)
    }
}

impl View for Language {
    type V = LanguageModel;

    open spec fn view(&self) -> LanguageModel {
        LanguageModel {
            name: self.name@,
            extensions: Seq::new(self.extensions.len() as nat, |i: int| self.extensions[i]@),
            rules: Seq::new(
                self.rules.len() as nat,
                |i: int| (self.rules[i].0@, self.rules[i].1@),
            ),
        }
    }
}

} // verus!
