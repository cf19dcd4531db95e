//! From a configuration document to language definitions.
//!
//! A document is a table. Each of its entries is a language: the key is the
//! name, the value a table with a list of texts named `extensions` and, under
//! every other key, a text. Those other fields are the rules, key as style
//! label and value as pattern, in the order of the document.

use vstd::prelude::*;
use crate::config::ConfigValue;
use crate::error::ConfigParseError;
use crate::language::Language;
use crate::language::LanguageModel;
use crate::registry::models_of;
use crate::search::first_where;
use crate::search::lemma_first_where;
use crate::search::lemma_first_where_is;
use crate::text::same_text;
use crate::text::strings_view;

verus! {

/// The key under which a definition lists its file extensions.
pub open spec fn extensions_key() -> Seq<char> {
    "extensions"@
}

/// The texts of a list of texts; `None` for any other value.
pub open spec fn texts_of(value: ConfigValue) -> Option<Seq<Seq<char>>> {
    match value {
        ConfigValue::List(items) => {
            if forall|i: int| 0 <= i < items.len() ==> #[trigger] items[i] is Text {
                Some(Seq::new(items.len() as nat, |i: int| items[i]->Text_0@))
            } else {
                None
            }
        },
        _ => None,
    }
}

/// The extensions that the fields of a definition give: the texts of the
/// first field named `extensions`; `None` where there is no such field or it
/// is no list of texts.
pub open spec fn extensions_of(fields: Seq<(String, ConfigValue)>) -> Option<Seq<Seq<char>>> {
    match first_where(fields, |f: (String, ConfigValue)| f.0@ == extensions_key()) {
        Some(i) => texts_of(fields[i].1),
        None => None,
    }
}

/// The rules that the fields of a definition give: every field not named
/// `extensions`, in order; `None` where one of them is no text.
pub open spec fn rules_of(fields: Seq<(String, ConfigValue)>) -> Option<Seq<(Seq<char>, Seq<char>)>>
    decreases fields.len(),
{
    if fields.len() == 0 {
        Some(Seq::empty())
    } else {
        match rules_of(fields.drop_last()) {
            Some(rules) => {
                if fields.last().0@ == extensions_key() {
                    Some(rules)
                } else {
                    match fields.last().1 {
                        ConfigValue::Text(pattern) => Some(rules.push((fields.last().0@, pattern@))),
                        _ => None,
                    }
                }
            },
            None => None,
        }
    }
}

/// The definition that an entry of the document gives, or `None` where the
/// entry is no definition.
pub open spec fn definition_of(entry: (String, ConfigValue)) -> Option<LanguageModel> {
    match entry.1 {
        ConfigValue::Table(fields) => match (extensions_of(fields@), rules_of(fields@)) {
            (Some(extensions), Some(rules)) => Some(
                LanguageModel { name: entry.0@, extensions, rules },
            ),
            _ => None,
        },
        _ => None,
    }
}

/// The first entry that is no definition.
pub open spec fn first_faulty(entries: Seq<(String, ConfigValue)>) -> Option<int> {
    first_where(entries, |e: (String, ConfigValue)| definition_of(e) is None)
}

/// The definitions that the entries give, in order; `None` where one of the
/// entries is no definition.
pub open spec fn definitions_of(entries: Seq<(String, ConfigValue)>) -> Option<Seq<LanguageModel>> {
    if first_faulty(entries) is None {
        Some(Seq::new(entries.len(), |i: int| definition_of(entries[i]).unwrap()))
    } else {
        None
    }
}

/// The definitions that a document gives; `None` where the document is no
/// table or one of its entries is no definition.
pub open spec fn document_definitions(document: ConfigValue) -> Option<Seq<LanguageModel>> {
    match document {
        ConfigValue::Table(entries) => definitions_of(entries@),
        _ => None,
    }
}

/// Once a prefix of the fields gives no rules, neither does the whole.
proof fn lemma_rules_fail(fields: Seq<(String, ConfigValue)>, n: int)
    requires
        0 <= n <= fields.len(),
        rules_of(fields.take(n)) is None,
    ensures
        rules_of(fields) is None,
    decreases fields.len() - n,
{
    if n < fields.len() {
        assert(fields.take(n + 1).drop_last() == fields.take(n));
        lemma_rules_fail(fields, n + 1);
    } else {
        assert(fields.take(n) == fields);
    }
}

/// Reads a list of texts.
fn texts_from(value: &ConfigValue) -> (r: Option<Vec<String>>)
    ensures
        match r {
            Some(texts) => texts_of(*value) == Some(strings_view(texts@)),
            None => texts_of(*value) is None,
        },
{
    match value {
        ConfigValue::List(items) => {
            let mut texts: Vec<String> = Vec::new();
            let mut i: usize = 0;
            while i < items.len()
                invariant
                    i <= items.len(),
                    texts.len() == i,
                    *value == ConfigValue::List(*items),
                    forall|j: int|
                        0 <= j < i ==> (#[trigger] items[j]) is Text && texts[j]@
                            == items[j]->Text_0@,
                decreases items.len() - i,
            {
                match &items[i] {
                    ConfigValue::Text(text) => {
                        texts.push(text.clone());
                    },
                    _ => {
                        proof {
                            assert(!(items[i as int] is Text));
                        }
                        return None;
                    },
                }
                i += 1;
            }
            proof {
                assert(strings_view(texts@) =~= Seq::new(
                    items.len() as nat,
                    |i: int| items[i]->Text_0@,
                ));
            }
            Some(texts)
        },
        _ => None,
    }
}

/// Reads the extensions of a definition.
fn extensions_from(fields: &Vec<(String, ConfigValue)>) -> (r: Option<Vec<String>>)
    ensures
        match r {
            Some(extensions) => extensions_of(fields@) == Some(strings_view(extensions@)),
            None => extensions_of(fields@) is None,
        },
{
    let ghost wanted = |f: (String, ConfigValue)| f.0@ == extensions_key();
    let mut i: usize = 0;
    while i < fields.len()
        invariant
            i <= fields.len(),
            wanted == (|f: (String, ConfigValue)| f.0@ == extensions_key()),
            forall|j: int| 0 <= j < i ==> !wanted(#[trigger] fields[j]),
        decreases fields.len() - i,
    {
        if same_text(fields[i].0.as_str(), "extensions") {
            proof {
                assert(wanted(fields[i as int]));
                lemma_first_where_is(fields@, wanted, i as int);
            }
            return texts_from(&fields[i].1);
        }
        i += 1;
    }
    proof {
        lemma_first_where(fields@, wanted);
    }
    None
}

/// The rules held by a vector.
pub open spec fn rules_view(rules: Seq<(String, String)>) -> Seq<(Seq<char>, Seq<char>)> {
    Seq::new(rules.len(), |i: int| (rules[i].0@, rules[i].1@))
}

/// Reads the rules of a definition.
fn rules_from(fields: &Vec<(String, ConfigValue)>) -> (r: Option<Vec<(String, String)>>)
    ensures
        match r {
            Some(rules) => rules_of(fields@) == Some(rules_view(rules@)),
            None => rules_of(fields@) is None,
        },
{
    let mut rules: Vec<(String, String)> = Vec::new();
    let mut i: usize = 0;
    proof {
        assert(fields@.take(0) == Seq::<(String, ConfigValue)>::empty());
        assert(rules_view(rules@) == Seq::<(Seq<char>, Seq<char>)>::empty());
    }
    while i < fields.len()
        invariant
            i <= fields.len(),
            rules_of(fields@.take(i as int)) == Some(rules_view(rules@)),
        decreases fields.len() - i,
    {
        let ghost before = rules_view(rules@);
        proof {
            assert(fields@.take(i + 1).drop_last() == fields@.take(i as int));
            assert(fields@.take(i + 1).last() == fields[i as int]);
        }
        if !same_text(fields[i].0.as_str(), "extensions") {
            match &fields[i].1 {
                ConfigValue::Text(pattern) => {
                    rules.push((fields[i].0.clone(), pattern.clone()));
                    proof {
                        assert(rules_view(rules@) == before.push((fields[i as int].0@, pattern@)));
                    }
                },
                _ => {
                    proof {
                        lemma_rules_fail(fields@, i + 1);
                    }
                    return None;
                },
            }
        }
        i += 1;
    }
    proof {
        assert(fields@.take(fields.len() as int) == fields@);
    }
    Some(rules)
}

/// Reads one entry of the document as a definition.
fn definition_from(entry: &(String, ConfigValue)) -> (r: Option<Language>)
    ensures
        match r {
            Some(definition) => definition_of(*entry) == Some(definition@),
            None => definition_of(*entry) is None,
        },
{
    match &entry.1 {
        ConfigValue::Table(fields) => {
            let extensions = match extensions_from(fields) {
                Some(extensions) => extensions,
                None => {
                    return None;
                },
            };
            let rules = match rules_from(fields) {
                Some(rules) => rules,
                None => {
                    return None;
                },
            };
            let definition = Language { name: entry.0.clone(), extensions, rules };
            proof {
                assert(definition@.extensions == strings_view(extensions@));
                assert(definition@.rules == rules_view(rules@));
            }
            Some(definition)
        },
        _ => None,
    }
}

/// Reads a document as language definitions, in the order of the document.
///
/// Fails with `NotATable` where the document is no table, and with
/// `Definition` and the name of the first entry that is no definition where
/// there is one.
pub fn definitions_from(document: &ConfigValue) -> (r: Result<Vec<Language>, ConfigParseError>)
    ensures
        match r {
            Ok(definitions) => document_definitions(*document) == Some(models_of(definitions@)),
            Err(ConfigParseError::NotATable) => !(document is Table),
            Err(ConfigParseError::Definition(name)) => {
                &&& document matches ConfigValue::Table(entries)
                &&& first_faulty(entries@) matches Some(i)
                &&& 0 <= i < entries.len()
                &&& name@ == entries[i].0@
            },
            Err(ConfigParseError::Syntax(_)) => false,
        },
{
    match document {
        ConfigValue::Table(entries) => {
            let ghost faulty = |e: (String, ConfigValue)| definition_of(e) is None;
            let mut definitions: Vec<Language> = Vec::new();
            let mut i: usize = 0;
            while i < entries.len()
                invariant
                    i <= entries.len(),
                    definitions.len() == i,
                    *document == ConfigValue::Table(*entries),
                    faulty == (|e: (String, ConfigValue)| definition_of(e) is None),
                    forall|j: int|
                        0 <= j < i ==> definition_of(#[trigger] entries[j]) == Some(
                            definitions[j]@,
                        ),
                decreases entries.len() - i,
            {
                match definition_from(&entries[i]) {
                    Some(definition) => {
                        definitions.push(definition);
                    },
                    None => {
                        proof {
                            assert(faulty(entries[i as int]));
                            assert forall|j: int| 0 <= j < i implies !faulty(
                                #[trigger] entries@[j],
                            ) by {
                                assert(definition_of(entries[j]) is Some);
                            }
                            lemma_first_where_is(entries@, faulty, i as int);
                        }
                        return Err(ConfigParseError::Definition(entries[i].0.clone()));
                    },
                }
                i += 1;
            }
            proof {
                assert forall|j: int| 0 <= j < entries.len() implies !faulty(
                    #[trigger] entries@[j],
                ) by {
                    assert(definition_of(entries[j]) is Some);
                }
                lemma_first_where(entries@, faulty);
                assert(models_of(definitions@) =~= Seq::new(
                    entries@.len(),
                    |i: int| definition_of(entries@[i]).unwrap(),
                ));
            }
            Ok(definitions)
        },
        _ => Err(ConfigParseError::NotATable),
    }
}

} // verus!
