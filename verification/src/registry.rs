//! The language registry: definitions by name, merged from a baseline and
//! overrides, and found by name or by file extension.

use vstd::prelude::*;
use crate::config::ConfigValue;
use crate::config::parse_document;
use crate::config::toml_document;
use crate::definitions::definitions_from;
use crate::definitions::document_definitions;
use crate::definitions::first_faulty;
use crate::engine::HighlightRange;
use crate::engine::all_compile;
use crate::engine::first_refused_rule;
use crate::engine::joined_text;
use crate::engine::matches_of;
use crate::engine::spans_of;
use crate::engine::spans_view;
use crate::engine::tokenize;
use crate::engine::well_cut;
use crate::engine::winners_of;
use crate::error::ConfigParseError;
use crate::error::HighlightError;
use crate::error::LoadError;
use crate::error::PatternError;
use crate::language::Language;
use crate::language::LanguageModel;
use crate::render::markup;
use crate::render::prefix_of;
use crate::render::render;
use crate::search::first_where;
use crate::search::lemma_first_where;
use crate::search::lemma_first_where_is;
use crate::search::place_of;
use crate::text::same_text;
use crate::text::strings_view;

verus! {

/// The definitions held by a vector.
pub open spec fn models_of(definitions: Seq<Language>) -> Seq<LanguageModel> {
    Seq::new(definitions.len(), |i: int| definitions[i]@)
}

/// The index of the definition of the given name.
pub open spec fn named(definitions: Seq<LanguageModel>, name: Seq<char>) -> Option<int> {
    first_where(definitions, |d: LanguageModel| d.name == name)
}

/// The index of the first definition that claims the given extension.
pub open spec fn claiming(definitions: Seq<LanguageModel>, extension: Seq<char>) -> Option<int> {
    first_where(definitions, |d: LanguageModel| d.claims(extension))
}

/// The index of the definition that an identifier selects: the one of that
/// name, or else the first that claims it as an extension.
pub open spec fn resolution(definitions: Seq<LanguageModel>, identifier: Seq<char>) -> Option<int> {
    match named(definitions, identifier) {
        Some(i) => Some(i),
        None => claiming(definitions, identifier),
    }
}

/// No two definitions have the same name.
pub open spec fn distinct_names(definitions: Seq<LanguageModel>) -> bool {
    forall|i: int, j: int|
        0 <= i < j < definitions.len() ==> (#[trigger] definitions[i]).name
            != (#[trigger] definitions[j]).name
}

/// The registry after one more definition is merged in: it takes the place
/// of the definition of its name, or the last place if there is none.
pub open spec fn merged(definitions: Seq<LanguageModel>, definition: LanguageModel) -> Seq<
    LanguageModel,
> {
    match named(definitions, definition.name) {
        Some(i) => definitions.update(i, definition),
        None => definitions.push(definition),
    }
}

/// The registry after the definitions of `more` are merged in, in order.
pub open spec fn merged_all(definitions: Seq<LanguageModel>, more: Seq<LanguageModel>) -> Seq<
    LanguageModel,
>
    decreases more.len(),
{
    if more.len() == 0 {
        definitions
    } else {
        merged(merged_all(definitions, more.drop_last()), more.last())
    }
}

/// Merging keeps the names distinct.
pub proof fn lemma_merged_distinct(definitions: Seq<LanguageModel>, definition: LanguageModel)
    requires
        distinct_names(definitions),
    ensures
        distinct_names(merged(definitions, definition)),
{
    lemma_first_where(definitions, |d: LanguageModel| d.name == definition.name);
}

/// Merge precedence: after a definition is merged in, its name selects that
/// definition as a whole, whatever the registry held under the name before.
pub proof fn lemma_merged_selects(definitions: Seq<LanguageModel>, definition: LanguageModel)
    ensures
        named(merged(definitions, definition), definition.name) matches Some(i) && merged(
            definitions,
            definition,
        )[i] == definition,
{
    let wanted = |d: LanguageModel| d.name == definition.name;
    let after = merged(definitions, definition);
    lemma_first_where(definitions, wanted);
    match named(definitions, definition.name) {
        Some(i) => {
            assert(after[i] == definition);
            assert(wanted(after[i]));
            assert forall|j: int| 0 <= j < i implies !wanted(#[trigger] after[j]) by {
                assert(after[j] == definitions[j]);
            }
            lemma_first_where_is(after, wanted, i);
        },
        None => {
            let i = definitions.len() as int;
            assert(after[i] == definition);
            assert(wanted(after[i]));
            assert forall|j: int| 0 <= j < i implies !wanted(#[trigger] after[j]) by {
                assert(after[j] == definitions[j]);
            }
            lemma_first_where_is(after, wanted, i);
        },
    }
}

/// Merging a definition in leaves the definitions of all other names as they
/// were, each at its place.
pub proof fn lemma_merged_keeps_others(
    definitions: Seq<LanguageModel>,
    definition: LanguageModel,
    name: Seq<char>,
)
    requires
        name != definition.name,
    ensures
        named(merged(definitions, definition), name) == named(definitions, name),
        named(definitions, name) matches Some(i) ==> merged(definitions, definition)[i]
            == definitions[i],
{
    let wanted = |d: LanguageModel| d.name == name;
    let after = merged(definitions, definition);
    lemma_first_where(definitions, |d: LanguageModel| d.name == definition.name);
    lemma_first_where(definitions, wanted);
    lemma_first_where(after, wanted);
    assert forall|j: int| 0 <= j < definitions.len() implies wanted(#[trigger] after[j]) == wanted(
        definitions[j],
    ) by {}
    match named(definitions, name) {
        Some(i) => {
            assert(wanted(after[i]));
            assert forall|j: int| 0 <= j < i implies !wanted(#[trigger] after[j]) by {
                assert(!wanted(definitions[j]));
            }
            lemma_first_where_is(after, wanted, i);
        },
        None => {
            match named(after, name) {
                Some(i) => {
                    if i < definitions.len() {
                        assert(!wanted(definitions[i]));
                    }
                    assert(false);
                },
                None => {},
            }
        },
    }
}

/// Merge precedence over a whole source: of the definitions merged in, the
/// last one of a name is the one that the name selects afterwards.
pub proof fn lemma_last_merged_wins(
    definitions: Seq<LanguageModel>,
    more: Seq<LanguageModel>,
    j: int,
)
    requires
        0 <= j < more.len(),
        forall|k: int| j < k < more.len() ==> (#[trigger] more[k]).name != more[j].name,
    ensures
        named(merged_all(definitions, more), more[j].name) matches Some(i) && merged_all(
            definitions,
            more,
        )[i] == more[j],
    decreases more.len(),
{
    let rest = more.drop_last();
    let before = merged_all(definitions, rest);
    if j == more.len() - 1 {
        lemma_merged_selects(before, more.last());
    } else {
        assert(rest[j] == more[j]);
        assert forall|k: int| j < k < rest.len() implies (#[trigger] rest[k]).name != rest[j].name by {
            assert(rest[k] == more[k]);
        }
        lemma_last_merged_wins(definitions, rest, j);
        assert(more.last() == more[more.len() - 1]);
        lemma_merged_keeps_others(before, more.last(), more[j].name);
    }
}

/// Whether one of the definitions has the given name.
pub open spec fn names(definitions: Seq<LanguageModel>, name: Seq<char>) -> bool {
    exists|k: int| 0 <= k < definitions.len() && (#[trigger] definitions[k]).name == name
}

/// After a definition is merged in, the registry knows the names it knew
/// before and the name of that definition, and no others.
pub proof fn lemma_merged_names(
    definitions: Seq<LanguageModel>,
    definition: LanguageModel,
    name: Seq<char>,
)
    ensures
        named(merged(definitions, definition), name) is Some <==> (named(definitions, name) is Some
            || definition.name == name),
{
    if name == definition.name {
        lemma_merged_selects(definitions, definition);
    } else {
        lemma_merged_keeps_others(definitions, definition, name);
    }
}

/// Every definition of a registry after a merge is the definition merged in
/// or one that the registry held before: a merge never mixes the fields of
/// two definitions.
pub proof fn lemma_merged_origin(definitions: Seq<LanguageModel>, definition: LanguageModel, i: int)
    requires
        0 <= i < merged(definitions, definition).len(),
    ensures
        merged(definitions, definition)[i] == definition || definitions.contains(
            merged(definitions, definition)[i],
        ),
{
    lemma_first_where(definitions, |d: LanguageModel| d.name == definition.name);
    let after = merged(definitions, definition);
    if after[i] != definition {
        assert(after[i] == definitions[i]);
    }
}

/// Merging a source in leaves the definitions of all names that the source
/// does not define as they were, each at its place.
pub proof fn lemma_merged_all_keeps_others(
    definitions: Seq<LanguageModel>,
    more: Seq<LanguageModel>,
    name: Seq<char>,
)
    requires
        !names(more, name),
    ensures
        named(merged_all(definitions, more), name) == named(definitions, name),
        named(definitions, name) matches Some(i) ==> merged_all(definitions, more)[i]
            == definitions[i],
    decreases more.len(),
{
    if more.len() > 0 {
        let rest = more.drop_last();
        if names(rest, name) {
            let k = choose|k: int| 0 <= k < rest.len() && (#[trigger] rest[k]).name == name;
            assert(more[k].name == name);
        }
        lemma_merged_all_keeps_others(definitions, rest, name);
        assert(more[more.len() - 1].name != name);
        lemma_merged_keeps_others(merged_all(definitions, rest), more.last(), name);
    }
}

/// After a source is merged in, the registry knows the names it knew before
/// and the names that the source defines, and no others.
pub proof fn lemma_merged_all_names(
    definitions: Seq<LanguageModel>,
    more: Seq<LanguageModel>,
    name: Seq<char>,
)
    ensures
        named(merged_all(definitions, more), name) is Some <==> (named(definitions, name) is Some
            || names(more, name)),
    decreases more.len(),
{
    if more.len() > 0 {
        let rest = more.drop_last();
        lemma_merged_all_names(definitions, rest, name);
        lemma_merged_names(merged_all(definitions, rest), more.last(), name);
        if names(rest, name) {
            let k = choose|k: int| 0 <= k < rest.len() && (#[trigger] rest[k]).name == name;
            assert(more[k].name == name);
        }
        if names(more, name) {
            let k = choose|k: int| 0 <= k < more.len() && (#[trigger] more[k]).name == name;
            if k < rest.len() {
                assert(rest[k].name == name);
            }
        }
        if more.last().name == name {
            assert(more[more.len() - 1].name == name);
        }
    }
}

/// Every definition of a registry after a source is merged in is one of the
/// source or one that the registry held before.
pub proof fn lemma_merged_all_origin(
    definitions: Seq<LanguageModel>,
    more: Seq<LanguageModel>,
    i: int,
)
    requires
        0 <= i < merged_all(definitions, more).len(),
    ensures
        more.contains(merged_all(definitions, more)[i]) || definitions.contains(
            merged_all(definitions, more)[i],
        ),
    decreases more.len(),
{
    if more.len() > 0 {
        let rest = more.drop_last();
        let before = merged_all(definitions, rest);
        lemma_merged_origin(before, more.last(), i);
        let found = merged_all(definitions, more)[i];
        if found == more.last() {
            assert(more[more.len() - 1] == found);
        } else {
            let j = choose|j: int| 0 <= j < before.len() && before[j] == found;
            lemma_merged_all_origin(definitions, rest, j);
            if rest.contains(found) {
                let k = choose|k: int| 0 <= k < rest.len() && rest[k] == found;
                assert(more[k] == found);
            }
        }
    } else {
        assert(definitions[i] == merged_all(definitions, more)[i]);
    }
}

/// The definitions that a source text gives; `None` where the text is no TOML
/// document or the document is no set of definitions.
pub open spec fn source_definitions(text: Seq<char>) -> Option<Seq<LanguageModel>> {
    match toml_document(text) {
        Some(document) => document_definitions(document),
        None => None,
    }
}

/// Whether `cause` says why the source text gives no definitions.
pub open spec fn refusal(text: Seq<char>, cause: ConfigParseError) -> bool {
    match cause {
        ConfigParseError::Syntax(_) => toml_document(text) is None,
        ConfigParseError::NotATable => {
            &&& toml_document(text) matches Some(document)
            &&& !(document is Table)
        },
        ConfigParseError::Definition(name) => {
            &&& toml_document(text) matches Some(ConfigValue::Table(entries))
            &&& first_faulty(entries@) matches Some(i)
            &&& 0 <= i < entries.len()
            &&& name@ == entries[i].0@
        },
    }
}

/// The baseline followed by the overrides.
pub open spec fn sources_of(baseline: Seq<char>, overrides: Seq<Seq<char>>) -> Seq<Seq<char>> {
    seq![baseline] + overrides
}

/// The registry that the sources give when the definitions of each are merged
/// in, source by source; `None` where one of the sources gives no definitions.
pub open spec fn loaded(sources: Seq<Seq<char>>) -> Option<Seq<LanguageModel>>
    decreases sources.len(),
{
    if sources.len() == 0 {
        Some(Seq::empty())
    } else {
        match (loaded(sources.drop_last()), source_definitions(sources.last())) {
            (Some(registry), Some(definitions)) => Some(merged_all(registry, definitions)),
            _ => None,
        }
    }
}

/// Merge precedence over a load: of the definitions of the last source, the
/// last one of a name is the one that the name selects in the loaded
/// registry, whatever the earlier sources held under that name.
pub proof fn lemma_override_wins(sources: Seq<Seq<char>>, j: int)
    requires
        sources.len() > 0,
        loaded(sources) is Some,
        source_definitions(sources.last()) matches Some(definitions) && 0 <= j < definitions.len()
            && forall|k: int|
            j < k < definitions.len() ==> (#[trigger] definitions[k]).name != definitions[j].name,
    ensures
        ({
            let registry = loaded(sources).unwrap();
            let definition = source_definitions(sources.last()).unwrap()[j];
            named(registry, definition.name) matches Some(i) && registry[i] == definition
        }),
{
    let before = loaded(sources.drop_last()).unwrap();
    let definitions = source_definitions(sources.last()).unwrap();
    lemma_last_merged_wins(before, definitions, j);
}

/// Whether a source defines a language of the given name.
pub open spec fn defines(text: Seq<char>, name: Seq<char>) -> bool {
    source_definitions(text) matches Some(definitions) && names(definitions, name)
}

/// Merge precedence over a load, for the names that the later sources leave
/// alone: a name that no source from index `n` on defines selects, in the
/// loaded registry, what it selects in the registry loaded from the first `n`
/// sources alone. With `n == 1`, every language of the baseline that no
/// override defines keeps its baseline definition.
pub proof fn lemma_load_keeps_others(sources: Seq<Seq<char>>, n: int, name: Seq<char>)
    requires
        0 <= n <= sources.len(),
        loaded(sources) is Some,
        forall|s: int| n <= s < sources.len() ==> !defines(#[trigger] sources[s], name),
    ensures
        loaded(sources.take(n)) is Some,
        named(loaded(sources).unwrap(), name) == named(loaded(sources.take(n)).unwrap(), name),
        named(loaded(sources).unwrap(), name) matches Some(i) ==> loaded(sources).unwrap()[i]
            == loaded(sources.take(n)).unwrap()[i],
    decreases sources.len() - n,
{
    if n == sources.len() {
        assert(sources.take(n) == sources);
    } else {
        let shorter = sources.drop_last();
        assert forall|s: int| n <= s < shorter.len() implies !defines(#[trigger] shorter[s], name) by {
            assert(shorter[s] == sources[s]);
        }
        lemma_load_keeps_others(shorter, n, name);
        assert(shorter.take(n) == sources.take(n));
        assert(!defines(sources[sources.len() - 1], name));
        lemma_merged_all_keeps_others(
            loaded(shorter).unwrap(),
            source_definitions(sources.last()).unwrap(),
            name,
        );
    }
}

/// The names of a loaded registry are the names that its sources define, and
/// no others.
pub proof fn lemma_load_names(sources: Seq<Seq<char>>, name: Seq<char>)
    requires
        loaded(sources) is Some,
    ensures
        named(loaded(sources).unwrap(), name) is Some <==> exists|s: int|
            0 <= s < sources.len() && defines(#[trigger] sources[s], name),
    decreases sources.len(),
{
    if sources.len() == 0 {
        lemma_first_where(Seq::<LanguageModel>::empty(), |d: LanguageModel| d.name == name);
    } else {
        let shorter = sources.drop_last();
        let last = sources.len() - 1;
        lemma_load_names(shorter, name);
        lemma_merged_all_names(
            loaded(shorter).unwrap(),
            source_definitions(sources.last()).unwrap(),
            name,
        );
        if exists|s: int| 0 <= s < shorter.len() && defines(#[trigger] shorter[s], name) {
            let s = choose|s: int| 0 <= s < shorter.len() && defines(#[trigger] shorter[s], name);
            assert(defines(sources[s], name));
        }
        if names(source_definitions(sources.last()).unwrap(), name) {
            assert(defines(sources[last], name));
        }
        if exists|s: int| 0 <= s < sources.len() && defines(#[trigger] sources[s], name) {
            let s = choose|s: int| 0 <= s < sources.len() && defines(#[trigger] sources[s], name);
            if s < last {
                assert(defines(shorter[s], name));
            }
        }
    }
}

/// Whether the definition is, as a whole, one of those that a source gives.
pub open spec fn gives(text: Seq<char>, definition: LanguageModel) -> bool {
    source_definitions(text) matches Some(definitions) && definitions.contains(definition)
}

/// Whole-definition replacement: every definition of a loaded registry is, as
/// a whole, a definition of one of the sources.
pub proof fn lemma_load_origin(sources: Seq<Seq<char>>, i: int)
    requires
        loaded(sources) is Some,
        0 <= i < loaded(sources).unwrap().len(),
    ensures
        exists|s: int|
            0 <= s < sources.len() && gives(#[trigger] sources[s], loaded(sources).unwrap()[i]),
    decreases sources.len(),
{
    if sources.len() > 0 {
        let shorter = sources.drop_last();
        let last = sources.len() - 1;
        let before = loaded(shorter).unwrap();
        let more = source_definitions(sources.last()).unwrap();
        let found = loaded(sources).unwrap()[i];
        lemma_merged_all_origin(before, more, i);
        if more.contains(found) {
            assert(gives(sources[last], found));
        } else {
            let j = choose|j: int| 0 <= j < before.len() && before[j] == found;
            lemma_load_origin(shorter, j);
            let s = choose|s: int| 0 <= s < shorter.len() && gives(#[trigger] shorter[s], before[j]);
            assert(shorter[s] == sources[s]);
            assert(gives(sources[s], found));
        }
    }
}

/// The first source that gives no definitions.
pub open spec fn first_refused(sources: Seq<Seq<char>>) -> Option<int> {
    first_where(sources, |text: Seq<char>| source_definitions(text) is None)
}

/// Once a prefix of the sources fails to load, so does the whole.
proof fn lemma_loaded_fails(sources: Seq<Seq<char>>, n: int)
    requires
        0 <= n <= sources.len(),
        loaded(sources.take(n)) is None,
    ensures
        loaded(sources) is None,
    decreases sources.len() - n,
{
    if n < sources.len() {
        assert(sources.take(n + 1).drop_last() == sources.take(n));
        lemma_loaded_fails(sources, n + 1);
    } else {
        assert(sources.take(n) == sources);
    }
}

/// Reads one definition source.
fn read_source(text: &str) -> (r: Result<Vec<Language>, ConfigParseError>)
    ensures
        match r {
            Ok(definitions) => source_definitions(text@) == Some(models_of(definitions@)),
            Err(cause) => source_definitions(text@) is None && refusal(text@, cause),
        },
{
    match parse_document(text) {
        Ok(document) => definitions_from(&document),
        Err(message) => Err(ConfigParseError::Syntax(message)),
    }
}

/// A registry of language definitions, at most one of each name.
///
/// The definitions stand in the order in which their names were first merged
/// in. Where several definitions claim the same extension, the one that stands
/// first is the one that the extension selects.
#[derive(Debug)]
pub struct Languages {
    definitions: Vec<Language>,
}

impl View for Languages {
    type V = Seq<LanguageModel>;

    closed spec fn view(&self) -> Seq<LanguageModel> {
        models_of(self.definitions@)
    }
}

/// Finds the definition of the given name.
fn position_named(definitions: &Vec<Language>, name: &str) -> (position: Option<usize>)
    ensures
        place_of(position) == named(models_of(definitions@), name@),
        position matches Some(i) ==> i < definitions.len(),
{
    let ghost all = models_of(definitions@);
    let ghost wanted = |d: LanguageModel| d.name == name@;
    let mut i: usize = 0;
    while i < definitions.len()
        invariant
            i <= definitions.len(),
            all == models_of(definitions@),
            wanted == (|d: LanguageModel| d.name == name@),
            forall|j: int| 0 <= j < i ==> !wanted(#[trigger] all[j]),
        decreases definitions.len() - i,
    {
        if same_text(definitions[i].name.as_str(), name) {
            proof {
                assert(wanted(all[i as int]));
                lemma_first_where_is(all, wanted, i as int);
            }
            return Some(i);
        }
        i += 1;
    }
    proof {
        lemma_first_where(all, wanted);
    }
    None
}

/// Whether `extension` is one of the definition's extensions.
fn claims(definition: &Language, extension: &str) -> (r: bool)
    ensures
        r == definition@.claims(extension@),
{
    let mut i: usize = 0;
    while i < definition.extensions.len()
        invariant
            i <= definition.extensions.len(),
            forall|j: int| 0 <= j < i ==> definition@.extensions[j] != extension@,
        decreases definition.extensions.len() - i,
    {
        if same_text(definition.extensions[i].as_str(), extension) {
            proof {
                assert(definition@.extensions[i as int] == extension@);
            }
            return true;
        }
        i += 1;
    }
    false
}

/// Finds the first definition that claims the given extension.
fn position_claiming(definitions: &Vec<Language>, extension: &str) -> (position: Option<usize>)
    ensures
        place_of(position) == claiming(models_of(definitions@), extension@),
        position matches Some(i) ==> i < definitions.len(),
{
    let ghost all = models_of(definitions@);
    let ghost wanted = |d: LanguageModel| d.claims(extension@);
    let mut i: usize = 0;
    while i < definitions.len()
        invariant
            i <= definitions.len(),
            all == models_of(definitions@),
            wanted == (|d: LanguageModel| d.claims(extension@)),
            forall|j: int| 0 <= j < i ==> !wanted(#[trigger] all[j]),
        decreases definitions.len() - i,
    {
        if claims(&definitions[i], extension) {
            proof {
                assert(wanted(all[i as int]));
                lemma_first_where_is(all, wanted, i as int);
            }
            return Some(i);
        }
        i += 1;
    }
    proof {
        lemma_first_where(all, wanted);
    }
    None
}

impl Languages {
    #[verifier::type_invariant]
    spec fn well_formed(&self) -> bool {
        distinct_names(models_of(self.definitions@))
    }

    /// A registry without definitions.
    pub fn new() -> (languages: Languages)
        ensures
            languages@ == Seq::<LanguageModel>::empty(),
    {
        Languages { definitions: Vec::new() }
    }

    /// The number of definitions.
    pub fn len(&self) -> (n: usize)
        ensures
            n == self@.len(),
    {
        self.definitions.len()
    }

    /// The definition at position `i`, if there is one.
    pub fn get(&self, i: usize) -> (definition: Option<&Language>)
        ensures
            match definition {
                Some(d) => i < self@.len() && d@ == self@[i as int],
                None => i >= self@.len(),
            },
    {
        if i < self.definitions.len() {
            Some(&self.definitions[i])
        } else {
            None
        }
    }

    /// The registry with one more definition merged in: it replaces the
    /// definition of its name as a whole, or is added behind the others if its
    /// name is new.
    pub fn with(self, definition: Language) -> (languages: Languages)
        ensures
            languages@ == merged(self@, definition@),
            distinct_names(languages@),
    {
        proof {
            use_type_invariant(&self);
            lemma_merged_distinct(self@, definition@);
        }
        let ghost before = self@;
        let mut definitions = self.definitions;
        match position_named(&definitions, definition.name.as_str()) {
            Some(i) => {
                definitions.set(i, definition);
                proof {
                    assert(models_of(definitions@) =~= before.update(i as int, definition@));
                }
            },
            None => {
                definitions.push(definition);
                proof {
                    assert(models_of(definitions@) =~= before.push(definition@));
                }
            },
        }
        Languages { definitions }
    }

    /// Merges one definition in, as [`Languages::with`] does.
    pub fn insert(&mut self, definition: Language)
        ensures
            final(self)@ == merged(old(self)@, definition@),
            distinct_names(final(self)@),
    {
        let mut taken = Languages::new();
        std::mem::swap(self, &mut taken);
        *self = taken.with(definition);
    }

    /// The registry with the given definitions merged in, in order.
    pub fn extended(self, definitions: Vec<Language>) -> (languages: Languages)
        ensures
            languages@ == merged_all(self@, models_of(definitions@)),
    {
        let ghost start = self@;
        let ghost more = models_of(definitions@);
        let mut languages = self;
        proof {
            assert(more.take(0) == Seq::<LanguageModel>::empty());
        }
        for definition in it: definitions
            invariant
                it.seq() == definitions@,
                more == models_of(definitions@),
                languages@ == merged_all(start, more.take(it.index() as int)),
        {
            proof {
                let k = it.index() as int;
                assert(more.take(k + 1).drop_last() == more.take(k));
                assert(more.take(k + 1).last() == definition@);
            }
            languages = languages.with(definition);
        }
        proof {
            assert(more.take(more.len() as int) == more);
        }
        languages
    }

    /// Reads a registry from one definition source.
    ///
    /// The source is a TOML document in which every top-level key is the name
    /// of a language. Its value is a table with a list of texts named
    /// `extensions`; every other field of that table is a rule, the key as
    /// style label and the value, a text, as pattern. The rules keep the order
    /// of the document.
    pub fn from_str(string: &str) -> (r: Result<Languages, ConfigParseError>)
        ensures
            match r {
                Ok(languages) => {
                    &&& source_definitions(string@) matches Some(definitions)
                    &&& languages@ == merged_all(Seq::empty(), definitions)
                },
                Err(cause) => source_definitions(string@) is None && refusal(string@, cause),
            },
    {
        match read_source(string) {
            Ok(definitions) => Ok(Languages::new().extended(definitions)),
            Err(cause) => Err(cause),
        }
    }

    /// Builds the registry from the baseline source and the override sources,
    /// merged in that order: a definition replaces, as a whole, an earlier one
    /// of the same name.
    ///
    /// If any source is refused the load fails with the index of the first
    /// such source, and no registry is returned.
    pub fn load(baseline: &str, overrides: &Vec<String>) -> (r: Result<Languages, LoadError>)
        ensures
            match r {
                Ok(languages) => loaded(sources_of(baseline@, strings_view(overrides@))) == Some(
                    languages@,
                ),
                Err(error) => {
                    let sources = sources_of(baseline@, strings_view(overrides@));
                    &&& loaded(sources) is None
                    &&& first_refused(sources) == Some(error.source as int)
                    &&& error.source < sources.len()
                    &&& refusal(sources[error.source as int], error.cause)
                },
            },
    {
        let ghost sources = sources_of(baseline@, strings_view(overrides@));
        let ghost refused = |text: Seq<char>| source_definitions(text) is None;
        proof {
            assert(sources.take(1).drop_last() == Seq::<Seq<char>>::empty());
            assert(sources.take(1).last() == baseline@);
            assert(loaded(Seq::<Seq<char>>::empty()) == Some(Seq::<LanguageModel>::empty()));
        }
        let mut languages = match read_source(baseline) {
            Ok(definitions) => Languages::new().extended(definitions),
            Err(cause) => {
                proof {
                    lemma_first_where_is(sources, refused, 0);
                    lemma_loaded_fails(sources, 1);
                }
                return Err(LoadError { source: 0, cause });
            },
        };
        let mut i: usize = 0;
        while i < overrides.len()
            invariant
                i <= overrides.len(),
                sources == sources_of(baseline@, strings_view(overrides@)),
                refused == (|text: Seq<char>| source_definitions(text) is None),
                loaded(sources.take(i + 1)) == Some(languages@),
                forall|j: int| 0 <= j < i + 1 ==> !refused(#[trigger] sources[j]),
            decreases overrides.len() - i,
        {
            proof {
                assert(sources.take(i + 2).drop_last() == sources.take(i + 1));
                assert(sources.take(i + 2).last() == overrides[i as int]@);
                assert(sources[i + 1] == overrides[i as int]@);
            }
            match read_source(overrides[i].as_str()) {
                Ok(definitions) => {
                    languages = languages.extended(definitions);
                },
                Err(cause) => {
                    proof {
                        lemma_first_where_is(sources, refused, i + 1);
                        lemma_loaded_fails(sources, i + 2);
                    }
                    return Err(LoadError { source: i + 1, cause });
                },
            }
            i += 1;
        }
        proof {
            assert(sources.take(overrides.len() + 1) == sources);
        }
        Ok(languages)
    }

    /// Finds the definition that `identifier` selects: the one of that name,
    /// or else the first one, in registry order, that claims it as an
    /// extension.
    pub fn resolve(&self, identifier: &str) -> (r: Result<&Language, HighlightError>)
        ensures
            match r {
                Ok(definition) => {
                    &&& resolution(self@, identifier@) matches Some(i)
                    &&& 0 <= i < self@.len()
                    &&& definition@ == self@[i]
                },
                Err(error) => {
                    &&& resolution(self@, identifier@) is None
                    &&& error matches HighlightError::LanguageNotFound(name)
                    &&& name@ == identifier@
                },
            },
            distinct_names(self@),
    {
        proof {
            use_type_invariant(self);
            lemma_first_where(self@, |d: LanguageModel| d.name == identifier@);
            lemma_first_where(self@, |d: LanguageModel| d.claims(identifier@));
        }
        match position_named(&self.definitions, identifier) {
            Some(i) => Ok(&self.definitions[i]),
            None => match position_claiming(&self.definitions, identifier) {
                Some(i) => Ok(&self.definitions[i]),
                None => Err(HighlightError::LanguageNotFound(identifier.to_owned())),
            },
        }
    }

    /// Cuts `code` into its classified runs under the rules of the language
    /// that `language` selects.
    ///
    /// Fails with `LanguageNotFound` exactly where `language` selects no
    /// definition, and with `Pattern` where the engine refuses a pattern of
    /// the selected definition.
    pub fn highlight(&self, code: &str, language: &str) -> (r: Result<
        Vec<HighlightRange>,
        HighlightError,
    >)
        ensures
            match resolution(self@, language@) {
                None => r matches Err(HighlightError::LanguageNotFound(name)) && name@ == language@,
                Some(i) => match r {
                    Ok(ranges) => {
                        &&& spans_view(ranges@) == spans_of(
                            code@,
                            matches_of(self@[i].patterns(), code@),
                            self@[i].labels(),
                        )
                        &&& joined_text(spans_view(ranges@)) == code@
                        &&& well_cut(
                            code@,
                            winners_of(code@, matches_of(self@[i].patterns(), code@)),
                            self@[i].labels(),
                            spans_view(ranges@),
                        )
                    },
                    Err(HighlightError::Pattern(fault)) => first_refused_rule(
                        self@[i].patterns(),
                        fault.rule as int,
                    ),
                    Err(HighlightError::LanguageNotFound(_)) => false,
                },
            },
            resolution(self@, language@) matches Some(i) ==> (r is Ok <==> all_compile(
                self@[i].patterns(),
            )),
    {
        let definition = match self.resolve(language) {
            Ok(definition) => definition,
            Err(error) => {
                return Err(error);
            },
        };
        match tokenize(code, definition) {
            Ok(ranges) => Ok(ranges),
            Err(fault) => Err(HighlightError::Pattern(fault)),
        }
    }

    /// Highlights `code` as [`Languages::highlight`] does and renders the
    /// ranges as markup, with `class_prefix` before every class.
    pub fn highlight_html(&self, code: &str, language: &str, class_prefix: Option<String>) -> (r:
        Result<String, HighlightError>)
        ensures
            match resolution(self@, language@) {
                None => r matches Err(HighlightError::LanguageNotFound(name)) && name@ == language@,
                Some(i) => match r {
                    Ok(html) => html@ == markup(
                        spans_of(code@, matches_of(self@[i].patterns(), code@), self@[i].labels()),
                        prefix_of(class_prefix),
                    ),
                    Err(HighlightError::Pattern(fault)) => first_refused_rule(
                        self@[i].patterns(),
                        fault.rule as int,
                    ),
                    Err(HighlightError::LanguageNotFound(_)) => false,
                },
            },
            resolution(self@, language@) matches Some(i) ==> (r is Ok <==> all_compile(
                self@[i].patterns(),
            )),
    {
        match self.highlight(code, language) {
            Ok(ranges) => Ok(render(&ranges, &class_prefix)),
            Err(error) => Err(error),
        }
    }

    /// Highlights `code` for a caller that goes on without highlighting where
    /// the language is not known: `Ok(None)` exactly where `language` selects
    /// no definition, the markup where it selects one, and an error only
    /// where the engine refuses a pattern of the selected definition.
    pub fn highlight_fragment(
        &self,
        code: &str,
        language: &str,
        class_prefix: Option<String>,
    ) -> (r: Result<Option<String>, PatternError>)
        ensures
            match resolution(self@, language@) {
                None => r matches Ok(None),
                Some(i) => match r {
                    Ok(Some(html)) => html@ == markup(
                        spans_of(code@, matches_of(self@[i].patterns(), code@), self@[i].labels()),
                        prefix_of(class_prefix),
                    ),
                    Ok(None) => false,
                    Err(fault) => first_refused_rule(self@[i].patterns(), fault.rule as int),
                },
            },
            resolution(self@, language@) matches Some(i) ==> (r is Ok <==> all_compile(
                self@[i].patterns(),
            )),
    {
        match self.highlight_html(code, language, class_prefix) {
            Ok(html) => Ok(Some(html)),
            Err(HighlightError::LanguageNotFound(_)) => Ok(None),
            Err(HighlightError::Pattern(fault)) => Err(fault),
        }
    }
}

} // verus!
