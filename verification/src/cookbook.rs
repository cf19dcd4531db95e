//! The cookbook: short recipes, each with a script that shows how it is done.

use vstd::prelude::*;
use crate::search::first_where;
use crate::search::lemma_first_where;
use crate::search::lemma_first_where_is;
use crate::text::same_text;

verus! {

/// A cookbook entry.
#[derive(Debug)]
pub struct Entry {
    /// Name of the entry.
    pub name: &'static str,
    /// Short description.
    pub description: &'static str,
    /// Elaborate description.
    pub tutorial: String,
}

/// What an [`Entry`] holds, as mathematical values.
pub struct EntryModel {
    pub name: Seq<char>,
    pub description: Seq<char>,
    pub tutorial: Seq<char>,
}

impl View for Entry {
    type V = EntryModel;

    open spec fn view(&self) -> EntryModel {
        EntryModel { name: self.name@, description: self.description@, tutorial: self.tutorial@ }
    }
}

/// The entries held by a vector.
pub open spec fn entries_view(entries: Seq<Entry>) -> Seq<EntryModel> {
    Seq::new(entries.len(), |i: int| entries[i]@)
}

/// A tutorial text: the introduction, then the script in a fenced `lua` block.
pub open spec fn tutorial_of(introduction: Seq<char>, script: Seq<char>) -> Seq<char> {
    introduction + "```lua"@ + script + "```"@
}

/// The entry on rendering markdown.
pub open spec fn markdown_entry(script: Seq<char>) -> EntryModel {
    EntryModel {
        name: "markdown"@,
        description: "Custom markdown rendering"@,
        tutorial: tutorial_of(
            "By default, markdown is rendered straight to HTML. The following script allows custom rendering of markdown\n"@,
            script,
        ),
    }
}

/// The entry on bibliographies.
pub open spec fn bibliography_entry(script: Seq<char>) -> EntryModel {
    EntryModel {
        name: "bibliography"@,
        description: "Add citations with a bibtex bibliography"@,
        tutorial: tutorial_of("TODO "@, script),
    }
}

/// All entries of the cookbook, for the given example scripts.
pub open spec fn all_entries(markdown_script: Seq<char>, bibliography_script: Seq<char>) -> Seq<
    EntryModel,
> {
    seq![markdown_entry(markdown_script), bibliography_entry(bibliography_script)]
}

/// Builds a tutorial text.
fn tutorial(introduction: &str, script: &str) -> (text: String)
    ensures
        text@ == tutorial_of(introduction@, script@),
{
    let mut text = String::from_str(introduction);
    text.append("```lua");
    text.append(script);
    text.append("```");
    text
}

/// All cookbook entries, with the given example scripts in their tutorials.
pub fn entries(markdown_script: &str, bibliography_script: &str) -> (all: Vec<Entry>)
    ensures
        entries_view(all@) == all_entries(markdown_script@, bibliography_script@),
{
    let mut all: Vec<Entry> = Vec::new();
    all.push(
        Entry {
            name: "markdown",
            description: "Custom markdown rendering",
            tutorial: tutorial(
                "By default, markdown is rendered straight to HTML. The following script allows custom rendering of markdown\n",
                markdown_script,
            ),
        },
    );
    all.push(
        Entry {
            name: "bibliography",
            description: "Add citations with a bibtex bibliography",
            tutorial: tutorial("TODO ", bibliography_script),
        },
    );
    proof {
        assert(entries_view(all@) =~= all_entries(markdown_script@, bibliography_script@));
    }
    all
}

/// The cookbook entry of the given name: the first entry so named, or `None`
/// where no entry has the name.
pub fn lookup(name: &str, markdown_script: &str, bibliography_script: &str) -> (found: Option<Entry>)
    ensures
        match first_where(
            all_entries(markdown_script@, bibliography_script@),
            |e: EntryModel| e.name == name@,
        ) {
            Some(i) => found matches Some(entry) && entry@ == all_entries(
                markdown_script@,
                bibliography_script@,
            )[i],
            None => found is None,
        },
{
    let all = entries(markdown_script, bibliography_script);
    let ghost models = entries_view(all@);
    let ghost wanted = |e: EntryModel| e.name == name@;
    for entry in it: all
        invariant
            it.seq() == all@,
            models == entries_view(all@),
            models == all_entries(markdown_script@, bibliography_script@),
            wanted == (|e: EntryModel| e.name == name@),
            forall|j: int| 0 <= j < it.index() ==> !wanted(#[trigger] models[j]),
    {
        if same_text(entry.name, name) {
            proof {
                let i = it.index() as int;
                assert(models[i] == entry@);
                lemma_first_where_is(models, wanted, i);
            }
            return Some(entry);
        }
    }
    proof {
        lemma_first_where(models, wanted);
    }
    None
}

} // verus!
