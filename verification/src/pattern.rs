//! The boundary to the regular-expression engine: a pattern and a text go in,
//! the byte ranges of the pattern's matches come out.

use vstd::prelude::*;

verus! {

/// One match of a pattern in a text: the byte offsets, in the UTF-8 form of
/// the text, of its first byte and of the byte after its last.
#[derive(Clone, Copy, Debug)]
pub struct MatchRange {
    pub start: usize,
    pub end: usize,
}

/// A pattern as the engine holds it once it has compiled it.
#[verifier::external_type_specification]
#[verifier::external_body]
pub struct ExCompiledPattern(regex::Regex);

/// The engine's error for a pattern that it does not compile.
#[verifier::external_type_specification]
#[verifier::external_body]
pub struct ExPatternFault(regex::Error);

/// Whether the engine compiles a pattern: whether `regex::Regex::new`, which
/// builds with the engine's default options and limits, returns a compiled
/// pattern for it.
pub uninterp spec fn pattern_compiles(pattern: Seq<char>) -> bool;

/// The pattern text that a compiled pattern was made from: what
/// `regex::Regex::as_str` returns.
///
/// Every compiled pattern in this library comes from [`compile`], and so was
/// built with the engine's default options. What is said of the matches of a
/// pattern text holds of such compiled patterns only: one built with other
/// options has the same text and may match otherwise.
pub uninterp spec fn pattern_source(compiled: regex::Regex) -> Seq<char>;

/// The matches that the engine finds for a pattern that it compiles, searching
/// a text from left to right: what `regex::Regex::find_iter` yields, as byte
/// ranges.
pub uninterp spec fn regex_matches(pattern: Seq<char>, text: Seq<char>) -> Seq<MatchRange>;

/// Whether `p` lies inside the range.
pub open spec fn covers(range: MatchRange, p: int) -> bool {
    range.start <= p < range.end
}

/// Matches in increasing position order that never overlap: no range ends
/// before it starts, and each lies behind all earlier ones.
pub open spec fn in_order(found: Seq<MatchRange>) -> bool {
    &&& forall|j: int| 0 <= j < found.len() ==> (#[trigger] found[j]).start <= found[j].end
    &&& forall|j: int, k: int|
        0 <= j < k < found.len() ==> (#[trigger] found[j]).end <= (#[trigger] found[k]).start
}

/// Whether the matches are in increasing position order and never overlap.
pub fn is_in_order(found: &Vec<MatchRange>) -> (r: bool)
    ensures
        r == in_order(found@),
{
    let mut i: usize = 0;
    while i < found.len()
        invariant
            i <= found.len(),
            in_order(found@.take(i as int)),
        decreases found.len() - i,
    {
        let now = found[i];
        if now.start > now.end {
            return false;
        }
        if i > 0 {
            let last = found[i - 1];
            if last.end > now.start {
                proof {
                    assert(found@[i - 1].end > found@[i as int].start);
                }
                return false;
            }
        }
        proof {
            let shorter = found@.take(i as int);
            let longer = found@.take(i + 1);
            assert forall|j: int, k: int| 0 <= j < k < longer.len() implies (#[trigger] longer[j]).end
                <= (#[trigger] longer[k]).start by {
                if k < i {
                    assert(shorter[j].end <= shorter[k].start);
                } else if j < i - 1 {
                    assert(shorter[j].end <= shorter[i - 1].start);
                    assert(shorter[i - 1].start <= shorter[i - 1].end);
                }
            }
            assert forall|j: int| 0 <= j < longer.len() implies (#[trigger] longer[j]).start
                <= longer[j].end by {
                if j < i {
                    assert(shorter[j].start <= shorter[j].end);
                }
            }
        }
        i += 1;
    }
    proof {
        assert(found@.take(found.len() as int) == found@);
    }
    true
}

/// Compiles `pattern` with `regex::Regex::new`.
///
/// Believed, not proved: whether the engine compiles a pattern depends on the
/// pattern alone, and a compiled pattern keeps the text it was made from.
#[verifier::external_body]
pub(crate) fn compile(pattern: &str) -> (r: Result<regex::Regex, regex::Error>)
    ensures
        r is Ok <==> pattern_compiles(pattern@),
        r matches Ok(compiled) ==> pattern_source(compiled) == pattern@,
{
    regex::Regex::new(pattern)
}

/// Collects the start and end of every match that `regex::Regex::find_iter`
/// yields over `text`.
///
/// Believed, not proved: the matches are a function of the pattern and the
/// text; a match never ends before it starts; and the iterator resumes each
/// search where the previous match ended, so that every match lies behind the
/// ones before it.
#[verifier::external_body]
pub(crate) fn find_matches(compiled: &regex::Regex, text: &str) -> (found: Vec<MatchRange>)
    ensures
        found@ == regex_matches(pattern_source(*compiled), text@),
        in_order(found@),
{
    compiled.find_iter(text).map(|m| MatchRange { start: m.start(), end: m.end() }).collect()
}

/// The engine's description of why it refused a pattern: the fault in its `Display` form.
pub(crate) fn describe_fault(fault: &regex::Error) -> (text: String)
    ensures
        vstd::string::to_string_from_display_ensures::<regex::Error>(fault, text),
{
    fault.to_string()
}

} // verus!
