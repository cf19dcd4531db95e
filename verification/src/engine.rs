//! The highlight engine: from a text and the matches of each rule to the
//! ordered runs of equally classified characters.

use vstd::prelude::*;
use vstd::utf8::encode_scalar;
use vstd::utf8::encode_utf8;
use crate::error::PatternError;
use crate::language::Language;
use crate::pattern::MatchRange;
use crate::pattern::compile;
use crate::pattern::covers;
use crate::pattern::describe_fault;
use crate::pattern::find_matches;
use crate::pattern::in_order;
use crate::pattern::pattern_compiles;
use crate::pattern::pattern_source;
use crate::pattern::regex_matches;

verus! {

/// A run of characters of the text together with its style label. The empty
/// label marks a run that no rule classified.
pub struct Span {
    pub text: Seq<char>,
    pub style: Seq<char>,
}

/// A classified run of the highlighted text.
#[derive(Clone, Debug)]
pub struct HighlightRange {
    /// The characters of the run.
    pub text: String,
    /// The style label of the rule that classified the run, or the empty
    /// string.
    pub style: String,
}

impl View for HighlightRange {
    type V = Span;

    open spec fn view(&self) -> Span {
        Span { text: self.text@, style: self.style@ }
    }
}

/// The runs held by a vector of ranges.
pub open spec fn spans_view(ranges: Seq<HighlightRange>) -> Seq<Span> {
    Seq::new(ranges.len(), |j: int| ranges[j]@)
}

/// The match lists held by a vector of vectors.
pub open spec fn ranges_view(matches: Seq<Vec<MatchRange>>) -> Seq<Seq<MatchRange>> {
    Seq::new(matches.len(), |i: int| matches[i]@)
}

/// The number of bytes that the UTF-8 form of `c` takes.
pub open spec fn utf8_width(c: char) -> int {
    encode_scalar(c as u32).len() as int
}

/// The byte offset, in the UTF-8 form of `text`, of the character at index `k`.
pub open spec fn byte_offset(text: Seq<char>, k: int) -> int {
    encode_utf8(text.take(k)).len() as int
}

/// Whether one of a rule's matches covers the byte offset `p`.
pub open spec fn rule_covers(found: Seq<MatchRange>, p: int) -> bool {
    exists|j: int| 0 <= j < found.len() && covers(#[trigger] found[j], p)
}

/// The rule that classifies the byte offset `p`: of the rules with a match that
/// covers `p`, the one with the highest index; `None` where there is no such
/// rule.
pub open spec fn winner(matches: Seq<Seq<MatchRange>>, p: int) -> Option<int>
    decreases matches.len(),
{
    if matches.len() == 0 {
        None
    } else if rule_covers(matches.last(), p) {
        Some(matches.len() - 1)
    } else {
        winner(matches.drop_last(), p)
    }
}

/// The winning rule of every character of `text`.
pub open spec fn winners_of(text: Seq<char>, matches: Seq<Seq<MatchRange>>) -> Seq<Option<int>> {
    Seq::new(text.len(), |k: int| winner(matches, byte_offset(text, k)))
}

/// The style label for a winner: the label of the rule, or the empty label
/// where no rule won.
pub open spec fn label_of(labels: Seq<Seq<char>>, w: Option<int>) -> Seq<char> {
    match w {
        Some(i) => if 0 <= i < labels.len() {
            labels[i]
        } else {
            Seq::empty()
        },
        None => Seq::empty(),
    }
}

/// Whether a new run starts at character index `k`: at the first character,
/// and wherever the winner differs from that of the character before.
pub open spec fn starts_run(winners: Seq<Option<int>>, k: int) -> bool {
    0 <= k < winners.len() && (k == 0 || winners[k] != winners[k - 1])
}

/// The character indices at which runs start, in increasing order.
pub open spec fn cuts(winners: Seq<Option<int>>) -> Seq<int>
    decreases winners.len(),
{
    if winners.len() == 0 {
        Seq::empty()
    } else {
        let before = cuts(winners.drop_last());
        if starts_run(winners, winners.len() - 1) {
            before.push(winners.len() - 1)
        } else {
            before
        }
    }
}

/// The boundaries of the runs: where each starts, and where the last one ends.
pub open spec fn boundaries(winners: Seq<Option<int>>) -> Seq<int> {
    cuts(winners).push(winners.len() as int)
}

/// The maximal runs of equal winners: `text` cut wherever the winner changes,
/// each piece labelled by its winner.
pub open spec fn runs(text: Seq<char>, winners: Seq<Option<int>>, labels: Seq<Seq<char>>) -> Seq<Span> {
    let bounds = boundaries(winners);
    Seq::new(
        cuts(winners).len(),
        |j: int|
            Span {
                text: text.subrange(bounds[j], bounds[j + 1]),
                style: label_of(labels, winners[bounds[j]]),
            },
    )
}

/// The spans of `text` under the given matches and labels.
pub open spec fn spans_of(
    text: Seq<char>,
    matches: Seq<Seq<MatchRange>>,
    labels: Seq<Seq<char>>,
) -> Seq<Span> {
    runs(text, winners_of(text, matches), labels)
}

/// The texts of the spans, joined in order.
pub open spec fn joined_text(spans: Seq<Span>) -> Seq<char>
    decreases spans.len(),
{
    if spans.len() == 0 {
        Seq::empty()
    } else {
        joined_text(spans.drop_last()) + spans.last().text
    }
}

/// Whether character index `k` lies between boundary `j` and the next one.
pub open spec fn in_span(bounds: Seq<int>, j: int, k: int) -> bool {
    0 <= j < bounds.len() - 1 && bounds[j] <= k < bounds[j + 1]
}

/// What it is for `spans` to be the classified runs of `text`. There are
/// boundaries, from 0 to the length of the text and strictly increasing, such
/// that span `j` holds the characters from boundary `j` up to boundary
/// `j + 1`: the spans lie end to end, without gap or overlap, and none is
/// empty. Every character of a span has the winner whose label is the span's
/// style, and the winner changes from each span to the next.
pub open spec fn well_cut(
    text: Seq<char>,
    winners: Seq<Option<int>>,
    labels: Seq<Seq<char>>,
    spans: Seq<Span>,
) -> bool {
    let bounds = boundaries(winners);
    &&& bounds.len() == spans.len() + 1
    &&& bounds[0] == 0
    &&& bounds.last() == text.len()
    &&& forall|i: int, j: int|
        0 <= i < j < bounds.len() ==> #[trigger] bounds[i] < #[trigger] bounds[j]
    &&& forall|j: int|
        0 <= j < spans.len() ==> (#[trigger] spans[j]).text == text.subrange(
            bounds[j],
            bounds[j + 1],
        )
    &&& forall|j: int, k: int| #[trigger]
        in_span(bounds, j, k) ==> spans[j].style == label_of(labels, winners[k])
    &&& forall|j: int| 0 < j < spans.len() ==> winners[bounds[j] - 1] != winners[#[trigger] bounds[j]]
}

/// Every cut starts a run, the cuts increase strictly, every start of a run is
/// a cut, and a text that is not empty has its first cut at index 0.
pub proof fn lemma_cuts(winners: Seq<Option<int>>)
    ensures
        forall|i: int| 0 <= i < cuts(winners).len() ==> starts_run(winners, #[trigger] cuts(winners)[i]),
        forall|i: int, j: int|
            0 <= i < j < cuts(winners).len() ==> #[trigger] cuts(winners)[i] < #[trigger] cuts(
                winners,
            )[j],
        forall|k: int| #[trigger] starts_run(winners, k) ==> cuts(winners).contains(k),
        winners.len() > 0 ==> cuts(winners).len() > 0 && cuts(winners)[0] == 0,
        cuts(winners).len() <= winners.len(),
    decreases winners.len(),
{
    if winners.len() > 0 {
        let n = winners.len() - 1;
        let shorter = winners.drop_last();
        let before = cuts(shorter);
        lemma_cuts(shorter);
        assert forall|i: int| 0 <= i < before.len() implies starts_run(winners, #[trigger] before[i]) by {
            assert(starts_run(shorter, before[i]));
        }
        assert forall|k: int| #[trigger] starts_run(winners, k) implies cuts(winners).contains(k) by {
            if k < n {
                assert(starts_run(shorter, k));
                let i = choose|i: int| 0 <= i < before.len() && before[i] == k;
                assert(cuts(winners)[i] == k);
            } else {
                assert(cuts(winners)[before.len() as int] == k);
            }
        }
        if n > 0 {
            assert(shorter.len() > 0);
        }
    }
}

/// The boundaries run from 0 to the length of the text and increase strictly.
pub proof fn lemma_boundaries(winners: Seq<Option<int>>)
    ensures
        boundaries(winners).len() == cuts(winners).len() + 1,
        boundaries(winners)[0] == 0,
        boundaries(winners).last() == winners.len(),
        forall|i: int, j: int|
            0 <= i < j < boundaries(winners).len() ==> #[trigger] boundaries(winners)[i]
                < #[trigger] boundaries(winners)[j],
{
    lemma_cuts(winners);
    let cs = cuts(winners);
    let bounds = boundaries(winners);
    assert forall|i: int, j: int| 0 <= i < j < bounds.len() implies #[trigger] bounds[i]
        < #[trigger] bounds[j] by {
        assert(starts_run(winners, cs[i]));
        if j < cs.len() {
            assert(cs[i] < cs[j]);
        }
    }
}

/// Inside a run the winner does not change.
pub proof fn lemma_run_uniform(winners: Seq<Option<int>>, j: int, k: int)
    requires
        0 <= j < cuts(winners).len(),
        boundaries(winners)[j] <= k < boundaries(winners)[j + 1],
    ensures
        0 <= k < winners.len(),
        winners[k] == winners[boundaries(winners)[j]],
    decreases k,
{
    lemma_cuts(winners);
    lemma_boundaries(winners);
    let cs = cuts(winners);
    let bounds = boundaries(winners);
    assert(bounds[j] == cs[j]);
    assert(starts_run(winners, cs[j]));
    assert(bounds[j + 1] <= bounds.last()) by {
        if j + 1 < bounds.len() - 1 {
            assert(bounds[j + 1] < bounds[bounds.len() - 1]);
        }
    }
    if k > bounds[j] {
        if starts_run(winners, k) {
            let i = choose|i: int| 0 <= i < cs.len() && cs[i] == k;
            if i <= j {
                if i < j {
                    assert(cs[i] < cs[j]);
                }
            } else {
                if j + 1 < i {
                    assert(cs[j + 1] < cs[i]);
                }
                assert(bounds[j + 1] == cs[j + 1]);
            }
            assert(false);
        }
        lemma_run_uniform(winners, j, k - 1);
    }
}

/// Between two runs the winner changes.
pub proof fn lemma_run_maximal(winners: Seq<Option<int>>, j: int)
    requires
        0 < j < cuts(winners).len(),
    ensures
        0 < boundaries(winners)[j] < winners.len(),
        winners[boundaries(winners)[j] - 1] != winners[boundaries(winners)[j]],
{
    lemma_cuts(winners);
    let cs = cuts(winners);
    assert(starts_run(winners, cs[j]));
    assert(cs[0] < cs[j]);
}

/// Joining the first `m` runs gives the text up to the boundary behind them.
proof fn lemma_rejoin_prefix(
    text: Seq<char>,
    winners: Seq<Option<int>>,
    labels: Seq<Seq<char>>,
    m: int,
)
    requires
        winners.len() == text.len(),
        0 <= m <= cuts(winners).len(),
    ensures
        joined_text(runs(text, winners, labels).take(m)) == text.take(boundaries(winners)[m]),
    decreases m,
{
    lemma_boundaries(winners);
    let spans = runs(text, winners, labels);
    let bounds = boundaries(winners);
    if m > 0 {
        lemma_rejoin_prefix(text, winners, labels, m - 1);
        assert(spans.take(m).drop_last() == spans.take(m - 1));
        assert(spans.take(m).last() == spans[m - 1]);
        assert(bounds[m - 1] < bounds[m]);
        assert(bounds[m] <= bounds.last()) by {
            if m < bounds.len() - 1 {
                assert(bounds[m] < bounds[bounds.len() - 1]);
            }
        }
        assert(0 <= bounds[m - 1]) by {
            if 0 < m - 1 {
                assert(bounds[0] < bounds[m - 1]);
            }
        }
        assert(text.take(bounds[m - 1]) + text.subrange(bounds[m - 1], bounds[m]) == text.take(
            bounds[m],
        ));
    } else {
        assert(text.take(0) == Seq::<char>::empty());
    }
}

/// Joining the runs of a text gives the text back.
pub proof fn lemma_runs_rejoin(text: Seq<char>, winners: Seq<Option<int>>, labels: Seq<Seq<char>>)
    requires
        winners.len() == text.len(),
    ensures
        joined_text(runs(text, winners, labels)) == text,
{
    let spans = runs(text, winners, labels);
    lemma_boundaries(winners);
    lemma_rejoin_prefix(text, winners, labels, spans.len() as int);
    assert(spans.take(spans.len() as int) == spans);
    assert(text.take(text.len() as int) == text);
}

/// The runs of a text are its classified runs in the sense of [`well_cut`].
pub proof fn lemma_runs_well_cut(text: Seq<char>, winners: Seq<Option<int>>, labels: Seq<Seq<char>>)
    requires
        winners.len() == text.len(),
    ensures
        well_cut(text, winners, labels, runs(text, winners, labels)),
{
    let spans = runs(text, winners, labels);
    let bounds = boundaries(winners);
    lemma_boundaries(winners);
    assert forall|j: int, k: int| #[trigger] in_span(bounds, j, k) implies spans[j].style
        == label_of(labels, winners[k]) by {
        lemma_run_uniform(winners, j, k);
    }
    assert forall|j: int| 0 < j < spans.len() implies winners[bounds[j] - 1] != winners[#[trigger] bounds[j]] by {
        lemma_run_maximal(winners, j);
    }
}

/// Priority: a character that several rules cover has the style of the one
/// with the highest index among them.
pub proof fn lemma_priority(
    text: Seq<char>,
    matches: Seq<Seq<MatchRange>>,
    labels: Seq<Seq<char>>,
    j: int,
    k: int,
    high: int,
)
    requires
        in_span(boundaries(winners_of(text, matches)), j, k),
        0 <= high < matches.len(),
        rule_covers(matches[high], byte_offset(text, k)),
        forall|i: int|
            high < i < matches.len() ==> !rule_covers(#[trigger] matches[i], byte_offset(text, k)),
    ensures
        0 <= j < spans_of(text, matches, labels).len(),
        0 <= k < text.len(),
        spans_of(text, matches, labels)[j].style == label_of(labels, Some(high)),
{
    let winners = winners_of(text, matches);
    lemma_runs_well_cut(text, winners, labels);
    lemma_run_uniform(winners, j, k);
    lemma_winner_is_highest(matches, byte_offset(text, k));
}

/// Unclassified fallback: a character that no rule covers lies in a span
/// with the empty label.
pub proof fn lemma_unclassified(
    text: Seq<char>,
    matches: Seq<Seq<MatchRange>>,
    labels: Seq<Seq<char>>,
    j: int,
    k: int,
)
    requires
        in_span(boundaries(winners_of(text, matches)), j, k),
        forall|i: int|
            0 <= i < matches.len() ==> !rule_covers(#[trigger] matches[i], byte_offset(text, k)),
    ensures
        0 <= j < spans_of(text, matches, labels).len(),
        0 <= k < text.len(),
        spans_of(text, matches, labels)[j].style == Seq::<char>::empty(),
{
    let winners = winners_of(text, matches);
    lemma_runs_well_cut(text, winners, labels);
    lemma_run_uniform(winners, j, k);
    lemma_winner_is_highest(matches, byte_offset(text, k));
}

/// The winner of a byte offset is a rule that covers it, no rule of higher
/// index covers it, and where nothing wins no rule covers it.
pub proof fn lemma_winner_is_highest(matches: Seq<Seq<MatchRange>>, p: int)
    ensures
        match winner(matches, p) {
            Some(w) => {
                &&& 0 <= w < matches.len()
                &&& rule_covers(matches[w], p)
                &&& forall|i: int| w < i < matches.len() ==> !rule_covers(#[trigger] matches[i], p)
            },
            None => forall|i: int| 0 <= i < matches.len() ==> !rule_covers(#[trigger] matches[i], p),
        },
    decreases matches.len(),
{
    if matches.len() > 0 && !rule_covers(matches.last(), p) {
        let rest = matches.drop_last();
        lemma_winner_is_highest(rest, p);
        match winner(rest, p) {
            Some(w) => {
                assert(rest[w] == matches[w]);
                assert forall|i: int| w < i < matches.len() implies !rule_covers(
                    #[trigger] matches[i],
                    p,
                ) by {
                    if i < rest.len() {
                        assert(!rule_covers(rest[i], p));
                    }
                }
            },
            None => {
                assert forall|i: int| 0 <= i < matches.len() implies !rule_covers(
                    #[trigger] matches[i],
                    p,
                ) by {
                    if i < rest.len() {
                        assert(!rule_covers(rest[i], p));
                    }
                }
            },
        }
    }
}

/// Encoding a text piece by piece gives the encoding of the whole.
proof fn lemma_encode_concat(a: Seq<char>, b: Seq<char>)
    ensures
        encode_utf8(a + b) == encode_utf8(a) + encode_utf8(b),
    decreases a.len(),
{
    if a.len() == 0 {
        assert(a + b == b);
    } else {
        assert((a + b)[0] == a[0]);
        assert((a + b).drop_first() == a.drop_first() + b);
        lemma_encode_concat(a.drop_first(), b);
    }
}

/// The byte offset behind a character is the offset before it plus its width.
pub proof fn lemma_offset_step(text: Seq<char>, k: int)
    requires
        0 <= k < text.len(),
    ensures
        byte_offset(text, k + 1) == byte_offset(text, k) + utf8_width(text[k]),
        1 <= utf8_width(text[k]) <= 4,
{
    let one = seq![text[k]];
    assert(text.take(k + 1) == text.take(k) + one);
    lemma_encode_concat(text.take(k), one);
    assert(one.drop_first() == Seq::<char>::empty());
    assert(encode_utf8(one) == encode_scalar(text[k] as u32) + encode_utf8(one.drop_first()));
}

/// Byte offsets grow with the character index.
pub proof fn lemma_offset_monotone(text: Seq<char>, i: int, j: int)
    requires
        0 <= i <= j <= text.len(),
    ensures
        byte_offset(text, i) <= byte_offset(text, j),
    decreases j - i,
{
    if i < j {
        lemma_offset_monotone(text, i, j - 1);
        lemma_offset_step(text, j - 1);
    }
}

/// The number of bytes of the UTF-8 form of `c`.
fn width_of(c: char) -> (w: usize)
    ensures
        w == utf8_width(c),
{
    let v = c as u32;
    if v <= 0x7F {
        1
    } else if v <= 0x7FF {
        2
    } else if v <= 0xFFFF {
        3
    } else {
        4
    }
}

/// A winner as a mathematical index.
pub open spec fn index_of(rule: Option<usize>) -> Option<int> {
    match rule {
        Some(i) => Some(i as int),
        None => None,
    }
}

/// Every match before a rule's cursor ends at or before `p`.
spec fn passed(cursors: Seq<usize>, found: Seq<Seq<MatchRange>>, p: int) -> bool {
    &&& cursors.len() == found.len()
    &&& forall|i: int| 0 <= i < found.len() ==> (#[trigger] cursors[i]) <= found[i].len()
    &&& forall|i: int, j: int|
        0 <= i < found.len() && 0 <= j < cursors[i] ==> (#[trigger] found[i][j]).end <= p
}

/// Each cursor stands at its rule's first match that ends behind `p`.
spec fn settled(cursors: Seq<usize>, found: Seq<Seq<MatchRange>>, p: int) -> bool {
    &&& passed(cursors, found, p)
    &&& forall|i: int|
        0 <= i < found.len() && (#[trigger] cursors[i]) < found[i].len() ==> found[i][cursors[i] as int].end
            > p
}

/// Moves every rule's cursor past the matches that end at or before `pos`.
fn advance(cursors: &mut Vec<usize>, matches: &Vec<Vec<MatchRange>>, pos: usize)
    requires
        passed(old(cursors)@, ranges_view(matches@), pos as int),
    ensures
        settled(final(cursors)@, ranges_view(matches@), pos as int),
{
    let ghost found = ranges_view(matches@);
    let mut i: usize = 0;
    while i < cursors.len()
        invariant
            i <= cursors.len(),
            found == ranges_view(matches@),
            passed(cursors@, found, pos as int),
            forall|r: int|
                0 <= r < i && (#[trigger] cursors[r]) < found[r].len() ==> found[r][cursors[r] as int].end
                    > pos,
        decreases cursors.len() - i,
    {
        let list = &matches[i];
        let mut at: usize = cursors[i];
        assert(list@ == found[i as int]);
        while at < list.len() && list[at].end <= pos
            invariant
                at <= list.len(),
                list@ == found[i as int],
                forall|j: int| 0 <= j < at ==> (#[trigger] list[j]).end <= pos,
            decreases list.len() - at,
        {
            at += 1;
        }
        cursors.set(i, at);
        i += 1;
    }
}

/// The rule of highest index whose current match covers `pos`.
fn winning_rule(cursors: &Vec<usize>, matches: &Vec<Vec<MatchRange>>, pos: usize) -> (w: Option<usize>)
    requires
        settled(cursors@, ranges_view(matches@), pos as int),
        forall|i: int| 0 <= i < matches.len() ==> in_order(#[trigger] matches[i]@),
    ensures
        index_of(w) == winner(ranges_view(matches@), pos as int),
{
    let ghost found = ranges_view(matches@);
    let mut i: usize = matches.len();
    while i > 0
        invariant
            i <= matches.len(),
            found == ranges_view(matches@),
            settled(cursors@, found, pos as int),
            forall|r: int| 0 <= r < matches.len() ==> in_order(#[trigger] matches[r]@),
            forall|r: int| i <= r < found.len() ==> !rule_covers(#[trigger] found[r], pos as int),
        decreases i,
    {
        i -= 1;
        let at = cursors[i];
        let list = &matches[i];
        assert(list@ == found[i as int]);
        assert(in_order(matches[i as int]@));
        if at < list.len() && list[at].start <= pos {
            proof {
                assert(covers(found[i as int][at as int], pos as int));
                lemma_winner_is_highest(found, pos as int);
            }
            return Some(i);
        }
        proof {
            if rule_covers(found[i as int], pos as int) {
                let j = choose|j: int| 0 <= j < found[i as int].len() && covers(#[trigger] found[i as int][j], pos as int);
                if j < at {
                    assert(found[i as int][j].end <= pos);
                } else if j > at {
                    assert(found[i as int][at as int].end <= found[i as int][j].start);
                }
                assert(false);
            }
        }
    }
    proof {
        lemma_winner_is_highest(found, pos as int);
    }
    None
}

/// Whether two winners are the same.
fn same_rule(a: Option<usize>, b: Option<usize>) -> (same: bool)
    ensures
        same == (a == b),
{
    match (a, b) {
        (Some(x), Some(y)) => x == y,
        (None, None) => true,
        _ => false,
    }
}

/// The style label for a winner.
fn label_for(definition: &Language, rule: Option<usize>) -> (label: String)
    ensures
        label@ == label_of(definition@.labels(), index_of(rule)),
{
    match rule {
        Some(i) => {
            if i < definition.rules.len() {
                definition.rules[i].0.clone()
            } else {
                String::new()
            }
        },
        None => String::new(),
    }
}

/// Cuts `code` into its classified runs, given for every rule of `definition`
/// the matches of its pattern in `code`.
///
/// The character at byte offset `p` belongs to the rule of highest index that
/// has a match covering `p`, or to none. Consecutive characters with the same
/// winner form one range, labelled with the winner's style or with the empty
/// string.
pub fn classify(code: &str, definition: &Language, matches: &Vec<Vec<MatchRange>>) -> (ranges: Vec<
    HighlightRange,
>)
    requires
        forall|i: int| 0 <= i < matches.len() ==> in_order(#[trigger] matches[i]@),
    ensures
        spans_view(ranges@) == spans_of(code@, ranges_view(matches@), definition@.labels()),
        joined_text(spans_view(ranges@)) == code@,
        well_cut(
            code@,
            winners_of(code@, ranges_view(matches@)),
            definition@.labels(),
            spans_view(ranges@),
        ),
{
    let ghost text = code@;
    let ghost found = ranges_view(matches@);
    let ghost labels = definition@.labels();
    let ghost winners = winners_of(text, found);
    let total: usize = code.as_bytes().len();
    let mut cursors: Vec<usize> = Vec::new();
    let mut r: usize = 0;
    while r < matches.len()
        invariant
            r <= matches.len(),
            cursors.len() == r,
            forall|i: int| 0 <= i < r ==> cursors[i] == 0,
        decreases matches.len() - r,
    {
        cursors.push(0);
        r += 1;
    }
    let mut ranges: Vec<HighlightRange> = Vec::new();
    let mut chunk = String::new();
    let mut style: Option<usize> = None;
    let mut pos: usize = 0;
    let mut first = true;
    proof {
        assert(text.take(0) == Seq::<char>::empty());
        assert(text.take(text.len() as int) == text);
    }
    for c in it: code.chars()
        invariant
            it.seq() == text,
            text == code@,
            found == ranges_view(matches@),
            labels == definition@.labels(),
            winners == winners_of(text, found),
            forall|i: int| 0 <= i < matches.len() ==> in_order(#[trigger] matches[i]@),
            byte_offset(text, text.len() as int) == total,
            pos == byte_offset(text, it.index() as int),
            passed(cursors@, found, pos as int),
            first == (it.index() == 0),
            first ==> ranges@.len() == 0 && chunk@ == Seq::<char>::empty(),
            !first ==> {
                let cs = cuts(winners.take(it.index() as int));
                &&& cs.len() > 0
                &&& ranges.len() == cs.len() - 1
                &&& forall|j: int|
                    0 <= j < ranges.len() ==> (#[trigger] ranges[j])@ == (Span {
                        text: text.subrange(cs[j], cs[j + 1]),
                        style: label_of(labels, winners[cs[j]]),
                    })
                &&& chunk@ == text.subrange(cs.last(), it.index() as int)
                &&& index_of(style) == winners[it.index() - 1]
                &&& index_of(style) == winners[cs.last()]
            },
    {
        let ghost k = it.index() as int;
        advance(&mut cursors, matches, pos);
        let w = winning_rule(&cursors, matches, pos);
        proof {
            assert(index_of(w) == winners[k]);
            assert(winners.take(k + 1).drop_last() == winners.take(k));
            lemma_cuts(winners.take(k));
        }
        if first {
            chunk.push(c);
            style = w;
            first = false;
            proof {
                assert(cuts(winners.take(1)) == seq![0int]);
                assert(chunk@ == text.subrange(0, 1));
            }
        } else if same_rule(w, style) {
            chunk.push(c);
            proof {
                let cs = cuts(winners.take(k));
                assert(!starts_run(winners.take(k + 1), k));
                assert(cuts(winners.take(k + 1)) == cs);
                assert(starts_run(winners.take(k), cs.last()));
                assert(chunk@ == text.subrange(cs.last(), k + 1));
            }
        } else {
            let label = label_for(definition, style);
            ranges.push(HighlightRange { text: chunk, style: label });
            chunk = String::new();
            chunk.push(c);
            style = w;
            proof {
                let cs = cuts(winners.take(k));
                assert(starts_run(winners.take(k + 1), k));
                assert(cuts(winners.take(k + 1)) == cs.push(k));
                assert(chunk@ == text.subrange(k, k + 1));
            }
        }
        proof {
            lemma_offset_step(text, k);
            lemma_offset_monotone(text, k + 1, text.len() as int);
        }
        pos = pos + width_of(c);
    }
    if !first {
        let label = label_for(definition, style);
        ranges.push(HighlightRange { text: chunk, style: label });
    }
    proof {
        assert(winners.take(text.len() as int) == winners);
        lemma_cuts(winners);
        assert(spans_view(ranges@) =~= runs(text, winners, labels));
        lemma_runs_rejoin(text, winners, labels);
        lemma_runs_well_cut(text, winners, labels);
    }
    ranges
}

/// The matches of every pattern over `text`, in pattern order.
pub open spec fn matches_of(patterns: Seq<Seq<char>>, text: Seq<char>) -> Seq<Seq<MatchRange>> {
    Seq::new(patterns.len(), |i: int| regex_matches(patterns[i], text))
}

/// Whether the engine compiles every one of the patterns.
pub open spec fn all_compile(patterns: Seq<Seq<char>>) -> bool {
    forall|i: int| 0 <= i < patterns.len() ==> pattern_compiles(#[trigger] patterns[i])
}

/// Whether `rule` is the index of the first pattern that the engine refuses.
pub open spec fn first_refused_rule(patterns: Seq<Seq<char>>, rule: int) -> bool {
    &&& 0 <= rule < patterns.len()
    &&& !pattern_compiles(patterns[rule])
    &&& forall|i: int| 0 <= i < rule ==> pattern_compiles(#[trigger] patterns[i])
}

/// Cuts `code` into its classified runs under the rules of `definition`.
///
/// Every pattern is first handed to the regular-expression engine to be
/// compiled, in rule order. If the engine refuses one, the call fails with
/// the index of the first such rule, whatever the text, and no range is
/// returned. Otherwise the call succeeds, and the result is the
/// classification of `code` under the matches that the engine finds for each
/// rule.
pub fn tokenize(code: &str, definition: &Language) -> (r: Result<Vec<HighlightRange>, PatternError>)
    ensures
        r is Ok <==> all_compile(definition@.patterns()),
        match r {
            Ok(ranges) => {
                &&& spans_view(ranges@) == spans_of(
                    code@,
                    matches_of(definition@.patterns(), code@),
                    definition@.labels(),
                )
                &&& joined_text(spans_view(ranges@)) == code@
                &&& well_cut(
                    code@,
                    winners_of(code@, matches_of(definition@.patterns(), code@)),
                    definition@.labels(),
                    spans_view(ranges@),
                )
            },
            Err(e) => first_refused_rule(definition@.patterns(), e.rule as int),
        },
{
    let ghost patterns = definition@.patterns();
    let mut compiled: Vec<regex::Regex> = Vec::new();
    let mut i: usize = 0;
    while i < definition.rules.len()
        invariant
            i <= definition.rules.len(),
            compiled.len() == i,
            patterns == definition@.patterns(),
            forall|r: int| 0 <= r < i ==> pattern_source(#[trigger] compiled[r]) == patterns[r],
            forall|r: int| 0 <= r < i ==> pattern_compiles(#[trigger] patterns[r]),
        decreases definition.rules.len() - i,
    {
        match compile(definition.rules[i].1.as_str()) {
            Ok(regex) => {
                compiled.push(regex);
            },
            Err(fault) => {
                proof {
                    assert(!pattern_compiles(patterns[i as int]));
                }
                return Err(PatternError { rule: i, message: describe_fault(&fault) });
            },
        }
        i += 1;
    }
    let mut matches: Vec<Vec<MatchRange>> = Vec::new();
    let mut i: usize = 0;
    while i < compiled.len()
        invariant
            i <= compiled.len(),
            compiled.len() == definition.rules.len(),
            matches.len() == i,
            patterns == definition@.patterns(),
            forall|r: int|
                0 <= r < compiled.len() ==> pattern_source(#[trigger] compiled[r]) == patterns[r],
            forall|r: int|
                0 <= r < i ==> (#[trigger] matches[r])@ == regex_matches(patterns[r], code@)
                    && in_order(matches[r]@),
        decreases compiled.len() - i,
    {
        matches.push(find_matches(&compiled[i], code));
        i += 1;
    }
    proof {
        assert(ranges_view(matches@) =~= matches_of(patterns, code@));
    }
    Ok(classify(code, definition, &matches))
}

} // verus!
