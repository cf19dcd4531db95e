//! Rendering of classified runs as escaped markup.

use vstd::prelude::*;
use crate::engine::HighlightRange;
use crate::engine::Span;
use crate::engine::spans_view;

verus! {

/// The replacement text of one character: the five markup-significant
/// characters become entities, every other character stands for itself.
pub open spec fn escape_char(c: char) -> Seq<char> {
    if c == '&' {
        seq!['&', 'a', 'm', 'p', ';']
    } else if c == '"' {
        seq!['&', 'q', 'u', 'o', 't', ';']
    } else if c == '\'' {
        seq!['&', 'a', 'p', 'o', 's', ';']
    } else if c == '<' {
        seq!['&', 'l', 't', ';']
    } else if c == '>' {
        seq!['&', 'g', 't', ';']
    } else {
        seq![c]
    }
}

/// The escaped form of a text: the replacement texts of its characters, in order.
pub open spec fn escape(s: Seq<char>) -> Seq<char>
    decreases s.len(),
{
    if s.len() == 0 {
        Seq::empty()
    } else {
        escape(s.drop_last()) + escape_char(s.last())
    }
}

/// Escapes the five markup-significant characters of `string`: `&`, `"`, `'`,
/// `<` and `>` become entities, every other character is kept.
pub fn escape_html(string: &str) -> (escaped: String)
    ensures
        escaped@ == escape(string@),
{
    let mut escaped = String::new();
    proof {
        assert(string@.take(0) == Seq::<char>::empty());
    }
    for c in it: string.chars()
        invariant
            it.seq() == string@,
            escaped@ == escape(string@.take(it.index() as int)),
    {
        proof {
            let i = it.index() as int;
            assert(string@.take(i + 1).drop_last() == string@.take(i));
        }
        if c == '&' {
            escaped.append("&amp;");
            proof {
                reveal_strlit("&amp;");
                assert("&amp;"@ =~= escape_char(c));
            }
        } else if c == '"' {
            escaped.append("&quot;");
            proof {
                reveal_strlit("&quot;");
                assert("&quot;"@ =~= escape_char(c));
            }
        } else if c == '\'' {
            escaped.append("&apos;");
            proof {
                reveal_strlit("&apos;");
                assert("&apos;"@ =~= escape_char(c));
            }
        } else if c == '<' {
            escaped.append("&lt;");
            proof {
                reveal_strlit("&lt;");
                assert("&lt;"@ =~= escape_char(c));
            }
        } else if c == '>' {
            escaped.append("&gt;");
            proof {
                reveal_strlit("&gt;");
                assert("&gt;"@ =~= escape_char(c));
            }
        } else {
            escaped.push(c);
        }
    }
    proof {
        assert(string@.take(string@.len() as int) == string@);
    }
    escaped
}

/// The class prefix that a caller chose, or the empty prefix.
pub open spec fn prefix_of(class_prefix: Option<String>) -> Seq<char> {
    match class_prefix {
        Some(prefix) => prefix@,
        None => Seq::empty(),
    }
}

/// The element for one span: the escaped text of the span, wrapped in a
/// `span` element whose class is the prefix followed by the escaped label.
pub open spec fn element(span: Span, prefix: Seq<char>) -> Seq<char> {
    "<span class=\""@ + prefix + escape(span.style) + "\">"@ + escape(span.text) + "</span>"@
}

/// The markup for a sequence of spans: their elements, in order.
pub open spec fn markup(spans: Seq<Span>, prefix: Seq<char>) -> Seq<char>
    decreases spans.len(),
{
    if spans.len() == 0 {
        Seq::empty()
    } else {
        markup(spans.drop_last(), prefix) + element(spans.last(), prefix)
    }
}

/// Renders the ranges as markup, one element per range, in order. A range
/// without a label gets an element all the same; its class is the prefix
/// alone.
pub fn render(ranges: &Vec<HighlightRange>, class_prefix: &Option<String>) -> (html: String)
    ensures
        html@ == markup(spans_view(ranges@), prefix_of(*class_prefix)),
{
    let ghost spans = spans_view(ranges@);
    let ghost prefix = prefix_of(*class_prefix);
    let mut html = String::new();
    let mut i: usize = 0;
    proof {
        assert(spans.take(0) == Seq::<Span>::empty());
    }
    while i < ranges.len()
        invariant
            i <= ranges.len(),
            spans == spans_view(ranges@),
            prefix == prefix_of(*class_prefix),
            html@ == markup(spans.take(i as int), prefix),
        decreases ranges.len() - i,
    {
        let ghost before = html@;
        proof {
            assert(spans.take(i + 1).drop_last() == spans.take(i as int));
            assert(spans.take(i + 1).last() == ranges[i as int]@);
        }
        html.append("<span class=\"");
        match class_prefix {
            Some(chosen) => {
                html.append(chosen.as_str());
            },
            None => {},
        }
        let style = escape_html(ranges[i].style.as_str());
        html.append(style.as_str());
        html.append("\">");
        let text = escape_html(ranges[i].text.as_str());
        html.append(text.as_str());
        html.append("</span>");
        proof {
            assert(html@ == before + element(ranges[i as int]@, prefix));
        }
        i += 1;
    }
    proof {
        assert(spans.take(ranges.len() as int) == spans);
    }
    html
}

} // verus!
