//! Warnings raised by a script at run time, as text with a stack traceback.

use vstd::prelude::*;
use crate::text::decimal;
use crate::text::join;
use crate::text::joined;
use crate::text::push_decimal;
use crate::text::strings_view;

verus! {

/// What stands for a name that is not known.
pub open spec fn unknown() -> Seq<char> {
    "?"@
}

/// A name, or the mark for an unknown one.
pub open spec fn name_or_unknown(name: Option<&str>) -> Seq<char> {
    match name {
        Some(known) => known@,
        None => unknown(),
    }
}

/// The line of a frame as it follows the source: a colon and the number, or
/// nothing where the line is not known.
pub open spec fn line_suffix(line: Option<usize>) -> Seq<char> {
    match line {
        Some(number) => ":"@ + decimal(number as nat),
        None => Seq::empty(),
    }
}

/// What a frame is running: the kind of name and the quoted name, or the bare
/// name where the kind is not known.
pub open spec fn callee(what: Option<&str>, function: Seq<char>) -> Seq<char> {
    match what {
        Some(kind) => kind@ + " '"@ + function + "'"@,
        None => function,
    }
}

/// One line of a traceback.
pub open spec fn frame_text(
    source: Option<&str>,
    line: Option<usize>,
    what: Option<&str>,
    function: Option<&str>,
) -> Seq<char> {
    "    "@ + name_or_unknown(source) + line_suffix(line) + ": in "@ + callee(
        what,
        name_or_unknown(function),
    )
}

/// The text of a warning with its traceback.
pub open spec fn warning_text(text: Seq<char>, trace: Seq<Seq<char>>) -> Seq<char> {
    "runtime warning: "@ + text + "\nstack traceback:\n"@ + joined(trace, '\n')
}

/// Describes one stack frame: its source and line, and what it is running.
/// A source or a function without a name is shown as `?`.
pub fn frame_line(
    source: Option<&str>,
    line: Option<usize>,
    what: Option<&str>,
    function: Option<&str>,
) -> (text: String)
    ensures
        text@ == frame_text(source, line, what, function),
{
    let mut text = String::from_str("    ");
    match source {
        Some(known) => text.append(known),
        None => text.append("?"),
    }
    match line {
        Some(number) => {
            text.append(":");
            push_decimal(&mut text, number);
        },
        None => {},
    }
    text.append(": in ");
    match what {
        Some(kind) => {
            text.append(kind);
            text.append(" '");
            match function {
                Some(known) => text.append(known),
                None => text.append("?"),
            }
            text.append("'");
        },
        None => {
            match function {
                Some(known) => text.append(known),
                None => text.append("?"),
            }
        },
    }
    text
}

/// Builds the text of a run-time warning from its message and the lines of
/// its traceback.
pub fn warning(text: &str, trace: &Vec<String>) -> (message: String)
    ensures
        message@ == warning_text(text@, strings_view(trace@)),
{
    let mut message = String::from_str("runtime warning: ");
    message.append(text);
    message.append("\nstack traceback:\n");
    let lines = join(trace, '\n');
    message.append(lines.as_str());
    message
}

} // verus!
