use yassg::cookbook::entries;
use yassg::cookbook::lookup;
use yassg::error::ConfigParseError;
use yassg::error::HighlightError;
use yassg::error::PatternError;
use yassg::language::Language;
use yassg::registry::Languages;
use yassg::text::chars_of;
use yassg::text::join;
use yassg::text::push_decimal;
use yassg::text::same_text;
use yassg::text::string_of;
use yassg::trace::frame_line;
use yassg::trace::warning;

fn decimal(n: usize) -> String {
    let mut text = String::new();
    push_decimal(&mut text, n);
    text
}

#[test]
fn decimal_digits_match_the_number() {
    assert_eq!(decimal(0), "0");
    assert_eq!(decimal(7), "7");
    assert_eq!(decimal(10), "10");
    assert_eq!(decimal(1234567890), "1234567890");
    assert_eq!(decimal(usize::MAX), usize::MAX.to_string());
}

#[test]
fn push_decimal_appends() {
    let mut text = "line ".to_string();
    push_decimal(&mut text, 42);
    assert_eq!(text, "line 42");
}

#[test]
fn frame_with_kind_quotes_the_function() {
    assert_eq!(
        frame_line(Some("site.lua"), Some(12), Some("global"), Some("render")),
        "    site.lua:12: in global 'render'"
    );
}

#[test]
fn frame_without_kind_shows_the_bare_function() {
    assert_eq!(frame_line(Some("[C]"), None, None, Some("error")), "    [C]: in error");
}

#[test]
fn frame_without_names_shows_question_marks() {
    assert_eq!(frame_line(None, Some(0), None, None), "    ?:0: in ?");
    assert_eq!(frame_line(None, None, Some("method"), None), "    ?: in method '?'");
}

#[test]
fn warning_lists_the_traceback() {
    let trace = vec!["    a:1: in x".to_string(), "    b: in y".to_string()];
    assert_eq!(
        warning("careful", &trace),
        "runtime warning: careful\nstack traceback:\n    a:1: in x\n    b: in y"
    );
    assert_eq!(warning("alone", &vec![]), "runtime warning: alone\nstack traceback:\n");
}

#[test]
fn join_puts_the_separator_between_parts() {
    let parts = vec!["a".to_string(), String::new(), "b".to_string()];
    assert_eq!(join(&parts, '/'), "a//b");
    assert_eq!(join(&vec!["only".to_string()], ','), "only");
    assert_eq!(join(&vec![], ','), "");
}

#[test]
fn same_text_compares_characters() {
    assert!(same_text("héllo", "héllo"));
    assert!(!same_text("hello", "hellp"));
    assert!(!same_text("hello", "hell"));
    assert!(same_text("", ""));
}

#[test]
fn chars_and_strings_convert_both_ways() {
    assert_eq!(chars_of("a€b"), vec!['a', '€', 'b']);
    assert_eq!(string_of(&vec!['a', '€', 'b']), "a€b");
}

#[test]
fn cookbook_has_two_entries_with_their_scripts() {
    let all = entries("print(1)", "cite()");
    assert_eq!(all.len(), 2);
    assert_eq!(all[0].name, "markdown");
    assert_eq!(all[0].description, "Custom markdown rendering");
    assert_eq!(
        all[0].tutorial,
        "By default, markdown is rendered straight to HTML. The following script allows custom rendering of markdown\n```luaprint(1)```"
    );
    assert_eq!(all[1].name, "bibliography");
    assert_eq!(all[1].description, "Add citations with a bibtex bibliography");
    assert_eq!(all[1].tutorial, "TODO ```luacite()```");
}

#[test]
fn cookbook_lookup_finds_by_name() {
    let entry = lookup("bibliography", "m", "b").unwrap();
    assert_eq!(entry.name, "bibliography");
    assert_eq!(entry.tutorial, "TODO ```luab```");
    assert_eq!(lookup("markdown", "m", "b").unwrap().description, "Custom markdown rendering");
    assert!(lookup("missing", "m", "b").is_none());
    assert!(lookup("", "m", "b").is_none());
}

#[test]
fn errors_describe_themselves() {
    assert_eq!(
        HighlightError::LanguageNotFound("klingon".to_string()).describe(),
        "Could not find language klingon"
    );
    let fault = PatternError { rule: 3, message: "unclosed group".to_string() };
    assert_eq!(HighlightError::Pattern(fault).describe(), "unclosed group");
    assert_eq!(ConfigParseError::Syntax("bad".to_string()).describe(), "bad");
    assert_eq!(ConfigParseError::NotATable.describe(), "the document is not a table");
    assert_eq!(
        ConfigParseError::Definition("x".to_string()).describe(),
        "the entry x is not a language definition"
    );
}

#[test]
fn fragment_tells_unknown_language_from_failure() {
    let languages = Languages::new()
        .with(Language {
            name: "demo".to_string(),
            extensions: vec!["dm".to_string()],
            rules: vec![("kw".to_string(), r"\bfoo\b".to_string()), ("kw2".to_string(), "foo.".to_string())],
        })
        .with(Language {
            name: "broken".to_string(),
            extensions: vec![],
            rules: vec![("ok".to_string(), "a".to_string()), ("bad".to_string(), "a{".to_string() + "2,1}")],
        });
    assert_eq!(
        languages.highlight_fragment("foo bar", "dm", None).unwrap(),
        Some("<span class=\"kw2\">foo </span><span class=\"\">bar</span>".to_string())
    );
    assert_eq!(languages.highlight_fragment("foo bar", "nope", None).unwrap(), None);
    let fault = languages.highlight_fragment("foo bar", "broken", None).unwrap_err();
    assert_eq!(fault.rule, 1);
}
