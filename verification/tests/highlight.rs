use yassg::engine::classify;
use yassg::engine::tokenize;
use yassg::engine::HighlightRange;
use yassg::error::HighlightError;
use yassg::language::Language;
use yassg::pattern::is_in_order;
use yassg::pattern::MatchRange;
use yassg::registry::Languages;
use yassg::render::escape_html;
use yassg::render::render;

fn language(name: &str, extensions: &[&str], rules: &[(&str, &str)]) -> Language {
    Language {
        name: name.to_string(),
        extensions: extensions.iter().map(|e| e.to_string()).collect(),
        rules: rules.iter().map(|(label, pattern)| (label.to_string(), pattern.to_string())).collect(),
    }
}

fn demo() -> Language {
    language("demo", &["dm"], &[("kw", r"\bfoo\b"), ("kw2", "foo.")])
}

fn pairs(ranges: &[HighlightRange]) -> Vec<(String, String)> {
    ranges.iter().map(|range| (range.text.clone(), range.style.clone())).collect()
}

fn expect(ranges: &[HighlightRange], wanted: &[(&str, &str)]) {
    let wanted: Vec<(String, String)> =
        wanted.iter().map(|(text, style)| (text.to_string(), style.to_string())).collect();
    assert_eq!(pairs(ranges), wanted);
}

fn range(start: usize, end: usize) -> MatchRange {
    MatchRange { start, end }
}

#[test]
fn higher_rule_wins_overlap_and_absorbs_boundary() {
    let ranges = tokenize("foo bar", &demo()).unwrap();
    expect(&ranges, &[("foo ", "kw2"), ("bar", "")]);
}

#[test]
fn spans_rejoin_to_the_input() {
    let code = "let foo = foo2; // foo\nfoo";
    let ranges = tokenize(code, &demo()).unwrap();
    let joined: String = ranges.iter().map(|range| range.text.as_str()).collect();
    assert_eq!(joined, code);
    assert!(ranges.iter().all(|range| !range.text.is_empty()));
}

#[test]
fn neighbouring_spans_differ_in_winner() {
    let definition = language("l", &[], &[("a", "a+"), ("b", "b+")]);
    let ranges = tokenize("aabbaa  b", &definition).unwrap();
    expect(&ranges, &[("aa", "a"), ("bb", "b"), ("aa", "a"), ("  ", ""), ("b", "b")]);
}

#[test]
fn unmatched_text_is_one_unclassified_span() {
    let ranges = tokenize("nothing here", &demo()).unwrap();
    expect(&ranges, &[("nothing here", "")]);
}

#[test]
fn empty_text_has_no_span() {
    let ranges = tokenize("", &demo()).unwrap();
    assert!(ranges.is_empty());
}

#[test]
fn definition_without_rules_leaves_text_unclassified() {
    let ranges = tokenize("abc", &language("plain", &[], &[])).unwrap();
    expect(&ranges, &[("abc", "")]);
}

#[test]
fn match_that_starts_later_does_not_style_earlier_text() {
    let definition = language("l", &[], &[("kw", r"\bfoo\b")]);
    let ranges = tokenize("bar foo", &definition).unwrap();
    expect(&ranges, &[("bar ", ""), ("foo", "kw")]);
}

#[test]
fn lower_rule_shows_where_higher_rule_ends() {
    let definition = language("l", &[], &[("word", "[a-z]+"), ("key", "fn")]);
    let ranges = tokenize("fnord fn", &definition).unwrap();
    expect(&ranges, &[("fn", "key"), ("ord", "word"), (" ", ""), ("fn", "key")]);
}

#[test]
fn rules_with_equal_labels_still_split_spans() {
    let definition = language("l", &[], &[("x", "a"), ("x", "b")]);
    let ranges = tokenize("ab", &definition).unwrap();
    expect(&ranges, &[("a", "x"), ("b", "x")]);
}

#[test]
fn positions_are_counted_in_characters_of_any_width() {
    let definition = language("l", &[], &[("greek", r"\p{Greek}+"), ("digit", "[0-9]")]);
    let ranges = tokenize("aβγ1€2😀δ", &definition).unwrap();
    expect(
        &ranges,
        &[("a", ""), ("βγ", "greek"), ("1", "digit"), ("€", ""), ("2", "digit"), ("😀", ""), ("δ", "greek")],
    );
}

#[test]
fn empty_matches_classify_nothing() {
    let definition = language("l", &[], &[("maybe", "x*")]);
    let ranges = tokenize("axxb", &definition).unwrap();
    expect(&ranges, &[("a", ""), ("xx", "maybe"), ("b", "")]);
}

#[test]
fn newlines_pass_through() {
    let definition = language("l", &[], &[("c", "//.*")]);
    let ranges = tokenize("a // b\nc", &definition).unwrap();
    expect(&ranges, &[("a ", ""), ("// b", "c"), ("\nc", "")]);
}

#[test]
fn invalid_pattern_fails_with_its_rule_index() {
    let definition = language("l", &[], &[("ok", "a"), ("bad", "(unclosed"), ("worse", "[")]);
    let error = tokenize("aaa", &definition).unwrap_err();
    assert_eq!(error.rule, 1);
    assert!(!error.message.is_empty());
}

#[test]
fn classify_takes_matches_as_given() {
    let definition = language("l", &[], &[("low", "unused"), ("high", "unused")]);
    let matches = vec![vec![range(0, 3)], vec![range(0, 4)]];
    let ranges = classify("foo bar", &definition, &matches);
    expect(&ranges, &[("foo ", "high"), ("bar", "")]);
}

#[test]
fn classify_without_label_for_winner_gives_empty_style() {
    let definition = language("l", &[], &[("only", "unused")]);
    let matches = vec![vec![], vec![range(1, 2)]];
    let ranges = classify("abc", &definition, &matches);
    expect(&ranges, &[("a", ""), ("b", ""), ("c", "")]);
}

#[test]
fn classify_uses_byte_offsets() {
    let definition = language("l", &[], &[("m", "unused")]);
    let matches = vec![vec![range(2, 5), range(5, 6)]];
    let ranges = classify("é€x.", &definition, &matches);
    expect(&ranges, &[("é", ""), ("€x", "m"), (".", "")]);
}

#[test]
fn escaping_replaces_the_five_characters() {
    assert_eq!(escape_html("<b>&\"'"), "&lt;b&gt;&amp;&quot;&apos;");
}

#[test]
fn escaping_does_not_escape_twice() {
    assert_eq!(escape_html("&lt;"), "&amp;lt;");
    assert_eq!(escape_html("plain text\n"), "plain text\n");
    assert_eq!(escape_html(""), "");
}

#[test]
fn render_wraps_every_span() {
    let ranges = vec![
        HighlightRange { text: "a<b".to_string(), style: "k\"w".to_string() },
        HighlightRange { text: "\n".to_string(), style: String::new() },
    ];
    assert_eq!(
        render(&ranges, &None),
        "<span class=\"k&quot;w\">a&lt;b</span><span class=\"\">\n</span>"
    );
    assert_eq!(
        render(&ranges, &Some("hl-".to_string())),
        "<span class=\"hl-k&quot;w\">a&lt;b</span><span class=\"hl-\">\n</span>"
    );
    assert_eq!(render(&[].to_vec(), &Some("hl-".to_string())), "");
}

#[test]
fn highlight_html_renders_the_scenario() {
    let languages = Languages::new().with(demo());
    let html = languages.highlight_html("foo bar", "dm", Some("s-".to_string())).unwrap();
    assert_eq!(html, "<span class=\"s-kw2\">foo </span><span class=\"s-\">bar</span>");
    let html = languages.highlight_html("foo bar", "demo", None).unwrap();
    assert_eq!(html, "<span class=\"kw2\">foo </span><span class=\"\">bar</span>");
}

#[test]
fn highlight_of_unknown_language_is_not_found() {
    let languages = Languages::new().with(demo());
    match languages.highlight("foo", "doesnotexist") {
        Err(HighlightError::LanguageNotFound(name)) => assert_eq!(name, "doesnotexist"),
        other => panic!("unexpected: {:?}", other.map(|ranges| pairs(&ranges))),
    }
    assert!(matches!(
        languages.highlight_html("foo", "doesnotexist", None),
        Err(HighlightError::LanguageNotFound(_))
    ));
}

#[test]
fn highlight_with_invalid_pattern_is_a_pattern_error() {
    let languages = Languages::new().with(language("broken", &["br"], &[("bad", "(")]));
    match languages.highlight("foo", "br") {
        Err(HighlightError::Pattern(fault)) => assert_eq!(fault.rule, 0),
        other => panic!("unexpected: {:?}", other.map(|ranges| pairs(&ranges))),
    }
}

#[test]
fn match_order_is_recognised() {
    assert!(is_in_order(&vec![]));
    assert!(is_in_order(&vec![range(0, 0), range(0, 3), range(3, 3), range(4, 9)]));
    assert!(!is_in_order(&vec![range(2, 1)]));
    assert!(!is_in_order(&vec![range(0, 3), range(2, 4)]));
    assert!(!is_in_order(&vec![range(5, 6), range(0, 1)]));
}

#[test]
fn uncompilable_pattern_fails_even_without_text() {
    let definition = language("demo", &["dm"], &[("ok", "foo"), ("bad", "(")]);
    assert_eq!(tokenize("", &definition).unwrap_err().rule, 1);
    let languages = Languages::new().with(definition);
    assert!(matches!(languages.highlight("", "demo"), Err(HighlightError::Pattern(_))));
}

#[test]
fn first_refused_rule_is_reported() {
    let definition = language("l", &[], &[("a", "["), ("b", "("), ("c", "c")]);
    assert_eq!(tokenize("abc", &definition).unwrap_err().rule, 0);
}

#[test]
fn markup_and_ranges_fail_alike() {
    let languages = Languages::new()
        .with(demo())
        .with(language("broken", &["br"], &[("ok", "a"), ("bad", "(")]));
    let ranges = languages.highlight("foo bar", "demo").unwrap();
    let html = languages.highlight_html("foo bar", "demo", Some("p-".to_string())).unwrap();
    assert_eq!(html, render(&ranges, &Some("p-".to_string())));
    let from_ranges = match languages.highlight("aa", "br") {
        Err(HighlightError::Pattern(fault)) => (fault.rule, fault.message),
        _ => panic!("expected a pattern error"),
    };
    let from_markup = match languages.highlight_html("aa", "br", Some("p-".to_string())) {
        Err(HighlightError::Pattern(fault)) => (fault.rule, fault.message),
        _ => panic!("expected a pattern error"),
    };
    assert_eq!(from_ranges, from_markup);
    assert_eq!(from_ranges.0, 1);
}
