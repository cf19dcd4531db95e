use yassg::config::parse_document;
use yassg::config::ConfigValue;
use yassg::definitions::definitions_from;
use yassg::error::ConfigParseError;
use yassg::error::HighlightError;
use yassg::language::Language;
use yassg::registry::Languages;

fn language(name: &str, extensions: &[&str], rules: &[(&str, &str)]) -> Language {
    Language {
        name: name.to_string(),
        extensions: extensions.iter().map(|e| e.to_string()).collect(),
        rules: rules.iter().map(|(label, pattern)| (label.to_string(), pattern.to_string())).collect(),
    }
}

fn rules_of(definition: &Language) -> Vec<(&str, &str)> {
    definition.rules.iter().map(|(label, pattern)| (label.as_str(), pattern.as_str())).collect()
}

const BASELINE: &str = r##"
[python3]
extensions = ["py"]
zeta = "def"
alpha = "#.*"
mid = '\bself\b'

[rust]
extensions = ["rs", "rust"]
keyword = "fn|let"
"##;

#[test]
fn definition_is_found_by_extension() {
    let languages = Languages::new().with(language("python3", &["py"], &[("kw", "def")]));
    let definition = languages.resolve("py").unwrap();
    assert_eq!(definition.name, "python3");
}

#[test]
fn definition_is_found_by_name() {
    let languages = Languages::from_str(BASELINE).unwrap();
    assert_eq!(languages.resolve("rust").unwrap().name, "rust");
    assert_eq!(languages.resolve("rs").unwrap().name, "rust");
    assert_eq!(languages.resolve("python3").unwrap().name, "python3");
}

#[test]
fn name_is_tried_before_extension() {
    let languages = Languages::new()
        .with(language("first", &["second"], &[]))
        .with(language("second", &[], &[]));
    assert_eq!(languages.resolve("second").unwrap().name, "second");
}

#[test]
fn earliest_merged_definition_wins_a_shared_extension() {
    let languages = Languages::new()
        .with(language("a", &["x"], &[]))
        .with(language("b", &["x"], &[]))
        .with(language("a", &["x", "y"], &[("r", "r")]));
    assert_eq!(languages.resolve("x").unwrap().name, "a");
    assert_eq!(languages.len(), 2);
    assert_eq!(languages.get(0).unwrap().name, "a");
    assert_eq!(languages.get(1).unwrap().name, "b");
    assert!(languages.get(2).is_none());
}

#[test]
fn extension_must_match_exactly() {
    let languages = Languages::new().with(language("python3", &["py"], &[]));
    assert!(languages.resolve(".py").is_err());
    assert!(languages.resolve("p").is_err());
    assert!(languages.resolve("PY").is_err());
}

#[test]
fn missing_language_is_not_found() {
    let languages = Languages::from_str(BASELINE).unwrap();
    match languages.resolve("doesnotexist") {
        Err(HighlightError::LanguageNotFound(name)) => assert_eq!(name, "doesnotexist"),
        _ => panic!("expected LanguageNotFound"),
    }
    assert!(Languages::new().resolve("").is_err());
}

#[test]
fn rules_keep_the_order_of_the_document() {
    let languages = Languages::from_str(BASELINE).unwrap();
    let python = languages.resolve("python3").unwrap();
    assert_eq!(rules_of(python), vec![("zeta", "def"), ("alpha", "#.*"), ("mid", r"\bself\b")]);
    assert_eq!(python.extensions, vec!["py".to_string()]);
    assert_eq!(languages.get(0).unwrap().name, "python3");
    assert_eq!(languages.get(1).unwrap().name, "rust");
}

#[test]
fn extensions_may_stand_between_the_rules() {
    let text = "[l]\nb = \"1\"\nextensions = []\na = \"2\"\n";
    let languages = Languages::from_str(text).unwrap();
    let definition = languages.resolve("l").unwrap();
    assert_eq!(rules_of(definition), vec![("b", "1"), ("a", "2")]);
    assert!(definition.extensions.is_empty());
}

#[test]
fn override_replaces_the_whole_definition() {
    let replacement = "[python3]\nextensions = [\"py3\"]\nonly = \"x\"\n".to_string();
    let languages = Languages::load(BASELINE, &vec![replacement]).unwrap();
    let python = languages.resolve("python3").unwrap();
    assert_eq!(rules_of(python), vec![("only", "x")]);
    assert_eq!(python.extensions, vec!["py3".to_string()]);
    assert!(languages.resolve("py").is_err());
    assert_eq!(languages.len(), 2);
    assert_eq!(languages.get(0).unwrap().name, "python3");
    assert_eq!(rules_of(languages.resolve("rs").unwrap()), vec![("keyword", "fn|let")]);
}

#[test]
fn later_override_wins_over_earlier() {
    let first = "[x]\nextensions = []\na = \"1\"\n".to_string();
    let second = "[x]\nextensions = []\nb = \"2\"\n\n[y]\nextensions = [\"why\"]\n".to_string();
    let languages = Languages::load("", &vec![first, second]).unwrap();
    assert_eq!(rules_of(languages.resolve("x").unwrap()), vec![("b", "2")]);
    assert_eq!(languages.resolve("why").unwrap().name, "y");
}

#[test]
fn load_without_overrides_is_the_baseline() {
    let languages = Languages::load(BASELINE, &vec![]).unwrap();
    assert_eq!(languages.len(), 2);
}

#[test]
fn malformed_baseline_fails_the_load() {
    let error = Languages::load("[unclosed", &vec![]).unwrap_err();
    assert_eq!(error.source, 0);
    assert!(matches!(error.cause, ConfigParseError::Syntax(_)));
}

#[test]
fn malformed_override_fails_the_whole_load() {
    let good = "[x]\nextensions = []\n".to_string();
    let bad = "x = = 1".to_string();
    let error = Languages::load(BASELINE, &vec![good.clone(), bad, good]).unwrap_err();
    assert_eq!(error.source, 2);
    match error.cause {
        ConfigParseError::Syntax(message) => assert!(!message.is_empty()),
        _ => panic!("expected a syntax error"),
    }
}

#[test]
fn definition_without_extensions_is_refused() {
    match Languages::from_str("[good]\nextensions = []\n\n[bad]\nkw = \"x\"\n") {
        Err(ConfigParseError::Definition(name)) => assert_eq!(name, "bad"),
        _ => panic!("expected a definition error"),
    }
}

#[test]
fn rule_that_is_no_text_is_refused() {
    match Languages::from_str("[bad]\nextensions = []\nkw = 3\n") {
        Err(ConfigParseError::Definition(name)) => assert_eq!(name, "bad"),
        _ => panic!("expected a definition error"),
    }
    assert!(matches!(
        Languages::from_str("[bad]\nextensions = [1]\n"),
        Err(ConfigParseError::Definition(_))
    ));
    assert!(matches!(
        Languages::from_str("[bad]\nextensions = \"py\"\n"),
        Err(ConfigParseError::Definition(_))
    ));
}

#[test]
fn entry_that_is_no_table_is_refused() {
    match Languages::from_str("top = \"value\"\n") {
        Err(ConfigParseError::Definition(name)) => assert_eq!(name, "top"),
        _ => panic!("expected a definition error"),
    }
}

#[test]
fn empty_source_gives_empty_registry() {
    assert_eq!(Languages::from_str("").unwrap().len(), 0);
}

#[test]
fn document_keeps_kinds_and_order() {
    let document = parse_document("b = 1\na = [\"x\", true]\n[t]\nz = \"1\"\ny = 1979-05-27\n").unwrap();
    match document {
        ConfigValue::Table(entries) => {
            let keys: Vec<&str> = entries.iter().map(|(key, _)| key.as_str()).collect();
            assert_eq!(keys, vec!["b", "a", "t"]);
            assert!(matches!(entries[0].1, ConfigValue::Integer(1)));
            match &entries[1].1 {
                ConfigValue::List(items) => {
                    assert!(matches!(&items[0], ConfigValue::Text(text) if text == "x"));
                    assert!(matches!(items[1], ConfigValue::Boolean(true)));
                }
                _ => panic!("expected a list"),
            }
            match &entries[2].1 {
                ConfigValue::Table(fields) => {
                    assert_eq!(fields[0].0, "z");
                    assert!(matches!(fields[1].1, ConfigValue::Datetime));
                }
                _ => panic!("expected a table"),
            }
        }
        _ => panic!("expected a table"),
    }
    assert!(parse_document("a = ").is_err());
}

#[test]
fn definitions_from_reads_a_hand_made_document() {
    let document = ConfigValue::Table(vec![(
        "demo".to_string(),
        ConfigValue::Table(vec![
            ("kw".to_string(), ConfigValue::Text(r"\bfoo\b".to_string())),
            ("extensions".to_string(), ConfigValue::List(vec![ConfigValue::Text("dm".to_string())])),
            ("kw2".to_string(), ConfigValue::Text("foo.".to_string())),
        ]),
    )]);
    let definitions = definitions_from(&document).unwrap();
    assert_eq!(definitions.len(), 1);
    assert_eq!(definitions[0].name, "demo");
    assert_eq!(definitions[0].extensions, vec!["dm".to_string()]);
    assert_eq!(rules_of(&definitions[0]), vec![("kw", r"\bfoo\b"), ("kw2", "foo.")]);
    assert!(matches!(definitions_from(&ConfigValue::Float), Err(ConfigParseError::NotATable)));
}

#[test]
fn insert_merges_in_place() {
    let mut languages = Languages::new();
    languages.insert(language("a", &[], &[("one", "1")]));
    languages.insert(language("b", &[], &[]));
    languages.insert(language("a", &[], &[("two", "2")]));
    assert_eq!(languages.len(), 2);
    assert_eq!(rules_of(languages.get(0).unwrap()), vec![("two", "2")]);
    let languages = languages.extended(vec![language("c", &[], &[]), language("b", &["bee"], &[])]);
    assert_eq!(languages.len(), 3);
    assert_eq!(languages.resolve("bee").unwrap().name, "b");
    assert_eq!(languages.get(2).unwrap().name, "c");
}

#[test]
fn load_keeps_baseline_definitions_that_no_override_names() {
    let first = "[python3]\nextensions = []\nonly = \"x\"\n".to_string();
    let second = "[go]\nextensions = [\"go\"]\n".to_string();
    let languages = Languages::load(BASELINE, &vec![first, second]).unwrap();
    assert_eq!(languages.len(), 3);
    let names: Vec<&str> = (0..3).map(|i| languages.get(i).unwrap().name.as_str()).collect();
    assert_eq!(names, vec!["python3", "rust", "go"]);
    let rust = languages.resolve("rust").unwrap();
    assert_eq!(rules_of(rust), vec![("keyword", "fn|let")]);
    assert_eq!(rust.extensions, vec!["rs".to_string(), "rust".to_string()]);
}
