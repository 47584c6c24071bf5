use ahash::AHashMap;
use cstylegen::model::{ChatterinoMeta, Rgba, Rule, RuleValue};
use cstylegen::parse::parsers::{
    build_meta, collect_colors, collect_rules, color_from_parsed, eq_ignore_ascii_case, is_meta_rule,
    is_nest_rule, meta_key, ChatterinoMetaItem, MetaKey, ParseError, ParsedColor, ThemeParserState,
    TopLevelItem,
};

fn rgba(red: u8, green: u8, blue: u8, alpha: u8) -> Rgba {
    Rgba { red, green, blue, alpha }
}

fn meta() -> ChatterinoMeta {
    ChatterinoMeta { author: "me".to_owned(), icon_set: "dark".to_owned() }
}

fn color(c: Rgba) -> Rule {
    Rule::Value(RuleValue::Color(c))
}

#[test]
fn ascii_case_is_ignored() {
    assert!(eq_ignore_ascii_case("NeSt", "nest"));
    assert!(!eq_ignore_ascii_case("nests", "nest"));
    assert!(!eq_ignore_ascii_case("ÄB", "äb"));
    assert!(eq_ignore_ascii_case("", ""));
    assert!(is_nest_rule("NEST"));
    assert!(!is_nest_rule("media"));
    assert!(is_meta_rule("Chatterino"));
    assert!(!is_meta_rule("chatterin"));
}

#[test]
fn meta_keys() {
    assert_eq!(meta_key("Author"), Ok(MetaKey::Author));
    assert_eq!(meta_key("ICON-SET"), Ok(MetaKey::IconSet));
    let err = meta_key("iconset").unwrap_err();
    assert_eq!(err, ParseError::UnexpectedMeta("iconset".to_owned()));
    assert_eq!(err.message(), "Unexpected iconset");
}

#[test]
fn colors_from_parser() {
    assert_eq!(color_from_parsed(ParsedColor::Rgba(rgba(1, 2, 3, 4))), Ok(rgba(1, 2, 3, 4)));
    let current = color_from_parsed(ParsedColor::CurrentColor).unwrap_err();
    assert_eq!(current, ParseError::CurrentColorFound);
    assert_eq!(current.message(), "'currentColor' isn't supported");
    let invalid = color_from_parsed(ParsedColor::Invalid).unwrap_err();
    assert_eq!(invalid, ParseError::ExpectedColorOrVar);
    assert_eq!(invalid.message(), "Expected a color or var(..)");
}

#[test]
fn meta_block_last_item_wins() {
    let items = vec![
        ChatterinoMetaItem::Author("a".to_owned()),
        ChatterinoMetaItem::IconSet("light".to_owned()),
        ChatterinoMetaItem::Author("b".to_owned()),
    ];
    let m = build_meta(&items).unwrap();
    assert_eq!(m.author, "b");
    assert_eq!(m.icon_set, "light");
}

#[test]
fn meta_block_missing_items() {
    let no_author = vec![ChatterinoMetaItem::IconSet("light".to_owned())];
    let err = build_meta(&no_author).unwrap_err();
    assert_eq!(err, ParseError::MissingMetaItem("author"));
    assert_eq!(err.message(), "Missing 'author' in meta");

    let no_icons = vec![ChatterinoMetaItem::Author("a".to_owned())];
    assert_eq!(build_meta(&no_icons).unwrap_err(), ParseError::MissingMetaItem("icon-set"));
    assert_eq!(build_meta(&vec![]).unwrap_err(), ParseError::MissingMetaItem("author"));
}

#[test]
fn rules_of_a_block_later_wins() {
    let rules = collect_rules(vec![
        ("a".to_owned(), color(rgba(1, 1, 1, 1))),
        ("b".to_owned(), color(rgba(2, 2, 2, 2))),
        ("a".to_owned(), color(rgba(3, 3, 3, 3))),
    ]);
    assert_eq!(rules.len(), 2);
    let a = rules.iter().find(|(n, _)| n == "a").unwrap();
    assert_eq!(a.1, color(rgba(3, 3, 3, 3)));
    let b = rules.iter().find(|(n, _)| n == "b").unwrap();
    assert_eq!(b.1, color(rgba(2, 2, 2, 2)));
}

#[test]
fn root_colors_later_wins() {
    let colors = collect_colors(&vec![
        ("x".to_owned(), rgba(1, 1, 1, 1)),
        ("y".to_owned(), rgba(2, 2, 2, 2)),
        ("x".to_owned(), rgba(3, 3, 3, 3)),
    ]);
    assert_eq!(colors.len(), 2);
    assert_eq!(colors.get("x"), Some(&rgba(3, 3, 3, 3)));
    assert_eq!(colors.get("y"), Some(&rgba(2, 2, 2, 2)));
}

#[test]
fn parser_state_builds_theme() {
    let mut state = ThemeParserState::new();
    let mut root = AHashMap::new();
    root.insert("c".to_owned(), rgba(9, 9, 9, 9));
    assert_eq!(state.apply(TopLevelItem::Regular("tabs".to_owned(), Rule::Nested(vec![]))), Ok(()));
    assert_eq!(state.apply(TopLevelItem::Meta(meta())), Ok(()));
    assert_eq!(state.apply(TopLevelItem::Root(root)), Ok(()));
    assert_eq!(state.apply(TopLevelItem::Regular("splits".to_owned(), Rule::Nested(vec![]))), Ok(()));
    let theme = state.finish().unwrap();
    assert_eq!(theme.meta, meta());
    assert_eq!(theme.colors.get("c"), Some(&rgba(9, 9, 9, 9)));
    let names: Vec<&str> = theme.rules.iter().map(|(n, _)| n.as_str()).collect();
    assert_eq!(names, vec!["tabs", "splits"]);
}

#[test]
fn parser_state_without_root_has_no_colors() {
    let mut state = ThemeParserState::new();
    assert_eq!(state.apply(TopLevelItem::Meta(meta())), Ok(()));
    let theme = state.finish().unwrap();
    assert!(theme.colors.is_empty());
    assert!(theme.rules.is_empty());
}

#[test]
fn parser_state_refuses_duplicates() {
    let mut state = ThemeParserState::new();
    assert_eq!(state.apply(TopLevelItem::Meta(meta())), Ok(()));
    let dup_meta = state.apply(TopLevelItem::Meta(meta())).unwrap_err();
    assert_eq!(dup_meta, ParseError::DuplicateMetaBlock);
    assert_eq!(dup_meta.message(), "Found duplicate @chatterino metadata block");

    assert_eq!(state.apply(TopLevelItem::Root(AHashMap::new())), Ok(()));
    let dup_root = state.apply(TopLevelItem::Root(AHashMap::new())).unwrap_err();
    assert_eq!(dup_root, ParseError::DuplicateRootBlock);
    assert_eq!(dup_root.message(), "Found duplicate :root block");

    assert_eq!(state.apply(TopLevelItem::Regular("tabs".to_owned(), Rule::Nested(vec![]))), Ok(()));
    let dup = state.apply(TopLevelItem::Regular("tabs".to_owned(), Rule::Nested(vec![]))).unwrap_err();
    assert_eq!(dup, ParseError::DuplicateBlock("tabs".to_owned()));
    assert_eq!(dup.message(), "Found duplicate block ('tabs')");
    // a name that differs in case is another block
    assert_eq!(state.apply(TopLevelItem::Regular("Tabs".to_owned(), Rule::Nested(vec![]))), Ok(()));
    assert_eq!(state.finish().unwrap().rules.len(), 2);
}

#[test]
fn parser_state_needs_meta() {
    let mut state = ThemeParserState::new();
    assert_eq!(state.apply(TopLevelItem::Root(AHashMap::new())), Ok(()));
    let err = state.finish().unwrap_err();
    assert_eq!(err, ParseError::MissingMetaBlock);
    assert_eq!(err.message(), "Expected a @chatterino metadata block");
}
