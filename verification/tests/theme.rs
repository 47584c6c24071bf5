use ahash::AHashMap;
use cstylegen::layout::{Layout, YamlFields, YamlRootFile, YamlStruct};
use cstylegen::model::{ChatterinoMeta, FlattenError, Rgba, Rule, RuleValue, Theme};
use cstylegen::printer::implementation::{generate_impl, uncovered_path};
use cstylegen::printer::theme::{generate, generate_listed};
use cstylegen::printer::Printer;

fn rgba(red: u8, green: u8, blue: u8, alpha: u8) -> Rgba {
    Rgba { red, green, blue, alpha }
}

fn meta() -> ChatterinoMeta {
    ChatterinoMeta { author: "me".to_owned(), icon_set: "light".to_owned() }
}

fn value(name: &str, c: Rgba) -> (String, Rule) {
    (name.to_owned(), Rule::Value(RuleValue::Color(c)))
}

fn var(name: &str, color: &str) -> (String, Rule) {
    (name.to_owned(), Rule::Value(RuleValue::ColorRef(color.to_owned())))
}

fn block(name: &str, rules: Vec<(String, Rule)>) -> (String, Rule) {
    (name.to_owned(), Rule::Nested(rules))
}

fn sample_theme() -> Theme {
    let mut colors = AHashMap::new();
    colors.insert("c".to_owned(), rgba(5, 6, 7, 8));
    Theme {
        meta: meta(),
        colors,
        rules: vec![
            block("colors", vec![value("accentColor", rgba(1, 2, 3, 4))]),
            block("tabs", vec![block("hl", vec![var("a", "c")])]),
        ],
    }
}

#[test]
fn flatten_resolves_paths_and_references() {
    let flat = sample_theme().flatten().unwrap();
    assert_eq!(flat.meta, meta());
    assert_eq!(flat.rules.len(), 2);
    assert_eq!(flat.rules.get("colors.accentcolor"), Some(&rgba(1, 2, 3, 4)));
    assert_eq!(flat.rules.get("tabs.hl.a"), Some(&rgba(5, 6, 7, 8)));
}

#[test]
fn flatten_later_declaration_wins_on_same_path() {
    let theme = Theme {
        meta: meta(),
        colors: AHashMap::new(),
        rules: vec![block("a", vec![value("x", rgba(1, 1, 1, 1))]), block("A", vec![value("X", rgba(2, 2, 2, 2))])],
    };
    let flat = theme.flatten().unwrap();
    assert_eq!(flat.rules.len(), 1);
    assert_eq!(flat.rules.get("a.x"), Some(&rgba(2, 2, 2, 2)));
}

#[test]
fn flatten_missing_color() {
    let theme = Theme {
        meta: meta(),
        colors: AHashMap::new(),
        rules: vec![block("splits", vec![block("header", vec![var("focused-Border", "accent")])])],
    };
    let err = theme.flatten().unwrap_err();
    assert_eq!(err, FlattenError::MissingColor("accent".to_owned(), "splits.header.focusedborder".to_owned()));
    assert_eq!(err.message(), "'accent' was used in splits.header.focusedborder but never defined anywhere.");
}

#[test]
fn theme_file_listed() {
    let mut p = Printer::new();
    let entries = vec![("a.b".to_owned(), rgba(0x12, 0x34, 0x56, 0x78)), ("c".to_owned(), rgba(0, 255, 10, 171))];
    generate_listed(&mut p, &meta(), &entries);
    assert_eq!(p.text(), "@meta\nauthor=me\niconset=light\n@colors\na.b=#78123456\nc=#ab00ff0a\n");
}

#[test]
fn theme_file_lists_every_color_once() {
    let flat = sample_theme().flatten().unwrap();
    let mut p = Printer::new();
    generate(&mut p, &flat);
    let text = p.text();
    assert!(text.starts_with("@meta\nauthor=me\niconset=light\n@colors\n"));
    let mut lines: Vec<&str> = text.lines().skip(4).collect();
    lines.sort();
    assert_eq!(lines, vec!["colors.accentcolor=#04010203", "tabs.hl.a=#08050607"]);
}

#[test]
fn source_file_for_layout_and_theme() {
    let yaml = YamlRootFile {
        definitions: vec![],
        layout: vec![
            ("colors", YamlStruct { fields: Some(YamlFields::Sequence(vec!["accentColor"])), reference: None }),
            (
                "tabs",
                YamlStruct {
                    fields: Some(YamlFields::Nested(vec![(
                        "hl",
                        Some(YamlStruct { fields: Some(YamlFields::Sequence(vec!["a"])), reference: None }),
                    )])),
                    reference: None,
                },
            ),
        ],
    };
    let layout = Layout::parse(&yaml).unwrap();
    let flat = sample_theme().flatten().unwrap();
    let mut p = Printer::new();
    generate_impl(&mut p, &layout, &flat);
    let expected = "#include \"GeneratedTheme.hpp\"\n\
#include <QColor>\n\
#include <QString>\n\
#include <QByteArray>\n\
#include <QMap>\n\
#include <cstring>\n\
\n\
namespace {\n\
\tint getDataIndex(const QByteArray &name);\n\
} //  namespace\n\
namespace chatterino::theme {\n\
GeneratedTheme::GeneratedTheme() {\n\
\tthis->reset();\n\
\tthis->applyChanges();\n\
}\n\
void GeneratedTheme::applyChanges() {\n\
\tconst auto d = [this](size_t i) -> const QColor& { return this->colors_[i]; };\n\
\tthis->colors = {\n\
\t\td(0),\n\
\t};\n\
\tthis->tabs = {\n\
\t\t{\n\
\t\t\td(1),\n\
\t\t},\n\
\t};\n\
\tthis->reset();\n\
}\n\
void GeneratedTheme::reset() {\n\
\tthis->colors_[0] = {1, 2, 3, 4};\n\
\tthis->colors_[1] = {5, 6, 7, 8};\n\
}\n\
bool GeneratedTheme::setColor(const QByteArray &name, QColor color) {\n\
\tauto idx = getDataIndex(name);\n\
\tif (idx < 0) return false;\n\
\tthis->colors_[idx] = color;\n\
\treturn true;\n\
}\n\
} //  namespace chatterino::theme\n\
namespace {\n\
int getDataIndex(const QByteArray &name) {\n\
\tstatic const QMap<QByteArray, size_t> dataMap = {\n\
\t\t{\"colors.accentcolor\", 0},\n\
\t\t{\"tabs.hl.a\", 1},\n\
\t};\n\
\treturn dataMap.value(name, -1);\n\
}\n\
} //  namespace\n";
    assert_eq!(p.text(), expected);
}

#[test]
fn uncovered_paths_are_found() {
    let yaml = YamlRootFile {
        definitions: vec![],
        layout: vec![
            ("colors", YamlStruct { fields: Some(YamlFields::Sequence(vec!["accentColor"])), reference: None }),
            ("tabs", YamlStruct { fields: Some(YamlFields::Sequence(vec!["Missing-One", "other"])), reference: None }),
        ],
    };
    let layout = Layout::parse(&yaml).unwrap();
    let flat = sample_theme().flatten().unwrap();
    assert_eq!(uncovered_path(&layout, &flat), Some("tabs.missingone".to_owned()));

    let covered = YamlRootFile {
        definitions: vec![],
        layout: vec![("colors", YamlStruct { fields: Some(YamlFields::Sequence(vec!["accentColor"])), reference: None })],
    };
    let layout = Layout::parse(&covered).unwrap();
    assert_eq!(uncovered_path(&layout, &flat), None);
}

#[test]
fn top_level_names_are_used_as_they_stand() {
    // the reset statements look colors up under the top-level name as written
    let yaml = YamlRootFile {
        definitions: vec![],
        layout: vec![("Colors", YamlStruct { fields: Some(YamlFields::Sequence(vec!["accentColor"])), reference: None })],
    };
    let layout = Layout::parse(&yaml).unwrap();
    let flat = sample_theme().flatten().unwrap();
    assert_eq!(uncovered_path(&layout, &flat), Some("Colors.accentcolor".to_owned()));
}
