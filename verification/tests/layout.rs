use cstylegen::layout::{
    FlatLayoutItem, Layout, LayoutItem, ParseError, YamlFields, YamlRootFile, YamlStruct,
};
use cstylegen::printer::header::generate_header;
use cstylegen::printer::Printer;

fn fields<'a>(names: Vec<&'a str>) -> YamlStruct<'a> {
    YamlStruct { fields: Some(YamlFields::Sequence(names)), reference: None }
}

fn nested<'a>(items: Vec<(&'a str, Option<YamlStruct<'a>>)>) -> YamlStruct<'a> {
    YamlStruct { fields: Some(YamlFields::Nested(items)), reference: None }
}

fn reference<'a>(name: &'a str) -> YamlStruct<'a> {
    YamlStruct { fields: None, reference: Some(name) }
}

/// The example layout of the README, with maps in the order of the file.
fn readme_yaml() -> YamlRootFile<'static> {
    YamlRootFile {
        definitions: vec![(
            "TabColors",
            nested(vec![("text", None), ("backgrounds", Some(fields(vec!["regular", "hover"])))]),
        )],
        layout: vec![
            ("colors", fields(vec!["accentColor"])),
            (
                "tabs",
                nested(vec![
                    ("border", None),
                    ("dividerLine", None),
                    ("regular", Some(reference("TabColors"))),
                    ("newMessage", Some(reference("TabColors"))),
                ]),
            ),
        ],
    }
}

#[test]
fn parse_readme_layout() {
    let yaml = readme_yaml();
    let layout = Layout::parse(&yaml).unwrap();
    assert_eq!(layout.definitions.len(), 1);
    assert_eq!(layout.definitions[0].0, "TabColors");
    assert_eq!(layout.definitions[0].1.item_count, 3);
    assert_eq!(
        layout.definitions[0].1.fields,
        vec![
            LayoutItem::Field { name: "text" },
            LayoutItem::Struct {
                field_name: "backgrounds",
                fields: vec![LayoutItem::Field { name: "regular" }, LayoutItem::Field { name: "hover" }],
                item_count: 2,
            },
        ]
    );
    assert_eq!(layout.items.len(), 2);
    assert_eq!(layout.items[0].0, "colors");
    assert_eq!(layout.items[1].0, "tabs");
    assert_eq!(
        layout.items[1].1,
        vec![
            LayoutItem::Field { name: "border" },
            LayoutItem::Field { name: "dividerLine" },
            LayoutItem::Ref { field_name: "regular", referenced: "TabColors", item_count: 3 },
            LayoutItem::Ref { field_name: "newMessage", referenced: "TabColors", item_count: 3 },
        ]
    );
    assert_eq!(layout.items[1].1[2].item_count(), 3);
    assert_eq!(layout.items[1].1[0].item_count(), 1);
    assert_eq!(layout.count_items(), 9);
}

#[test]
fn layout_items_are_sorted_by_name() {
    let yaml = YamlRootFile {
        definitions: vec![],
        layout: vec![("zeta", fields(vec!["a"])), ("alpha", fields(vec!["b"])), ("mid", fields(vec![]))],
    };
    let layout = Layout::parse(&yaml).unwrap();
    let names: Vec<&str> = layout.items.iter().map(|(n, _)| *n).collect();
    assert_eq!(names, vec!["alpha", "mid", "zeta"]);
    assert_eq!(layout.count_items(), 2);
}

#[test]
fn flatten_numbers_colors_in_order() {
    let yaml = readme_yaml();
    let layout = Layout::parse(&yaml).unwrap();
    let flat = layout.flatten();
    let tab = |start: usize| {
        vec![
            FlatLayoutItem::Field { name: "text", id: start },
            FlatLayoutItem::Struct {
                name: "backgrounds",
                fields: vec![
                    FlatLayoutItem::Field { name: "regular", id: start + 1 },
                    FlatLayoutItem::Field { name: "hover", id: start + 2 },
                ],
            },
        ]
    };
    assert_eq!(
        flat,
        vec![
            FlatLayoutItem::Struct {
                name: "colors",
                fields: vec![FlatLayoutItem::Field { name: "accentColor", id: 0 }],
            },
            FlatLayoutItem::Struct {
                name: "tabs",
                fields: vec![
                    FlatLayoutItem::Field { name: "border", id: 1 },
                    FlatLayoutItem::Field { name: "dividerLine", id: 2 },
                    FlatLayoutItem::Struct { name: "regular", fields: tab(3) },
                    FlatLayoutItem::Struct { name: "newMessage", fields: tab(6) },
                ],
            },
        ]
    );
}

#[test]
fn parse_missing_reference() {
    let yaml = YamlRootFile {
        definitions: vec![],
        layout: vec![("tabs", nested(vec![("regular", Some(reference("TabColors")))]))],
    };
    let err = Layout::parse(&yaml).unwrap_err();
    assert_eq!(err, ParseError::RefNotFound("TabColors"));
    assert_eq!(err.message(), "Couldn't find definition for 'TabColors'");
}

#[test]
fn parse_reference_to_later_definition() {
    let yaml = YamlRootFile {
        definitions: vec![("A", nested(vec![("b", Some(reference("B")))])), ("B", fields(vec!["x"]))],
        layout: vec![],
    };
    assert_eq!(Layout::parse(&yaml).unwrap_err(), ParseError::RefNotFound("B"));
}

#[test]
fn parse_ref_and_fields() {
    let both = YamlRootFile {
        definitions: vec![],
        layout: vec![(
            "tabs",
            nested(vec![(
                "x",
                Some(YamlStruct { fields: Some(YamlFields::Sequence(vec!["a"])), reference: Some("T") }),
            )]),
        )],
    };
    let err = Layout::parse(&both).unwrap_err();
    assert_eq!(err, ParseError::RefAndFields("x"));
    assert_eq!(err.message(), "Found struct with both 'ref' and 'fields' in x");

    let neither = YamlRootFile {
        definitions: vec![],
        layout: vec![("tabs", YamlStruct { fields: None, reference: None })],
    };
    assert_eq!(Layout::parse(&neither).unwrap_err(), ParseError::RefAndFields("tabs"));
}

#[test]
fn parse_definition_not_struct() {
    let yaml = YamlRootFile {
        definitions: vec![("A", fields(vec!["x"])), ("B", reference("A"))],
        layout: vec![],
    };
    let err = Layout::parse(&yaml).unwrap_err();
    assert_eq!(err, ParseError::DefinitionNotStruct("B"));
    assert_eq!(err.message(), "Definition of B isn't a struct");
}

#[test]
fn parse_layout_not_struct() {
    let yaml = YamlRootFile {
        definitions: vec![("A", fields(vec!["x"]))],
        layout: vec![("top", reference("A"))],
    };
    let err = Layout::parse(&yaml).unwrap_err();
    assert_eq!(err, ParseError::LayoutNotStruct("top"));
    assert_eq!(err.message(), "Layout of top isn't a struct");
}

#[test]
fn serde_error_message() {
    let err = ParseError::Serde("bad yaml".to_owned());
    assert_eq!(err.message(), "Deserialization error: bad yaml");
}

#[test]
fn header_for_readme_layout_keeps_file_order() {
    let yaml = readme_yaml();
    let layout = Layout::parse(&yaml).unwrap();
    let mut p = Printer::new();
    generate_header(&mut p, &layout);
    let expected = "#include <QColor>\n\
#include <QByteArray>\n\
\n\
namespace chatterino::theme {\n\
class GeneratedTheme {\n\
public:\n\
\tstruct TabColors {\n\
\t\tQColor text;\n\
\t\t\n\
\t\tstruct {\n\
\t\t\tQColor regular;\n\
\t\t\tQColor hover;\n\
\t\t} backgrounds;\n\
\t};\n\
\t\n\
\tstruct {\n\
\t\tQColor accentColor;\n\
\t} colors;\n\
\t\n\
\tstruct {\n\
\t\tQColor border;\n\
\t\tQColor dividerLine;\n\
\t\tTabColors regular;\n\
\t\tTabColors newMessage;\n\
\t} tabs;\n\
\tGeneratedTheme();\n\
\n\
protected:\n\
\tbool setColor(const QByteArray &name, QColor color);\n\
\tvoid reset();\n\
\tvoid applyChanges();\n\
\n\
private:\n\
\tQColor colors_[9];\n\
};\n\
}  // namespace chatterino::theme\n";
    assert_eq!(p.text(), expected);
}

/// Definitions `D0`, `D1`, ...: `D0` has two colors, every later one holds
/// the one before it twice.
fn doubling(names: &[String], n: usize) -> Vec<(&str, YamlStruct<'_>)> {
    let mut defs = vec![(names[0].as_str(), fields(vec!["a", "b"]))];
    for i in 1..n {
        defs.push((
            names[i].as_str(),
            nested(vec![("x", Some(reference(names[i - 1].as_str()))), ("y", Some(reference(names[i - 1].as_str())))]),
        ));
    }
    defs
}

#[test]
fn parse_checked_detects_overflow() {
    let names: Vec<String> = (0..64).map(|i| format!("D{i:02}")).collect();
    let fits = YamlRootFile { definitions: doubling(&names, 63), layout: vec![] };
    let layout = Layout::parse_checked(&fits).unwrap().unwrap();
    assert_eq!(layout.definitions.len(), 63);
    let too_many = YamlRootFile { definitions: doubling(&names, 64), layout: vec![] };
    assert!(Layout::parse_checked(&too_many).is_none());
}

#[test]
fn checked_count_items_detects_overflow() {
    let names: Vec<String> = (0..63).map(|i| format!("D{i:02}")).collect();
    let one = YamlRootFile {
        definitions: doubling(&names, 63),
        layout: vec![("t", nested(vec![("a", Some(reference("D62")))]))],
    };
    let layout = Layout::parse(&one).unwrap();
    assert_eq!(layout.checked_count_items(), Some(1usize << 63));
    let two = YamlRootFile {
        definitions: doubling(&names, 63),
        layout: vec![("t", nested(vec![("a", Some(reference("D62")))])), ("u", nested(vec![("b", Some(reference("D62")))]))],
    };
    let layout = Layout::parse(&two).unwrap();
    assert_eq!(layout.checked_count_items(), None);
}
