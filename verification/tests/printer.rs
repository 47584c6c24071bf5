use cstylegen::helper::fork::Fork;
use cstylegen::printer::key_matcher::print_key_matcher;
use cstylegen::printer::Printer;
use std::collections::BTreeMap;

#[test]
fn printer_indents_lines() {
    let mut p = Printer::new();
    p.write_line("a {");
    p.indent();
    p.write_line("b;");
    p.indent();
    p.write_fmt("c");
    p.write(" d");
    p.end_line();
    p.dedent();
    p.dedent();
    p.write_line("}");
    assert_eq!(p.text(), "a {\n\tb;\n\t\tc d\n}\n");
}

#[test]
fn printer_numbers_and_chars() {
    let mut p = Printer::new();
    p.begin_line();
    p.write_number(0);
    p.write_char(',');
    p.write_number(1234567);
    p.end_line();
    assert_eq!(p.text(), "0,1234567\n");
}

#[test]
fn key_matcher_single_key() {
    let f: Fork<usize> = Fork::End { prefix: b"ab", total_prefix: b"ab", value: 0 };
    let mut p = Printer::new();
    print_key_matcher(&mut p, &f);
    assert_eq!(
        p.text(),
        "int getDataIndex(const QLatin1String &name) {\n\
         \tauto size = name.size();\n\
         \tauto data = name.data();\n\
         \tif (size >= 2) {\n\
         \t\tif (size == 2 && std::memcmp(data + 0, \"ab\", 2) == 0) return 0;\n\
         \t}\n\
         \treturn -1;\n\
         }\n"
    );
}

#[test]
fn key_matcher_switch_and_prefixes() {
    let mut f: Fork<usize> = Fork::new();
    f.insert(b"ab", 1);
    f.insert(b"c", 2);
    f.insert(b"abc", 3);
    let mut items = BTreeMap::new();
    items.insert(
        b'a',
        Fork::Run {
            prefix: b"b",
            min_size: 2,
            remaining: Box::new(Fork::Empty {
                total_prefix: b"ab",
                value: 1,
                remaining: Box::new(Fork::End { prefix: b"c", total_prefix: b"abc", value: 3 }),
            }),
        },
    );
    items.insert(b'c', Fork::End { prefix: b"", total_prefix: b"c", value: 2 });
    assert_eq!(f, Fork::Chaotic { min_size: 1, items });

    let mut p = Printer::new();
    print_key_matcher(&mut p, &f);
    assert_eq!(
        p.text(),
        "int getDataIndex(const QLatin1String &name) {\n\
         \tauto size = name.size();\n\
         \tauto data = name.data();\n\
         \tif (size >= 1) {\n\
         \t\tswitch (data[0]) {\n\
         \t\tcase 'a': {\n\
         \t\t\tif (size >= 2) {\n\
         \t\t\t\tif (std::memcmp(data + 1, \"b\", 1) == 0) {\n\
         \t\t\t\t\tif (size == 2) return 1;\n\
         \t\t\t\t\tif (size >= 3) {\n\
         \t\t\t\t\t\tif (size == 3 && data[2] == 'c') return 3;\n\
         \t\t\t\t\t}\n\
         \t\t\t\t}\n\
         \t\t\t}\n\
         \t\t}\n\
         \t\tbreak;\n\
         \t\tcase 'c': {\n\
         \t\t\tif (size == 1) return 2;\n\
         \t\t}\n\
         \t\tbreak;\n\
         \t\t}\n\
         \t}\n\
         \treturn -1;\n\
         }\n"
    );
}
