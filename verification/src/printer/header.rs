//! Prints `GeneratedTheme.hpp`: the declaration of the `GeneratedTheme`
//! class with one (nested) struct per layout struct.

use crate::layout::{items_model, ItemModel, Layout, LayoutDefinition, LayoutItem};
use crate::printer::{line, Printer};
use crate::text::decimal;
use vstd::prelude::*;

verus! {

/// Every struct in `items`, nested at most `room` levels deeper, fits the indentation.
pub open spec fn nest_fits(items: Seq<ItemModel>, room: int) -> bool
    decreases items, 1nat,
{
    forall|i: int| 0 <= i < items.len() ==> item_nest_fits(#[trigger] items[i], room)
}

/// See [`nest_fits`].
pub open spec fn item_nest_fits(item: ItemModel, room: int) -> bool
    decreases item, 0nat,
{
    match item {
        ItemModel::Struct { fields, .. } => room >= 1 && nest_fits(fields, room - 1),
        _ => true,
    }
}

/// The declarations of `fields` at indentation `depth`.
pub open spec fn fields_text(fields: Seq<ItemModel>, depth: nat) -> Seq<char>
    decreases fields, 1nat,
{
    if fields.len() == 0 {
        Seq::empty()
    } else {
        fields_text(fields.drop_last(), depth) + field_text(fields.last(), depth)
    }
}

/// The declaration of one field at indentation `depth`.
pub open spec fn field_text(item: ItemModel, depth: nat) -> Seq<char>
    decreases item, 0nat,
{
    match item {
        ItemModel::Ref { field_name, referenced, .. } => line(depth, referenced + " "@ + field_name + ";"@),
        ItemModel::Field { name } => line(depth, "QColor "@ + name + ";"@),
        ItemModel::Struct { field_name, fields, .. } => line(depth, ""@) + line(depth, "struct {"@)
            + fields_text(fields, depth + 1) + line(depth, "} "@ + field_name + ";"@),
    }
}

/// The named struct definitions at indentation `depth`.
pub open spec fn defs_text<'a>(defs: Seq<(&'a str, LayoutDefinition<'a>)>, depth: nat) -> Seq<char>
    decreases defs.len(),
{
    if defs.len() == 0 {
        Seq::empty()
    } else {
        let (name, def) = defs.last();
        defs_text(defs.drop_last(), depth) + line(depth, "struct "@ + name@ + " {"@) + fields_text(
            items_model(def.fields@),
            depth + 1,
        ) + line(depth, "};"@)
    }
}

/// The anonymous top-level structs at indentation `depth`.
pub open spec fn tops_text<'a>(tops: Seq<(&'a str, Vec<LayoutItem<'a>>)>, depth: nat) -> Seq<char>
    decreases tops.len(),
{
    if tops.len() == 0 {
        Seq::empty()
    } else {
        let (name, fields) = tops.last();
        tops_text(tops.drop_last(), depth) + field_text(
            ItemModel::Struct { field_name: name@, fields: items_model(fields@), item_count: 0 },
            depth,
        )
    }
}

/// The declarations of two lists of fields, one after the other, are the
/// declarations of the first list followed by those of the second.
pub proof fn lemma_fields_text_add(a: Seq<ItemModel>, b: Seq<ItemModel>, depth: nat)
    ensures
        fields_text(a + b, depth) == fields_text(a, depth) + fields_text(b, depth),
    decreases b.len(),
{
    if b.len() == 0 {
        assert(a + b =~= a);
        assert(fields_text(a, depth) + fields_text(b, depth) =~= fields_text(a, depth));
    } else {
        lemma_fields_text_add(a, b.drop_last(), depth);
        assert((a + b).drop_last() =~= a + b.drop_last());
        assert((a + b).last() == b.last());
        assert(fields_text(a + b, depth) =~= fields_text(a, depth) + fields_text(b, depth));
    }
}

/// Every field is declared once, in order: the declaration of the `i`-th
/// field stands after those of the fields before it and before those of
/// the fields after it.
pub proof fn lemma_fields_text_at(fields: Seq<ItemModel>, depth: nat, i: int)
    requires
        0 <= i < fields.len(),
    ensures
        fields_text(fields, depth) == fields_text(fields.take(i), depth) + field_text(fields[i], depth)
            + fields_text(fields.skip(i + 1), depth),
{
    let one = seq![fields[i]];
    assert(fields =~= fields.take(i) + (one + fields.skip(i + 1)));
    lemma_fields_text_add(fields.take(i), one + fields.skip(i + 1), depth);
    lemma_fields_text_add(one, fields.skip(i + 1), depth);
    assert(one.drop_last() =~= Seq::<ItemModel>::empty());
    assert(one.last() == fields[i]);
    assert(fields_text(one.drop_last(), depth) == Seq::<char>::empty());
    assert(fields_text(one, depth) =~= field_text(fields[i], depth));
    assert(fields_text(fields, depth) =~= fields_text(fields.take(i), depth) + field_text(fields[i], depth)
        + fields_text(fields.skip(i + 1), depth));
}

/// The definitions of two lists of named structs, one after the other, are
/// the definitions of the first list followed by those of the second.
pub proof fn lemma_defs_text_add<'a>(
    a: Seq<(&'a str, LayoutDefinition<'a>)>,
    b: Seq<(&'a str, LayoutDefinition<'a>)>,
    depth: nat,
)
    ensures
        defs_text(a + b, depth) == defs_text(a, depth) + defs_text(b, depth),
    decreases b.len(),
{
    if b.len() == 0 {
        assert(a + b =~= a);
        assert(defs_text(a, depth) + defs_text(b, depth) =~= defs_text(a, depth));
    } else {
        lemma_defs_text_add(a, b.drop_last(), depth);
        assert((a + b).drop_last() =~= a + b.drop_last());
        assert((a + b).last() == b.last());
        assert(defs_text(a + b, depth) =~= defs_text(a, depth) + defs_text(b, depth));
    }
}

/// Every named definition is declared, once and in order: the `i`-th
/// definition `(n, d)` is printed as the line `struct n {`, the
/// declarations of `d`'s fields one level deeper and the line `};`, after
/// the definitions before it and before those after it.
pub proof fn lemma_defs_text_at<'a>(defs: Seq<(&'a str, LayoutDefinition<'a>)>, depth: nat, i: int)
    requires
        0 <= i < defs.len(),
    ensures
        defs_text(defs, depth) == defs_text(defs.take(i), depth) + line(depth, "struct "@ + defs[i].0@ + " {"@)
            + fields_text(items_model(defs[i].1.fields@), depth + 1) + line(depth, "};"@) + defs_text(
            defs.skip(i + 1),
            depth,
        ),
{
    let one = seq![defs[i]];
    assert(defs =~= defs.take(i) + (one + defs.skip(i + 1)));
    lemma_defs_text_add(defs.take(i), one + defs.skip(i + 1), depth);
    lemma_defs_text_add(one, defs.skip(i + 1), depth);
    assert(one.drop_last() =~= Seq::<(&'a str, LayoutDefinition<'a>)>::empty());
    assert(one.last() == defs[i]);
    assert(defs_text(one.drop_last(), depth) == Seq::<char>::empty());
    let mid = line(depth, "struct "@ + defs[i].0@ + " {"@) + fields_text(items_model(defs[i].1.fields@), depth + 1)
        + line(depth, "};"@);
    assert(defs_text(one, depth) =~= mid);
    assert(defs_text(defs, depth) =~= defs_text(defs.take(i), depth) + mid + defs_text(defs.skip(i + 1), depth));
}

/// The structs of two lists of top-level structs, one after the other, are
/// those of the first list followed by those of the second.
pub proof fn lemma_tops_text_add<'a>(
    a: Seq<(&'a str, Vec<LayoutItem<'a>>)>,
    b: Seq<(&'a str, Vec<LayoutItem<'a>>)>,
    depth: nat,
)
    ensures
        tops_text(a + b, depth) == tops_text(a, depth) + tops_text(b, depth),
    decreases b.len(),
{
    if b.len() == 0 {
        assert(a + b =~= a);
        assert(tops_text(a, depth) + tops_text(b, depth) =~= tops_text(a, depth));
    } else {
        lemma_tops_text_add(a, b.drop_last(), depth);
        assert((a + b).drop_last() =~= a + b.drop_last());
        assert((a + b).last() == b.last());
        assert(tops_text(a + b, depth) =~= tops_text(a, depth) + tops_text(b, depth));
    }
}

/// Every top-level struct is declared once, in order: the `i`-th, named
/// `n`, is printed as an anonymous struct with `n`'s fields, of the member
/// name `n`, after the structs before it and before those after it.
pub proof fn lemma_tops_text_at<'a>(tops: Seq<(&'a str, Vec<LayoutItem<'a>>)>, depth: nat, i: int)
    requires
        0 <= i < tops.len(),
    ensures
        tops_text(tops, depth) == tops_text(tops.take(i), depth) + line(depth, ""@) + line(depth, "struct {"@)
            + fields_text(items_model(tops[i].1@), depth + 1) + line(depth, "} "@ + tops[i].0@ + ";"@)
            + tops_text(tops.skip(i + 1), depth),
{
    let one = seq![tops[i]];
    assert(tops =~= tops.take(i) + (one + tops.skip(i + 1)));
    lemma_tops_text_add(tops.take(i), one + tops.skip(i + 1), depth);
    lemma_tops_text_add(one, tops.skip(i + 1), depth);
    assert(one.drop_last() =~= Seq::<(&'a str, Vec<LayoutItem<'a>>)>::empty());
    assert(one.last() == tops[i]);
    assert(tops_text(one.drop_last(), depth) == Seq::<char>::empty());
    let mid = line(depth, ""@) + line(depth, "struct {"@) + fields_text(items_model(tops[i].1@), depth + 1)
        + line(depth, "} "@ + tops[i].0@ + ";"@);
    assert(tops_text(one, depth) =~= mid);
    assert(tops_text(tops, depth) =~= tops_text(tops.take(i), depth) + mid + tops_text(tops.skip(i + 1), depth));
}

/// The whole header for `layout`, printed at indentation `depth`.
pub open spec fn header_text<'a>(layout: &Layout<'a>, depth: nat) -> Seq<char> {
    line(depth, "#include <QColor>"@) + line(depth, "#include <QByteArray>"@) + line(depth, ""@)
        + line(depth, "namespace chatterino::theme {"@) + line(depth, "class GeneratedTheme {"@)
        + line(depth, "public:"@) + defs_text(layout.definitions@, depth + 1) + tops_text(
        layout.items@,
        depth + 1,
    ) + tail_text(layout.total(), depth)
}

/// Prints the declaration of one field.
fn write_struct_field<'a>(p: &mut Printer, field: &LayoutItem<'a>)
    requires
        item_nest_fits(field.model(), usize::MAX - old(p).depth()),
    ensures
        final(p).depth() == old(p).depth(),
        final(p).output() == old(p).output() + field_text(field.model(), old(p).depth()),
    decreases field, 0nat,
{
    let ghost start = p.output();
    match field {
        LayoutItem::Ref { field_name, referenced, .. } => {
            p.write_fmt(referenced);
            p.write(" ");
            p.write(field_name);
            p.write(";");
            p.end_line();
        },
        LayoutItem::Field { name } => {
            p.write_fmt("QColor ");
            p.write(name);
            p.write(";");
            p.end_line();
        },
        LayoutItem::Struct { field_name, fields, .. } => {
            proof {
                crate::layout::lemma_struct_model(*field);
                assert(decreases_to!(*field => *fields));
                assert(decreases_to!(*fields => fields@));
            }
            write_struct(p, field_name, fields.as_slice());
        },
    }
    assert(p.output() =~= start + field_text(field.model(), old(p).depth()));
}

/// Prints an anonymous struct named `struct_name`, preceded by an empty line.
fn write_struct<'a>(p: &mut Printer, struct_name: &str, fields: &[LayoutItem<'a>])
    requires
        usize::MAX - old(p).depth() >= 1,
        nest_fits(items_model(fields@), usize::MAX - old(p).depth() - 1),
    ensures
        final(p).depth() == old(p).depth(),
        final(p).output() == old(p).output() + field_text(
            ItemModel::Struct { field_name: struct_name@, fields: items_model(fields@), item_count: 0 },
            old(p).depth(),
        ),
    decreases fields@, 1nat,
{
    let ghost start = p.output();
    let ghost depth = p.depth();
    let ghost model = items_model(fields@);
    p.write_line("");
    p.write_line("struct {");
    p.indent();
    let ghost mid = p.output();
    let mut k: usize = 0;
    while k < fields.len()
        invariant
            k <= fields@.len(),
            p.depth() == depth + 1,
            model == items_model(fields@),
            nest_fits(model, usize::MAX - depth - 1),
            p.output() == mid + fields_text(model.take(k as int), depth + 1),
        decreases fields@.len() - k,
    {
        proof {
            assert(model.take(k + 1).drop_last() =~= model.take(k as int));
            assert(model[k as int] == fields@[k as int].model());
            assert(item_nest_fits(model[k as int], usize::MAX - depth - 1));
            assert(decreases_to!(fields@ => fields@[k as int]));
        }
        write_struct_field(p, &fields[k]);
        k = k + 1;
    }
    assert(model.take(k as int) =~= model);
    p.dedent();
    p.write_fmt("} ");
    p.write(struct_name);
    p.write(";");
    p.end_line();
    assert(p.output() =~= start + field_text(
        ItemModel::Struct { field_name: struct_name@, fields: model, item_count: 0 },
        depth,
    ));
}


/// Every struct of the layout fits the indentation when printed at `depth`.
pub open spec fn header_fits<'a>(layout: &Layout<'a>, depth: nat) -> bool {
    &&& depth + 2 <= usize::MAX
    &&& forall|i: int| #![trigger layout.definitions@[i]]
        0 <= i < layout.definitions@.len() ==> nest_fits(
            items_model(layout.definitions@[i].1.fields@),
            usize::MAX - depth - 2,
        )
    &&& forall|i: int| #![trigger layout.items@[i]]
        0 <= i < layout.items@.len() ==> nest_fits(
            items_model(layout.items@[i].1@),
            usize::MAX - depth - 2,
        )
}

/// Prints the named struct definitions of `layout`.
fn write_definitions<'a>(p: &mut Printer, layout: &Layout<'a>)
    requires
        old(p).depth() >= 1,
        header_fits(layout, (old(p).depth() - 1) as nat),
    ensures
        final(p).depth() == old(p).depth(),
        final(p).output() == old(p).output() + defs_text(layout.definitions@, old(p).depth()),
{
    let ghost depth = p.depth();
    let ghost at_defs = p.output();
    let mut k: usize = 0;
    while k < layout.definitions.len()
        invariant
            k <= layout.definitions@.len(),
            p.depth() == depth,
            depth >= 1,
            header_fits(layout, (depth - 1) as nat),
            p.output() == at_defs + defs_text(layout.definitions@.take(k as int), depth),
        decreases layout.definitions@.len() - k,
    {
        let (name, def) = &layout.definitions[k];
        proof {
            assert(layout.definitions@.take(k + 1).drop_last() =~= layout.definitions@.take(k as int));
            assert(layout.definitions@.take(k + 1).last() == layout.definitions@[k as int]);
        }
        p.write_fmt("struct ");
        p.write(name);
        p.write(" {");
        p.end_line();
        p.indent();
        let ghost mid = p.output();
        let ghost model = items_model(def.fields@);
        let mut j: usize = 0;
        while j < def.fields.len()
            invariant
                j <= def.fields@.len(),
                p.depth() == depth + 1,
                model == items_model(def.fields@),
                nest_fits(model, usize::MAX - depth - 1),
                p.output() == mid + fields_text(model.take(j as int), depth + 1),
            decreases def.fields@.len() - j,
        {
            proof {
                assert(model.take(j + 1).drop_last() =~= model.take(j as int));
                assert(model[j as int] == def.fields@[j as int].model());
                assert(item_nest_fits(model[j as int], usize::MAX - depth - 1));
            }
            write_struct_field(p, &def.fields[j]);
            j = j + 1;
        }
        assert(model.take(j as int) =~= model);
        p.dedent();
        p.write_line("};");
        assert(p.output() =~= at_defs + defs_text(layout.definitions@.take(k + 1), depth));
        k = k + 1;
    }
    assert(layout.definitions@.take(k as int) =~= layout.definitions@);
}

/// Prints the anonymous top-level structs of `layout`.
fn write_tops<'a>(p: &mut Printer, layout: &Layout<'a>)
    requires
        old(p).depth() >= 1,
        header_fits(layout, (old(p).depth() - 1) as nat),
    ensures
        final(p).depth() == old(p).depth(),
        final(p).output() == old(p).output() + tops_text(layout.items@, old(p).depth()),
{
    let ghost depth = p.depth();
    let ghost at_tops = p.output();
    let mut k: usize = 0;
    while k < layout.items.len()
        invariant
            k <= layout.items@.len(),
            p.depth() == depth,
            depth >= 1,
            header_fits(layout, (depth - 1) as nat),
            p.output() == at_tops + tops_text(layout.items@.take(k as int), depth),
        decreases layout.items@.len() - k,
    {
        let (name, fields) = &layout.items[k];
        proof {
            assert(layout.items@.take(k + 1).drop_last() =~= layout.items@.take(k as int));
            assert(layout.items@.take(k + 1).last() == layout.items@[k as int]);
        }
        write_struct(p, name, fields.as_slice());
        k = k + 1;
    }
    assert(layout.items@.take(k as int) =~= layout.items@);
}

/// The end of the class declaration, printed at indentation `depth`, for `count` colors.
pub open spec fn tail_text(count: nat, depth: nat) -> Seq<char> {
    line(depth + 1, "GeneratedTheme();"@) + line(depth, ""@) + line(depth, "protected:"@)
        + line(depth + 1, "bool setColor(const QByteArray &name, QColor color);"@) + line(
        depth + 1,
        "void reset();"@,
    ) + line(depth + 1, "void applyChanges();"@) + line(depth, ""@) + line(depth, "private:"@)
        + line(depth + 1, "QColor colors_["@ + decimal(count) + "];"@) + line(depth, "};"@)
        + line(depth, "}  // namespace chatterino::theme"@)
}

/// Prints the end of the class declaration for `count` colors; the
/// printer is one level inside the class.
#[verifier::rlimit(50)]
fn write_tail(p: &mut Printer, count: usize)
    requires
        old(p).depth() >= 1,
    ensures
        final(p).depth() == old(p).depth() - 1,
        final(p).output() == old(p).output() + tail_text(count as nat, (old(p).depth() - 1) as nat),
{
    let ghost start = p.output();
    let ghost depth = (p.depth() - 1) as nat;
    p.write_line("GeneratedTheme();");
    p.dedent();
    p.write_line("");
    p.write_line("protected:");
    let ghost s1 = p.output();
    assert(s1 =~= start + (line(depth + 1, "GeneratedTheme();"@) + line(depth, ""@) + line(depth, "protected:"@)));
    p.indent();
    p.write_line("bool setColor(const QByteArray &name, QColor color);");
    p.write_line("void reset();");
    p.write_line("void applyChanges();");
    p.dedent();
    let ghost s2 = p.output();
    assert(s2 =~= s1 + (line(depth + 1, "bool setColor(const QByteArray &name, QColor color);"@) + line(
        depth + 1,
        "void reset();"@,
    ) + line(depth + 1, "void applyChanges();"@)));
    p.write_line("");
    p.write_line("private:");
    p.indent();
    p.write_fmt("QColor colors_[");
    p.write_number(count);
    p.write("];");
    p.end_line();
    p.dedent();
    let ghost s3 = p.output();
    assert(s3 =~= s2 + (line(depth, ""@) + line(depth, "private:"@) + line(depth + 1, "QColor colors_["@ + decimal(count as nat) + "];"@)));
    p.write_line("};");
    p.write_line("}  // namespace chatterino::theme");
    assert(p.output() =~= s3 + (line(depth, "};"@) + line(depth, "}  // namespace chatterino::theme"@)));
    assert(p.output() =~= start + tail_text(count as nat, depth));
}

/// Prints the declaration of the `GeneratedTheme` class for `layout`.
#[verifier::rlimit(40)]
pub fn generate_header<'a>(p: &mut Printer, layout: &Layout<'a>)
    requires
        layout.well_formed(),
        layout.total() <= usize::MAX,
        header_fits(layout, old(p).depth()),
    ensures
        final(p).depth() == old(p).depth(),
        final(p).output() == old(p).output() + header_text(layout, old(p).depth()),
{
    let ghost start = p.output();
    let ghost depth = p.depth();
    p.write_line("#include <QColor>");
    p.write_line("#include <QByteArray>");
    p.write_line("");

    p.write_line("namespace chatterino::theme {");

    p.write_line("class GeneratedTheme {");
    p.write_line("public:");
    p.indent();
    let ghost part1 = p.output();

    write_definitions(p, layout);
    write_tops(p, layout);
    let ghost part2 = p.output();

    let count = layout.count_items();
    write_tail(p, count);
    assert(part1 =~= start + line(depth, "#include <QColor>"@) + line(depth, "#include <QByteArray>"@) + line(depth, ""@)
        + line(depth, "namespace chatterino::theme {"@) + line(depth, "class GeneratedTheme {"@)
        + line(depth, "public:"@));
    assert(part2 =~= part1 + defs_text(layout.definitions@, depth + 1) + tops_text(layout.items@, depth + 1));
    assert(p.output() =~= start + header_text(layout, depth));
}
} // verus!
