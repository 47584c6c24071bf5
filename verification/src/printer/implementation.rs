//! Prints `GeneratedTheme.cpp`: the constructor, `applyChanges` (which
//! hands every struct of the class its colors), `reset` (which stores the
//! default theme's colors) and the map from dotted paths to color indices.

use crate::combinator::{combine_path, spec_combine_path};
use crate::layout::{
    flat_models, ids, ids_seq, lemma_flat_struct_model, lemma_flatten_numbers_colors, numbers,
    FlatLayoutItem, FlatModel, Layout,
};
use crate::model::{color_entries, color_map_get, FlatTheme, Rgba};
use crate::printer::{line, Printer};
use crate::text::decimal;
use vstd::prelude::*;

verus! {

/// Every struct in `fs`, nested at most `room` levels deeper, fits the indentation.
pub open spec fn flat_nest_fits(fs: Seq<FlatModel>, room: int) -> bool
    decreases fs, 1nat,
{
    forall|i: int| 0 <= i < fs.len() ==> flat_item_fits(#[trigger] fs[i], room)
}

/// See [`flat_nest_fits`].
pub open spec fn flat_item_fits(f: FlatModel, room: int) -> bool
    decreases f, 0nat,
{
    match f {
        FlatModel::Struct { fields, .. } => room >= 1 && flat_nest_fits(fields, room - 1),
        _ => true,
    }
}

/// Every color of `f`, under `prefix`, has a color in `colors`.
pub open spec fn covered(prefix: Seq<char>, f: FlatModel, colors: Map<Seq<char>, Rgba>) -> bool
    decreases f, 0nat,
{
    match f {
        FlatModel::Field { name, .. } => colors.contains_key(spec_combine_path(prefix, name)),
        FlatModel::Struct { name, fields } => fields_covered(
            spec_combine_path(prefix, name),
            fields,
            colors,
        ),
    }
}

/// Every color of `fs`, under `prefix`, has a color in `colors`.
pub open spec fn fields_covered(prefix: Seq<char>, fs: Seq<FlatModel>, colors: Map<Seq<char>, Rgba>) -> bool
    decreases fs, 1nat,
{
    forall|i: int| 0 <= i < fs.len() ==> covered(prefix, #[trigger] fs[i], colors)
}

/// The values that `applyChanges` hands to `f`, at indentation `depth`.
pub open spec fn apply_text(f: FlatModel, depth: nat) -> Seq<char>
    decreases f, 0nat,
{
    match f {
        FlatModel::Field { id, .. } => line(depth, "d("@ + decimal(id) + "),"@),
        FlatModel::Struct { fields, .. } => line(depth, "{"@) + apply_fields_text(fields, depth + 1)
            + line(depth, "},"@),
    }
}

/// The values of the fields `fs`, at indentation `depth`.
pub open spec fn apply_fields_text(fs: Seq<FlatModel>, depth: nat) -> Seq<char>
    decreases fs, 1nat,
{
    if fs.len() == 0 {
        Seq::empty()
    } else {
        apply_fields_text(fs.drop_last(), depth) + apply_text(fs.last(), depth)
    }
}

/// The values of two lists of fields, one after the other, are the values
/// of the first list followed by those of the second.
pub proof fn lemma_apply_fields_text_add(a: Seq<FlatModel>, b: Seq<FlatModel>, depth: nat)
    ensures
        apply_fields_text(a + b, depth) == apply_fields_text(a, depth) + apply_fields_text(b, depth),
    decreases b.len(),
{
    if b.len() == 0 {
        assert(a + b =~= a);
        assert(apply_fields_text(a, depth) + apply_fields_text(b, depth) =~= apply_fields_text(a, depth));
    } else {
        lemma_apply_fields_text_add(a, b.drop_last(), depth);
        assert((a + b).drop_last() =~= a + b.drop_last());
        assert((a + b).last() == b.last());
        assert(apply_fields_text(a + b, depth) =~= apply_fields_text(a, depth) + apply_fields_text(b, depth));
    }
}

/// In the values of a list of fields, the values of the `i`-th field stand
/// after those of every field before it and before those of every field
/// after it: the fields are handed their values in declaration order.
pub proof fn lemma_apply_fields_text_at(fs: Seq<FlatModel>, depth: nat, i: int)
    requires
        0 <= i < fs.len(),
    ensures
        apply_fields_text(fs, depth) == apply_fields_text(fs.take(i), depth) + apply_text(fs[i], depth)
            + apply_fields_text(fs.skip(i + 1), depth),
{
    let one = seq![fs[i]];
    assert(fs =~= fs.take(i) + (one + fs.skip(i + 1)));
    lemma_apply_fields_text_add(fs.take(i), one + fs.skip(i + 1), depth);
    lemma_apply_fields_text_add(one, fs.skip(i + 1), depth);
    assert(one.drop_last() =~= Seq::<FlatModel>::empty());
    assert(one.last() == fs[i]);
    assert(apply_fields_text(one.drop_last(), depth) == Seq::<char>::empty());
    assert(apply_fields_text(one, depth) =~= apply_text(fs[i], depth));
    assert(apply_fields_text(fs, depth) =~= apply_fields_text(fs.take(i), depth) + apply_text(fs[i], depth)
        + apply_fields_text(fs.skip(i + 1), depth));
}

/// The assignments of the top-level structs `tops`, at indentation `depth`.
pub open spec fn apply_tops_text(tops: Seq<FlatModel>, depth: nat) -> Seq<char>
    decreases tops.len(),
{
    if tops.len() == 0 {
        Seq::empty()
    } else {
        apply_tops_text(tops.drop_last(), depth) + match tops.last() {
            FlatModel::Struct { name, fields } => line(depth, "this->"@ + name + " = {"@)
                + apply_fields_text(fields, depth + 1) + line(depth, "};"@),
            _ => Seq::empty(),
        }
    }
}

/// The assignments of two lists of top-level structs, one after the other,
/// are those of the first list followed by those of the second.
pub proof fn lemma_apply_tops_text_add(a: Seq<FlatModel>, b: Seq<FlatModel>, depth: nat)
    ensures
        apply_tops_text(a + b, depth) == apply_tops_text(a, depth) + apply_tops_text(b, depth),
    decreases b.len(),
{
    if b.len() == 0 {
        assert(a + b =~= a);
        assert(apply_tops_text(a, depth) + apply_tops_text(b, depth) =~= apply_tops_text(a, depth));
    } else {
        lemma_apply_tops_text_add(a, b.drop_last(), depth);
        assert((a + b).drop_last() =~= a + b.drop_last());
        assert((a + b).last() == b.last());
        assert(apply_tops_text(a + b, depth) =~= apply_tops_text(a, depth) + apply_tops_text(b, depth));
    }
}

/// In `applyChanges`, the `i`-th top-level struct is assigned after every
/// struct before it and before every struct after it; a struct named `n`
/// with the fields `fs` is assigned by `this->n = {`, the values of `fs` in
/// order and `};`.
pub proof fn lemma_apply_tops_text_at(tops: Seq<FlatModel>, depth: nat, i: int)
    requires
        0 <= i < tops.len(),
    ensures
        apply_tops_text(tops, depth) == apply_tops_text(tops.take(i), depth) + match tops[i] {
            FlatModel::Struct { name, fields } => line(depth, "this->"@ + name + " = {"@)
                + apply_fields_text(fields, depth + 1) + line(depth, "};"@),
            _ => Seq::empty(),
        } + apply_tops_text(tops.skip(i + 1), depth),
{
    let one = seq![tops[i]];
    assert(tops =~= tops.take(i) + (one + tops.skip(i + 1)));
    lemma_apply_tops_text_add(tops.take(i), one + tops.skip(i + 1), depth);
    lemma_apply_tops_text_add(one, tops.skip(i + 1), depth);
    assert(one.drop_last() =~= Seq::<FlatModel>::empty());
    assert(one.last() == tops[i]);
    assert(apply_tops_text(one.drop_last(), depth) == Seq::<char>::empty());
    let mid = match tops[i] {
        FlatModel::Struct { name, fields } => line(depth, "this->"@ + name + " = {"@)
            + apply_fields_text(fields, depth + 1) + line(depth, "};"@),
        _ => Seq::empty(),
    };
    assert(apply_tops_text(one, depth) =~= mid);
    assert(apply_tops_text(tops, depth) =~= apply_tops_text(tops.take(i), depth) + mid
        + apply_tops_text(tops.skip(i + 1), depth));
}

/// The statement of `reset` that stores the color `c` at index `id`.
pub open spec fn reset_line(id: nat, c: Rgba, depth: nat) -> Seq<char> {
    line(
        depth,
        "this->colors_["@ + decimal(id) + "] = {"@ + decimal(c.red as nat) + ", "@ + decimal(
            c.green as nat,
        ) + ", "@ + decimal(c.blue as nat) + ", "@ + decimal(c.alpha as nat) + "};"@,
    )
}

/// The statements of `reset` for `f` under `prefix`.
pub open spec fn reset_text(prefix: Seq<char>, f: FlatModel, colors: Map<Seq<char>, Rgba>, depth: nat) -> Seq<char>
    decreases f, 0nat,
{
    match f {
        FlatModel::Field { name, id } => reset_line(id, colors[spec_combine_path(prefix, name)], depth),
        FlatModel::Struct { name, fields } => reset_fields_text(
            spec_combine_path(prefix, name),
            fields,
            colors,
            depth,
        ),
    }
}

/// The statements of `reset` for the fields `fs` under `prefix`.
pub open spec fn reset_fields_text(
    prefix: Seq<char>,
    fs: Seq<FlatModel>,
    colors: Map<Seq<char>, Rgba>,
    depth: nat,
) -> Seq<char>
    decreases fs, 1nat,
{
    if fs.len() == 0 {
        Seq::empty()
    } else {
        reset_fields_text(prefix, fs.drop_last(), colors, depth) + reset_text(
            prefix,
            fs.last(),
            colors,
            depth,
        )
    }
}

/// The statements of `reset` for the top-level structs `tops`; a top-level
/// struct's name is the prefix of its fields as it stands.
pub open spec fn reset_tops_text(tops: Seq<FlatModel>, colors: Map<Seq<char>, Rgba>, depth: nat) -> Seq<char>
    decreases tops.len(),
{
    if tops.len() == 0 {
        Seq::empty()
    } else {
        reset_tops_text(tops.drop_last(), colors, depth) + match tops.last() {
            FlatModel::Struct { name, fields } => reset_fields_text(name, fields, colors, depth),
            _ => Seq::empty(),
        }
    }
}

/// The paths and color indices of `f` under `prefix`, in order.
pub open spec fn reset_paths(prefix: Seq<char>, f: FlatModel) -> Seq<(Seq<char>, nat)>
    decreases f, 0nat,
{
    match f {
        FlatModel::Field { name, id } => seq![(spec_combine_path(prefix, name), id)],
        FlatModel::Struct { name, fields } => fields_paths(spec_combine_path(prefix, name), fields),
    }
}

/// The paths and color indices of the fields `fs` under `prefix`, in order.
pub open spec fn fields_paths(prefix: Seq<char>, fs: Seq<FlatModel>) -> Seq<(Seq<char>, nat)>
    decreases fs, 1nat,
{
    if fs.len() == 0 {
        Seq::empty()
    } else {
        fields_paths(prefix, fs.drop_last()) + reset_paths(prefix, fs.last())
    }
}

/// The paths and color indices of the top-level structs `tops`, in order.
pub open spec fn tops_paths(tops: Seq<FlatModel>) -> Seq<(Seq<char>, nat)>
    decreases tops.len(),
{
    if tops.len() == 0 {
        Seq::empty()
    } else {
        tops_paths(tops.drop_last()) + match tops.last() {
            FlatModel::Struct { name, fields } => fields_paths(name, fields),
            _ => Seq::empty(),
        }
    }
}

/// The mathematical value of a list of paths and color indices.
pub open spec fn paths_model(v: Seq<(String, usize)>) -> Seq<(Seq<char>, nat)> {
    v.map_values(|e: (String, usize)| (e.0@, e.1 as nat))
}

/// The entries of the map from paths to color indices, at indentation `depth`.
pub open spec fn data_map_text(paths: Seq<(Seq<char>, nat)>, depth: nat) -> Seq<char>
    decreases paths.len(),
{
    if paths.len() == 0 {
        Seq::empty()
    } else {
        data_map_text(paths.drop_last(), depth) + line(
            depth,
            "{\""@ + paths.last().0 + "\", "@ + decimal(paths.last().1) + "},"@,
        )
    }
}

/// The entries of two lists of paths, one after the other, are the entries
/// of the first list followed by those of the second.
pub proof fn lemma_data_map_text_add(a: Seq<(Seq<char>, nat)>, b: Seq<(Seq<char>, nat)>, depth: nat)
    ensures
        data_map_text(a + b, depth) == data_map_text(a, depth) + data_map_text(b, depth),
    decreases b.len(),
{
    if b.len() == 0 {
        assert(a + b =~= a);
        assert(data_map_text(a, depth) + data_map_text(b, depth) =~= data_map_text(a, depth));
    } else {
        lemma_data_map_text_add(a, b.drop_last(), depth);
        assert((a + b).drop_last() =~= a + b.drop_last());
        assert((a + b).last() == b.last());
        assert(data_map_text(a + b, depth) =~= data_map_text(a, depth) + data_map_text(b, depth));
    }
}

/// The map from paths to color indices holds one entry per path, in order:
/// the `i`-th entry, `{"path", index},`, stands after the entries of the
/// paths before it and before those of the paths after it.
pub proof fn lemma_data_map_text_at(paths: Seq<(Seq<char>, nat)>, depth: nat, i: int)
    requires
        0 <= i < paths.len(),
    ensures
        data_map_text(paths, depth) == data_map_text(paths.take(i), depth) + line(
            depth,
            "{\""@ + paths[i].0 + "\", "@ + decimal(paths[i].1) + "},"@,
        ) + data_map_text(paths.skip(i + 1), depth),
{
    let one = seq![paths[i]];
    assert(paths =~= paths.take(i) + (one + paths.skip(i + 1)));
    lemma_data_map_text_add(paths.take(i), one + paths.skip(i + 1), depth);
    lemma_data_map_text_add(one, paths.skip(i + 1), depth);
    assert(one.drop_last() =~= Seq::<(Seq<char>, nat)>::empty());
    assert(one.last() == paths[i]);
    assert(data_map_text(one.drop_last(), depth) == Seq::<char>::empty());
    let mid = line(depth, "{\""@ + paths[i].0 + "\", "@ + decimal(paths[i].1) + "},"@);
    assert(data_map_text(one, depth) =~= mid);
    assert(data_map_text(paths, depth) =~= data_map_text(paths.take(i), depth) + mid
        + data_map_text(paths.skip(i + 1), depth));
}

/// The includes, the declaration of `getDataIndex`, the constructor and the
/// start of `applyChanges`.
pub open spec fn impl_head_text(d: nat) -> Seq<char> {
    line(d, "#include \"GeneratedTheme.hpp\""@) + line(d, "#include <QColor>"@) + line(
        d,
        "#include <QString>"@,
    ) + line(d, "#include <QByteArray>"@) + line(d, "#include <QMap>"@) + line(
        d,
        "#include <cstring>"@,
    ) + line(d, ""@) + line(d, "namespace {"@) + line(
        d + 1,
        "int getDataIndex(const QByteArray &name);"@,
    ) + line(d, "} //  namespace"@) + ctor_text(d)
}

/// The constructor and the start of `applyChanges`.
pub open spec fn ctor_text(d: nat) -> Seq<char> {
    line(d, "namespace chatterino::theme {"@) + line(d, "GeneratedTheme::GeneratedTheme() {"@) + line(
        d + 1,
        "this->reset();"@,
    ) + line(d + 1, "this->applyChanges();"@) + line(d, "}"@) + line(
        d,
        "void GeneratedTheme::applyChanges() {"@,
    ) + line(d + 1, "const auto d = [this](size_t i) -> const QColor& { return this->colors_[i]; };"@)
}

/// The end of `applyChanges` and the start of `reset`.
pub open spec fn impl_middle_text(d: nat) -> Seq<char> {
    line(d + 1, "this->reset();"@) + line(d, "}"@) + line(d, "void GeneratedTheme::reset() {"@)
}

/// The end of `reset`, `setColor` and the start of `getDataIndex`.
pub open spec fn impl_set_color_text(d: nat) -> Seq<char> {
    line(d, "}"@) + line(d, "bool GeneratedTheme::setColor(const QByteArray &name, QColor color) {"@)
        + line(d + 1, "auto idx = getDataIndex(name);"@) + line(d + 1, "if (idx < 0) return false;"@)
        + line(d + 1, "this->colors_[idx] = color;"@) + line(d + 1, "return true;"@) + line(d, "}"@)
        + get_data_index_text(d)
}

/// The end of the namespace and the start of `getDataIndex`.
pub open spec fn get_data_index_text(d: nat) -> Seq<char> {
    line(d, "} //  namespace chatterino::theme"@) + line(d, "namespace {"@) + line(
        d,
        "int getDataIndex(const QByteArray &name) {"@,
    ) + line(d + 1, "static const QMap<QByteArray, size_t> dataMap = {"@)
}

/// The end of `getDataIndex`.
pub open spec fn impl_tail_text(d: nat) -> Seq<char> {
    line(d + 1, "};"@) + line(d + 1, "return dataMap.value(name, -1);"@) + line(d, "}"@) + line(
        d,
        "} //  namespace"@,
    )
}

/// The whole `GeneratedTheme.cpp` for the flattened layout `flat` and the
/// default colors `colors`, printed at indentation `d`.
pub open spec fn impl_text(flat: Seq<FlatModel>, colors: Map<Seq<char>, Rgba>, d: nat) -> Seq<char> {
    impl_head_text(d) + apply_tops_text(flat, d + 1) + impl_middle_text(d) + reset_tops_text(
        flat,
        colors,
        d + 1,
    ) + impl_set_color_text(d) + data_map_text(tops_paths(flat), d + 2) + impl_tail_text(d)
}

/// Prints the values that `applyChanges` hands to `item`.
fn print_field<'a>(p: &mut Printer, item: &FlatLayoutItem<'a>)
    requires
        flat_item_fits(item.model(), usize::MAX - old(p).depth()),
    ensures
        final(p).depth() == old(p).depth(),
        final(p).output() == old(p).output() + apply_text(item.model(), old(p).depth()),
    decreases item, 0nat,
{
    let ghost start = p.output();
    match item {
        FlatLayoutItem::Field { id, .. } => {
            p.write_fmt("d(");
            p.write_number(*id);
            p.write("),");
            p.end_line();
        },
        FlatLayoutItem::Struct { fields, .. } => {
            proof {
                lemma_flat_struct_model(*item);
                assert(decreases_to!(*item => *fields));
                assert(decreases_to!(*fields => fields@));
            }
            p.write_line("{");
            p.indent();
            print_fields(p, fields.as_slice());
            p.dedent();
            p.write_line("},");
        },
    }
    assert(p.output() =~= start + apply_text(item.model(), old(p).depth()));
}

/// Prints the values of the fields `fields`, in order.
fn print_fields<'a>(p: &mut Printer, fields: &[FlatLayoutItem<'a>])
    requires
        flat_nest_fits(flat_models(fields@), usize::MAX - old(p).depth()),
    ensures
        final(p).depth() == old(p).depth(),
        final(p).output() == old(p).output() + apply_fields_text(flat_models(fields@), old(p).depth()),
    decreases fields@, 1nat,
{
    let ghost start = p.output();
    let ghost depth = p.depth();
    let ghost model = flat_models(fields@);
    let mut k: usize = 0;
    while k < fields.len()
        invariant
            k <= fields@.len(),
            p.depth() == depth,
            model == flat_models(fields@),
            flat_nest_fits(model, usize::MAX - depth),
            p.output() == start + apply_fields_text(model.take(k as int), depth),
        decreases fields@.len() - k,
    {
        proof {
            assert(model.take(k + 1).drop_last() =~= model.take(k as int));
            assert(model[k as int] == fields@[k as int].model());
            assert(flat_item_fits(model[k as int], usize::MAX - depth));
            assert(decreases_to!(fields@ => fields@[k as int]));
        }
        print_field(p, &fields[k]);
        k = k + 1;
    }
    assert(model.take(k as int) =~= model);
}

/// Prints the statement of `reset` that stores `color` at index `id`.
fn write_reset_line(p: &mut Printer, id: usize, color: Rgba)
    ensures
        final(p).depth() == old(p).depth(),
        final(p).output() == old(p).output() + reset_line(id as nat, color, old(p).depth()),
{
    p.write_fmt("this->colors_[");
    p.write_number(id);
    p.write("] = {");
    p.write_number(color.red as usize);
    p.write(", ");
    p.write_number(color.green as usize);
    p.write(", ");
    p.write_number(color.blue as usize);
    p.write(", ");
    p.write_number(color.alpha as usize);
    p.write("};");
    p.end_line();
    assert(p.output() =~= old(p).output() + reset_line(id as nat, color, old(p).depth()));
}

/// Prints the statements of `reset` for `item` under `prefix`, looking its
/// colors up in `theme`, and appends its paths and color indices to `paths`.
fn reset_field<'a>(
    p: &mut Printer,
    paths: &mut Vec<(String, usize)>,
    prefix: &str,
    theme: &FlatTheme,
    item: &FlatLayoutItem<'a>,
)
    requires
        covered(prefix@, item.model(), color_entries(theme.rules)),
    ensures
        final(p).depth() == old(p).depth(),
        final(p).output() == old(p).output() + reset_text(
            prefix@,
            item.model(),
            color_entries(theme.rules),
            old(p).depth(),
        ),
        paths_model(final(paths)@) == paths_model(old(paths)@) + reset_paths(prefix@, item.model()),
    decreases item, 0nat,
{
    let ghost start = p.output();
    let ghost start_paths = paths_model(paths@);
    match item {
        FlatLayoutItem::Field { id, name } => {
            let path = combine_path(prefix, name);
            let color = match color_map_get(&theme.rules, path.as_str()) {
                Option::Some(c) => c,
                Option::None => {
                    assert(false);
                    return;
                },
            };
            write_reset_line(p, *id, color);
            let ghost entry = (path@, *id as nat);
            paths.push((path, *id));
            assert(paths_model(paths@) =~= start_paths + seq![entry]);
        },
        FlatLayoutItem::Struct { name, fields } => {
            proof {
                lemma_flat_struct_model(*item);
                assert(decreases_to!(*item => *fields));
                assert(decreases_to!(*fields => fields@));
            }
            let inner = combine_path(prefix, name);
            reset_fields(p, paths, inner.as_str(), theme, fields.as_slice());
        },
    }
    assert(p.output() =~= start + reset_text(prefix@, item.model(), color_entries(theme.rules), old(p).depth()));
}

/// Prints the statements of `reset` for the fields `fields` under `prefix`,
/// and appends their paths and color indices to `paths`.
fn reset_fields<'a>(
    p: &mut Printer,
    paths: &mut Vec<(String, usize)>,
    prefix: &str,
    theme: &FlatTheme,
    fields: &[FlatLayoutItem<'a>],
)
    requires
        fields_covered(prefix@, flat_models(fields@), color_entries(theme.rules)),
    ensures
        final(p).depth() == old(p).depth(),
        final(p).output() == old(p).output() + reset_fields_text(
            prefix@,
            flat_models(fields@),
            color_entries(theme.rules),
            old(p).depth(),
        ),
        paths_model(final(paths)@) == paths_model(old(paths)@) + fields_paths(prefix@, flat_models(fields@)),
    decreases fields@, 1nat,
{
    let ghost start = p.output();
    let ghost start_paths = paths_model(paths@);
    let ghost depth = p.depth();
    let ghost model = flat_models(fields@);
    let ghost colors = color_entries(theme.rules);
    let mut k: usize = 0;
    while k < fields.len()
        invariant
            k <= fields@.len(),
            p.depth() == depth,
            model == flat_models(fields@),
            colors == color_entries(theme.rules),
            fields_covered(prefix@, model, colors),
            p.output() == start + reset_fields_text(prefix@, model.take(k as int), colors, depth),
            paths_model(paths@) == start_paths + fields_paths(prefix@, model.take(k as int)),
        decreases fields@.len() - k,
    {
        proof {
            assert(model.take(k + 1).drop_last() =~= model.take(k as int));
            assert(model[k as int] == fields@[k as int].model());
            assert(covered(prefix@, model[k as int], colors));
            assert(decreases_to!(fields@ => fields@[k as int]));
        }
        reset_field(p, paths, prefix, theme, &fields[k]);
        proof {
            assert(p.output() =~= start + reset_fields_text(prefix@, model.take(k + 1), colors, depth));
            assert(paths_model(paths@) =~= start_paths + fields_paths(prefix@, model.take(k + 1)));
        }
        k = k + 1;
    }
    assert(model.take(k as int) =~= model);
}

/// Prints the includes, the declaration of `getDataIndex`, the constructor
/// and the start of `applyChanges`, and leaves the printer inside it.
#[verifier::rlimit(30)]
fn write_impl_head(p: &mut Printer)
    requires
        old(p).depth() + 1 <= usize::MAX,
    ensures
        final(p).depth() == old(p).depth() + 1,
        final(p).output() == old(p).output() + impl_head_text(old(p).depth()),
{
    let ghost d = p.depth();
    p.write_line("#include \"GeneratedTheme.hpp\"");
    p.write_line("#include <QColor>");
    p.write_line("#include <QString>");
    p.write_line("#include <QByteArray>");
    p.write_line("#include <QMap>");
    p.write_line("#include <cstring>");
    p.write_line("");
    p.write_line("namespace {");
    p.indent();
    p.write_line("int getDataIndex(const QByteArray &name);");
    p.dedent();
    p.write_line("} //  namespace");
    let ghost s1 = p.output();
    assert(s1 =~= old(p).output() + (line(d, "#include \"GeneratedTheme.hpp\""@) + line(d, "#include <QColor>"@)
        + line(d, "#include <QString>"@) + line(d, "#include <QByteArray>"@) + line(d, "#include <QMap>"@)
        + line(d, "#include <cstring>"@) + line(d, ""@) + line(d, "namespace {"@) + line(
        d + 1,
        "int getDataIndex(const QByteArray &name);"@,
    ) + line(d, "} //  namespace"@)));
    write_ctor(p);
    assert(p.output() =~= old(p).output() + impl_head_text(d));
}

/// Prints the constructor and the start of `applyChanges`, and leaves the
/// printer inside it.
fn write_ctor(p: &mut Printer)
    requires
        old(p).depth() + 1 <= usize::MAX,
    ensures
        final(p).depth() == old(p).depth() + 1,
        final(p).output() == old(p).output() + ctor_text(old(p).depth()),
{
    let ghost d = p.depth();
    p.write_line("namespace chatterino::theme {");
    p.write_line("GeneratedTheme::GeneratedTheme() {");
    p.indent();
    p.write_line("this->reset();");
    p.write_line("this->applyChanges();");
    p.dedent();
    p.write_line("}");
    p.write_line("void GeneratedTheme::applyChanges() {");
    p.indent();
    p.write_line("const auto d = [this](size_t i) -> const QColor& { return this->colors_[i]; };");
    assert(p.output() =~= old(p).output() + ctor_text(d));
}

/// Prints the end of `applyChanges` and the start of `reset`; the printer
/// is inside the function before and after.
fn write_impl_middle(p: &mut Printer)
    requires
        old(p).depth() >= 1,
    ensures
        final(p).depth() == old(p).depth(),
        final(p).output() == old(p).output() + impl_middle_text((old(p).depth() - 1) as nat),
{
    let ghost d = (p.depth() - 1) as nat;
    p.write_line("this->reset();");
    p.dedent();
    p.write_line("}");
    p.write_line("void GeneratedTheme::reset() {");
    p.indent();
    assert(p.output() =~= old(p).output() + impl_middle_text(d));
}

/// Prints the end of `reset`, `setColor` and the start of `getDataIndex`,
/// and leaves the printer inside its map.
#[verifier::rlimit(30)]
fn write_set_color(p: &mut Printer)
    requires
        old(p).depth() >= 1,
        old(p).depth() + 1 <= usize::MAX,
    ensures
        final(p).depth() == old(p).depth() + 1,
        final(p).output() == old(p).output() + impl_set_color_text((old(p).depth() - 1) as nat),
{
    let ghost d = (p.depth() - 1) as nat;
    p.dedent();
    p.write_line("}");
    p.write_line("bool GeneratedTheme::setColor(const QByteArray &name, QColor color) {");
    p.indent();
    p.write_line("auto idx = getDataIndex(name);");
    p.write_line("if (idx < 0) return false;");
    p.write_line("this->colors_[idx] = color;");
    p.write_line("return true;");
    p.dedent();
    p.write_line("}");
    let ghost s1 = p.output();
    assert(s1 =~= old(p).output() + (line(d, "}"@) + line(
        d,
        "bool GeneratedTheme::setColor(const QByteArray &name, QColor color) {"@,
    ) + line(d + 1, "auto idx = getDataIndex(name);"@) + line(d + 1, "if (idx < 0) return false;"@)
        + line(d + 1, "this->colors_[idx] = color;"@) + line(d + 1, "return true;"@) + line(d, "}"@)));
    p.write_line("} //  namespace chatterino::theme");
    p.write_line("namespace {");
    p.write_line("int getDataIndex(const QByteArray &name) {");
    p.indent();
    p.write_line("static const QMap<QByteArray, size_t> dataMap = {");
    p.indent();
    assert(p.output() =~= s1 + get_data_index_text(d));
    assert(p.output() =~= old(p).output() + impl_set_color_text(d));
}

/// Prints the end of `getDataIndex`; the printer is inside its map before.
fn write_impl_tail(p: &mut Printer)
    requires
        old(p).depth() >= 2,
    ensures
        final(p).depth() == old(p).depth() - 2,
        final(p).output() == old(p).output() + impl_tail_text((old(p).depth() - 2) as nat),
{
    let ghost d = (p.depth() - 2) as nat;
    p.dedent();
    p.write_line("};");
    p.write_line("return dataMap.value(name, -1);");
    p.dedent();
    p.write_line("}");
    p.write_line("} //  namespace");
    assert(p.output() =~= old(p).output() + impl_tail_text(d));
}

/// Every top-level struct of `flat` fits the indentation when the file is
/// printed at indentation `depth`.
pub open spec fn tops_fit(flat: Seq<FlatModel>, depth: nat) -> bool {
    &&& depth + 2 <= usize::MAX
    &&& forall|i: int| #![trigger flat[i]]
        0 <= i < flat.len() ==> (flat[i] matches FlatModel::Struct { fields, .. } ==> flat_nest_fits(
            fields,
            usize::MAX - depth - 2,
        ))
}

/// Every color of every top-level struct of `flat` has a color in `colors`.
pub open spec fn tops_covered(flat: Seq<FlatModel>, colors: Map<Seq<char>, Rgba>) -> bool {
    forall|i: int| #![trigger flat[i]]
        0 <= i < flat.len() ==> (flat[i] matches FlatModel::Struct { name, fields } ==> fields_covered(
            name,
            fields,
            colors,
        ))
}

/// The flattened top-level items are all structs.
proof fn lemma_flat_tops_structs<'a>(
    defs: crate::layout::DefsModel,
    tops: Seq<(&'a str, Vec<crate::layout::LayoutItem<'a>>)>,
    start: nat,
    fuel: nat,
)
    ensures
        forall|i: int| #![trigger crate::layout::flat_tops(defs, tops, start, fuel)[i]]
            0 <= i < crate::layout::flat_tops(defs, tops, start, fuel).len()
                ==> crate::layout::flat_tops(defs, tops, start, fuel)[i] is Struct,
    decreases tops.len(),
{
    if tops.len() > 0 {
        lemma_flat_tops_structs(defs, tops.drop_last(), start, fuel);
    }
}

/// Prints the assignments of `applyChanges` for the top-level structs `flat`.
fn write_apply_tops<'a>(p: &mut Printer, flat: &Vec<FlatLayoutItem<'a>>)
    requires
        old(p).depth() >= 1,
        tops_fit(flat_models(flat@), (old(p).depth() - 1) as nat),
        forall|i: int| 0 <= i < flat@.len() ==> (#[trigger] flat@[i]) is Struct,
    ensures
        final(p).depth() == old(p).depth(),
        final(p).output() == old(p).output() + apply_tops_text(flat_models(flat@), old(p).depth()),
{
    let ghost depth = p.depth();
    let ghost model = flat_models(flat@);
    let mut k: usize = 0;
    while k < flat.len()
        invariant
            k <= flat@.len(),
            p.depth() == depth,
            depth >= 1,
            model == flat_models(flat@),
            tops_fit(model, (depth - 1) as nat),
            forall|i: int| 0 <= i < flat@.len() ==> (#[trigger] flat@[i]) is Struct,
            p.output() == old(p).output() + apply_tops_text(model.take(k as int), depth),
        decreases flat@.len() - k,
    {
        let ghost before = p.output();
        proof {
            assert(model.take(k + 1).drop_last() =~= model.take(k as int));
            assert(model.take(k + 1).last() == model[k as int]);
            lemma_flat_struct_model(flat@[k as int]);
        }
        match &flat[k] {
            FlatLayoutItem::Struct { name, fields } => {
                p.write_fmt("this->");
                p.write(name);
                p.write(" = {");
                p.end_line();
                p.indent();
                print_fields(p, fields.as_slice());
                p.dedent();
                p.write_line("};");
                assert(p.output() =~= old(p).output() + apply_tops_text(model.take(k + 1), depth));
            },
            FlatLayoutItem::Field { .. } => {
                assert(false);
            },
        }
        k = k + 1;
    }
    assert(model.take(k as int) =~= model);
}

/// Prints the statements of `reset` for the top-level structs `flat`, and
/// appends their paths and color indices to `paths`.
fn write_reset_tops<'a>(
    p: &mut Printer,
    paths: &mut Vec<(String, usize)>,
    theme: &FlatTheme,
    flat: &Vec<FlatLayoutItem<'a>>,
)
    requires
        tops_covered(flat_models(flat@), color_entries(theme.rules)),
        forall|i: int| 0 <= i < flat@.len() ==> (#[trigger] flat@[i]) is Struct,
    ensures
        final(p).depth() == old(p).depth(),
        final(p).output() == old(p).output() + reset_tops_text(
            flat_models(flat@),
            color_entries(theme.rules),
            old(p).depth(),
        ),
        paths_model(final(paths)@) == paths_model(old(paths)@) + tops_paths(flat_models(flat@)),
{
    let ghost depth = p.depth();
    let ghost model = flat_models(flat@);
    let ghost colors = color_entries(theme.rules);
    let mut k: usize = 0;
    while k < flat.len()
        invariant
            k <= flat@.len(),
            p.depth() == depth,
            model == flat_models(flat@),
            colors == color_entries(theme.rules),
            tops_covered(model, colors),
            forall|i: int| 0 <= i < flat@.len() ==> (#[trigger] flat@[i]) is Struct,
            p.output() == old(p).output() + reset_tops_text(model.take(k as int), colors, depth),
            paths_model(paths@) == paths_model(old(paths)@) + tops_paths(model.take(k as int)),
        decreases flat@.len() - k,
    {
        proof {
            assert(model.take(k + 1).drop_last() =~= model.take(k as int));
            assert(model.take(k + 1).last() == model[k as int]);
            lemma_flat_struct_model(flat@[k as int]);
        }
        match &flat[k] {
            FlatLayoutItem::Struct { name, fields } => {
                reset_fields(p, paths, name, theme, fields.as_slice());
                assert(p.output() =~= old(p).output() + reset_tops_text(model.take(k + 1), colors, depth));
                assert(paths_model(paths@) =~= paths_model(old(paths)@) + tops_paths(model.take(k + 1)));
            },
            FlatLayoutItem::Field { .. } => {
                assert(false);
            },
        }
        k = k + 1;
    }
    assert(model.take(k as int) =~= model);
}

/// Prints the entries of the map from paths to color indices.
fn write_data_map(p: &mut Printer, paths: &Vec<(String, usize)>)
    ensures
        final(p).depth() == old(p).depth(),
        final(p).output() == old(p).output() + data_map_text(paths_model(paths@), old(p).depth()),
{
    let ghost depth = p.depth();
    let ghost model = paths_model(paths@);
    let mut k: usize = 0;
    while k < paths.len()
        invariant
            k <= paths@.len(),
            p.depth() == depth,
            model == paths_model(paths@),
            p.output() == old(p).output() + data_map_text(model.take(k as int), depth),
        decreases paths@.len() - k,
    {
        let (path, value) = &paths[k];
        p.write_fmt("{\"");
        p.write(path.as_str());
        p.write("\", ");
        p.write_number(*value);
        p.write("},");
        p.end_line();
        proof {
            assert(model.take(k + 1).drop_last() =~= model.take(k as int));
            assert(model.take(k + 1).last() == model[k as int]);
            assert(p.output() =~= old(p).output() + data_map_text(model.take(k + 1), depth));
        }
        k = k + 1;
    }
    assert(model.take(k as int) =~= model);
}

/// Prints `GeneratedTheme.cpp` for `layout`, with the colors of `theme` as
/// the defaults that `reset` stores.
#[verifier::rlimit(40)]
pub fn generate_impl<'a>(p: &mut Printer, layout: &Layout<'a>, theme: &FlatTheme)
    requires
        layout.well_formed(),
        layout.total() <= usize::MAX,
        tops_fit(layout.flat(), old(p).depth()),
        tops_covered(layout.flat(), color_entries(theme.rules)),
    ensures
        final(p).depth() == old(p).depth(),
        final(p).output() == old(p).output() + impl_text(
            layout.flat(),
            color_entries(theme.rules),
            old(p).depth(),
        ),
{
    let ghost d = p.depth();
    let ghost colors = color_entries(theme.rules);
    write_impl_head(p);
    let ghost s1 = p.output();

    let flattened = layout.flatten();
    proof {
        lemma_flat_tops_structs(layout.defs_model(), layout.items@, 0, layout.depth() + 1);
        assert forall|i: int| 0 <= i < flattened@.len() implies (#[trigger] flattened@[i]) is Struct by {
            assert(flat_models(flattened@)[i] == flattened@[i].model());
            assert(layout.flat()[i] is Struct);
        }
    }
    write_apply_tops(p, &flattened);
    let ghost s2 = p.output();
    write_impl_middle(p);
    let ghost s3 = p.output();

    let mut paths: Vec<(String, usize)> = Vec::new();
    assert(paths_model(paths@) =~= Seq::empty());
    write_reset_tops(p, &mut paths, theme, &flattened);
    assert(paths_model(paths@) =~= tops_paths(layout.flat()));
    let ghost s4 = p.output();

    write_set_color(p);
    let ghost s5 = p.output();
    write_data_map(p, &paths);
    let ghost s6 = p.output();
    write_impl_tail(p);
    assert(p.output() =~= old(p).output() + impl_text(layout.flat(), colors, d));
}

/// The first path of `ps` that has no color in `colors`.
pub open spec fn first_uncovered(ps: Seq<(Seq<char>, nat)>, colors: Map<Seq<char>, Rgba>) -> Option<Seq<char>>
    decreases ps.len(),
{
    if ps.len() == 0 {
        Option::None
    } else if !colors.contains_key(ps[0].0) {
        Option::Some(ps[0].0)
    } else {
        first_uncovered(ps.drop_first(), colors)
    }
}

/// `r` gives the path that `o` names, or nothing where `o` is `None`.
pub open spec fn gives_path(r: Option<String>, o: Option<Seq<char>>) -> bool {
    match r {
        Option::Some(p) => o == Option::Some(p@),
        Option::None => o is None,
    }
}

proof fn lemma_first_uncovered_add(a: Seq<(Seq<char>, nat)>, b: Seq<(Seq<char>, nat)>, colors: Map<Seq<char>, Rgba>)
    ensures
        first_uncovered(a + b, colors) == if first_uncovered(a, colors) is Some {
            first_uncovered(a, colors)
        } else {
            first_uncovered(b, colors)
        },
    decreases a.len(),
{
    if a.len() == 0 {
        assert(a + b =~= b);
    } else {
        assert((a + b).drop_first() =~= a.drop_first() + b);
        assert((a + b)[0] == a[0]);
        lemma_first_uncovered_add(a.drop_first(), b, colors);
    }
}

proof fn lemma_fields_paths_add(prefix: Seq<char>, a: Seq<FlatModel>, b: Seq<FlatModel>)
    ensures
        fields_paths(prefix, a + b) == fields_paths(prefix, a) + fields_paths(prefix, b),
    decreases b.len(),
{
    if b.len() == 0 {
        assert(a + b =~= a);
        assert(fields_paths(prefix, a) + fields_paths(prefix, b) =~= fields_paths(prefix, a));
    } else {
        lemma_fields_paths_add(prefix, a, b.drop_last());
        assert((a + b).drop_last() =~= a + b.drop_last());
        assert((a + b).last() == b.last());
        assert(fields_paths(prefix, a + b) =~= fields_paths(prefix, a) + fields_paths(prefix, b));
    }
}

proof fn lemma_tops_paths_add(a: Seq<FlatModel>, b: Seq<FlatModel>)
    ensures
        tops_paths(a + b) == tops_paths(a) + tops_paths(b),
    decreases b.len(),
{
    if b.len() == 0 {
        assert(a + b =~= a);
        assert(tops_paths(a) + tops_paths(b) =~= tops_paths(a));
    } else {
        lemma_tops_paths_add(a, b.drop_last());
        assert((a + b).drop_last() =~= a + b.drop_last());
        assert((a + b).last() == b.last());
        assert(tops_paths(a + b) =~= tops_paths(a) + tops_paths(b));
    }
}

/// The first path of `item` under `prefix` that has no color in `theme`,
/// if there is one.
fn check_field<'a>(prefix: &str, theme: &FlatTheme, item: &FlatLayoutItem<'a>) -> (r: Option<String>)
    ensures
        r is None <==> covered(prefix@, item.model(), color_entries(theme.rules)),
        gives_path(r, first_uncovered(reset_paths(prefix@, item.model()), color_entries(theme.rules))),
    decreases item, 0nat,
{
    match item {
        FlatLayoutItem::Field { name, id } => {
            let path = combine_path(prefix, name);
            let ghost ps = reset_paths(prefix@, item.model());
            assert(ps.drop_first() =~= Seq::<(Seq<char>, nat)>::empty());
            assert(first_uncovered(ps.drop_first(), color_entries(theme.rules)) is None);
            assert(ps[0].0 == path@);
            match color_map_get(&theme.rules, path.as_str()) {
                Option::Some(_) => Option::None,
                Option::None => Option::Some(path),
            }
        },
        FlatLayoutItem::Struct { name, fields } => {
            proof {
                lemma_flat_struct_model(*item);
                assert(decreases_to!(*item => *fields));
                assert(decreases_to!(*fields => fields@));
            }
            let inner = combine_path(prefix, name);
            check_fields(inner.as_str(), theme, fields.as_slice())
        },
    }
}

/// The first path of the fields `fields` under `prefix` that has no color
/// in `theme`, if there is one.
fn check_fields<'a>(prefix: &str, theme: &FlatTheme, fields: &[FlatLayoutItem<'a>]) -> (r: Option<String>)
    ensures
        r is None <==> fields_covered(prefix@, flat_models(fields@), color_entries(theme.rules)),
        gives_path(r, first_uncovered(fields_paths(prefix@, flat_models(fields@)), color_entries(theme.rules))),
    decreases fields@, 1nat,
{
    let ghost model = flat_models(fields@);
    let ghost colors = color_entries(theme.rules);
    let mut k: usize = 0;
    assert(fields_paths(prefix@, model.take(0)) =~= Seq::empty());
    while k < fields.len()
        invariant
            k <= fields@.len(),
            model == flat_models(fields@),
            colors == color_entries(theme.rules),
            forall|i: int| 0 <= i < k ==> covered(prefix@, #[trigger] model[i], colors),
            first_uncovered(fields_paths(prefix@, model.take(k as int)), colors) is None,
        decreases fields@.len() - k,
    {
        proof {
            assert(model[k as int] == fields@[k as int].model());
            assert(decreases_to!(fields@ => fields@[k as int]));
            assert(model.take(k + 1).drop_last() =~= model.take(k as int));
            assert(model.take(k + 1).last() == model[k as int]);
            lemma_first_uncovered_add(
                fields_paths(prefix@, model.take(k as int)),
                reset_paths(prefix@, model[k as int]),
                colors,
            );
        }
        let r = check_field(prefix, theme, &fields[k]);
        if r.is_some() {
            proof {
                assert(model =~= model.take(k + 1) + model.skip(k + 1));
                lemma_fields_paths_add(prefix@, model.take(k + 1), model.skip(k + 1));
                lemma_first_uncovered_add(
                    fields_paths(prefix@, model.take(k + 1)),
                    fields_paths(prefix@, model.skip(k + 1)),
                    colors,
                );
            }
            return r;
        }
        k = k + 1;
    }
    assert(model.take(k as int) =~= model);
    Option::None
}

/// The first path of a color of `layout`, in the order in which `reset`
/// looks them up, that has no color in `theme`, if there is one: without
/// one, [`generate_impl`] finds every color it needs.
pub fn uncovered_path<'a>(layout: &Layout<'a>, theme: &FlatTheme) -> (r: Option<String>)
    requires
        layout.well_formed(),
        layout.total() <= usize::MAX,
    ensures
        r is None <==> tops_covered(layout.flat(), color_entries(theme.rules)),
        gives_path(r, first_uncovered(tops_paths(layout.flat()), color_entries(theme.rules))),
{
    let flattened = layout.flatten();
    let ghost model = flat_models(flattened@);
    let ghost colors = color_entries(theme.rules);
    let mut k: usize = 0;
    assert(tops_paths(model.take(0)) =~= Seq::empty());
    while k < flattened.len()
        invariant
            k <= flattened@.len(),
            model == flat_models(flattened@),
            model == layout.flat(),
            colors == color_entries(theme.rules),
            forall|i: int| #![trigger model[i]]
                0 <= i < k ==> (model[i] matches FlatModel::Struct { name, fields } ==> fields_covered(
                    name,
                    fields,
                    colors,
                )),
            first_uncovered(tops_paths(model.take(k as int)), colors) is None,
        decreases flattened@.len() - k,
    {
        proof {
            lemma_flat_struct_model(flattened@[k as int]);
            assert(model[k as int] == flattened@[k as int].model());
            assert(model.take(k + 1).drop_last() =~= model.take(k as int));
            assert(model.take(k + 1).last() == model[k as int]);
        }
        match &flattened[k] {
            FlatLayoutItem::Struct { name, fields } => {
                proof {
                    lemma_first_uncovered_add(
                        tops_paths(model.take(k as int)),
                        fields_paths(name@, flat_models(fields@)),
                        colors,
                    );
                }
                let r = check_fields(name, theme, fields.as_slice());
                if r.is_some() {
                    proof {
                        assert(model =~= model.take(k + 1) + model.skip(k + 1));
                        lemma_tops_paths_add(model.take(k + 1), model.skip(k + 1));
                        lemma_first_uncovered_add(
                            tops_paths(model.take(k + 1)),
                            tops_paths(model.skip(k + 1)),
                            colors,
                        );
                    }
                    return r;
                }
            },
            FlatLayoutItem::Field { .. } => {
                assert(tops_paths(model.take(k + 1)) =~= tops_paths(model.take(k as int)));
            },
        }
        k = k + 1;
    }
    assert(model.take(k as int) =~= model);
    Option::None
}

/// The color indices of a list of paths and indices.
pub open spec fn path_ids(ps: Seq<(Seq<char>, nat)>) -> Seq<nat> {
    ps.map_values(|e: (Seq<char>, nat)| e.1)
}

proof fn lemma_path_ids_add(a: Seq<(Seq<char>, nat)>, b: Seq<(Seq<char>, nat)>)
    ensures
        path_ids(a + b) == path_ids(a) + path_ids(b),
{
    assert(path_ids(a + b) =~= path_ids(a) + path_ids(b));
}

/// The indices that `reset` records for `f` are its color numbers.
proof fn lemma_reset_ids(prefix: Seq<char>, f: FlatModel)
    ensures
        path_ids(reset_paths(prefix, f)) == ids(f),
    decreases f, 0nat,
{
    match f {
        FlatModel::Field { name, id } => {
            assert(path_ids(reset_paths(prefix, f)) =~= seq![id]);
        },
        FlatModel::Struct { name, fields } => {
            lemma_fields_ids(spec_combine_path(prefix, name), fields);
        },
    }
}

/// The indices that `reset` records for `fs` are their color numbers.
proof fn lemma_fields_ids(prefix: Seq<char>, fs: Seq<FlatModel>)
    ensures
        path_ids(fields_paths(prefix, fs)) == ids_seq(fs),
    decreases fs, 1nat,
{
    if fs.len() == 0 {
        assert(path_ids(fields_paths(prefix, fs)) =~= Seq::empty());
    } else {
        lemma_fields_ids(prefix, fs.drop_last());
        lemma_reset_ids(prefix, fs.last());
        lemma_path_ids_add(fields_paths(prefix, fs.drop_last()), reset_paths(prefix, fs.last()));
    }
}

proof fn lemma_tops_ids(tops: Seq<FlatModel>)
    requires
        forall|i: int| 0 <= i < tops.len() ==> (#[trigger] tops[i]) is Struct,
    ensures
        path_ids(tops_paths(tops)) == ids_seq(tops),
    decreases tops.len(),
{
    if tops.len() == 0 {
        assert(path_ids(tops_paths(tops)) =~= Seq::empty());
    } else {
        let rest = tops.drop_last();
        assert forall|i: int| 0 <= i < rest.len() implies (#[trigger] rest[i]) is Struct by {
            assert(rest[i] == tops[i]);
        }
        lemma_tops_ids(rest);
        assert(tops[tops.len() - 1] is Struct);
        if let FlatModel::Struct { name, fields } = tops.last() {
            lemma_fields_ids(name, fields);
            lemma_path_ids_add(tops_paths(rest), fields_paths(name, fields));
            assert(tops_paths(tops) == tops_paths(rest) + fields_paths(name, fields));
            assert(ids(tops.last()) == ids_seq(fields));
            assert(ids_seq(tops) == ids_seq(rest) + ids(tops.last()));
        }
    }
}

/// The map from paths to color indices that the source file ends with
/// gives the indices `0`, `1`, ..., `count - 1` in order, one for each
/// color, where `count` is the number of colors (`count_items`) and so the
/// length of the `colors_` array that the header declares.
pub proof fn lemma_data_map_indices<'a>(layout: &Layout<'a>)
    requires
        layout.well_formed(),
    ensures
        path_ids(tops_paths(layout.flat())) == numbers(0, layout.total()),
{
    lemma_flat_tops_structs(layout.defs_model(), layout.items@, 0, layout.depth() + 1);
    lemma_tops_ids(layout.flat());
    lemma_flatten_numbers_colors(layout);
}

/// One statement of `reset` per entry of `ps`: the color of the entry's path
/// stored at the entry's index.
pub open spec fn reset_lines(ps: Seq<(Seq<char>, nat)>, colors: Map<Seq<char>, Rgba>, depth: nat) -> Seq<char>
    decreases ps.len(),
{
    if ps.len() == 0 {
        Seq::empty()
    } else {
        reset_lines(ps.drop_last(), colors, depth) + reset_line(ps.last().1, colors[ps.last().0], depth)
    }
}

proof fn lemma_reset_lines_add(
    a: Seq<(Seq<char>, nat)>,
    b: Seq<(Seq<char>, nat)>,
    colors: Map<Seq<char>, Rgba>,
    depth: nat,
)
    ensures
        reset_lines(a + b, colors, depth) == reset_lines(a, colors, depth) + reset_lines(b, colors, depth),
    decreases b.len(),
{
    if b.len() == 0 {
        assert(a + b =~= a);
        assert(reset_lines(a, colors, depth) + reset_lines(b, colors, depth) =~= reset_lines(a, colors, depth));
    } else {
        lemma_reset_lines_add(a, b.drop_last(), colors, depth);
        assert((a + b).drop_last() =~= a + b.drop_last());
        assert((a + b).last() == b.last());
        assert(reset_lines(a + b, colors, depth) =~= reset_lines(a, colors, depth) + reset_lines(b, colors, depth));
    }
}

proof fn lemma_reset_text_lines(prefix: Seq<char>, f: FlatModel, colors: Map<Seq<char>, Rgba>, depth: nat)
    ensures
        reset_text(prefix, f, colors, depth) == reset_lines(reset_paths(prefix, f), colors, depth),
    decreases f, 0nat,
{
    match f {
        FlatModel::Field { name, id } => {
            let ps = reset_paths(prefix, f);
            assert(ps.drop_last() =~= Seq::<(Seq<char>, nat)>::empty());
            assert(reset_lines(ps.drop_last(), colors, depth) =~= Seq::<char>::empty());
            assert(reset_lines(ps, colors, depth) =~= reset_text(prefix, f, colors, depth));
        },
        FlatModel::Struct { name, fields } => {
            lemma_fields_text_lines(spec_combine_path(prefix, name), fields, colors, depth);
        },
    }
}

proof fn lemma_fields_text_lines(prefix: Seq<char>, fs: Seq<FlatModel>, colors: Map<Seq<char>, Rgba>, depth: nat)
    ensures
        reset_fields_text(prefix, fs, colors, depth) == reset_lines(fields_paths(prefix, fs), colors, depth),
    decreases fs, 1nat,
{
    if fs.len() > 0 {
        lemma_fields_text_lines(prefix, fs.drop_last(), colors, depth);
        lemma_reset_text_lines(prefix, fs.last(), colors, depth);
        lemma_reset_lines_add(fields_paths(prefix, fs.drop_last()), reset_paths(prefix, fs.last()), colors, depth);
    }
}

proof fn lemma_tops_text_lines(tops: Seq<FlatModel>, colors: Map<Seq<char>, Rgba>, depth: nat)
    ensures
        reset_tops_text(tops, colors, depth) == reset_lines(tops_paths(tops), colors, depth),
    decreases tops.len(),
{
    if tops.len() > 0 {
        let rest = tops.drop_last();
        lemma_tops_text_lines(rest, colors, depth);
        match tops.last() {
            FlatModel::Struct { name, fields } => {
                lemma_fields_text_lines(name, fields, colors, depth);
                lemma_reset_lines_add(tops_paths(rest), fields_paths(name, fields), colors, depth);
            },
            _ => {
                assert(tops_paths(tops) =~= tops_paths(rest));
                assert(reset_tops_text(tops, colors, depth) =~= reset_tops_text(rest, colors, depth));
            },
        }
    }
}

/// `reset` stores, entry by entry of the map from paths to color indices
/// that the source file ends with, the theme's color of the entry's path at
/// the entry's index: after `reset`, the color found for a path through
/// `getDataIndex` is the theme's color of that path.
pub proof fn lemma_reset_follows_data_map<'a>(layout: &Layout<'a>, colors: Map<Seq<char>, Rgba>, depth: nat)
    ensures
        reset_tops_text(layout.flat(), colors, depth) == reset_lines(tops_paths(layout.flat()), colors, depth),
{
    lemma_tops_text_lines(layout.flat(), colors, depth);
}

} // verus!
