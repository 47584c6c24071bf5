//! The theme layout: named struct definitions and the top-level structs of
//! the generated `GeneratedTheme` class, read from a `layout.yml` file.

use crate::sorted::{entries_map, find_entry, insert_entry, lemma_entries_map, sorted};
use crate::text::string_push_str;
use vstd::prelude::*;

verus! {

/// The `fields` of a struct in the YAML file: either a map from field
/// names to optional nested structs (in the order of the file), or a list
/// of plain field names.
#[derive(Debug)]
pub enum YamlFields<'a> {
    Nested(Vec<(&'a str, Option<YamlStruct<'a>>)>),
    Sequence(Vec<&'a str>),
}

/// A struct in the YAML file: its fields, or a reference to a definition.
#[derive(Debug)]
pub struct YamlStruct<'a> {
    pub fields: Option<YamlFields<'a>>,
    pub reference: Option<&'a str>,
}

/// The whole YAML file: the named definitions and the top-level layout,
/// each in the order in which they are converted.
#[derive(Debug)]
pub struct YamlRootFile<'a> {
    pub definitions: Vec<(&'a str, YamlStruct<'a>)>,
    pub layout: Vec<(&'a str, YamlStruct<'a>)>,
}

/// An item of a struct in the layout.
#[derive(Debug, PartialEq)]
pub enum LayoutItem<'a> {
    /// A field whose type is the definition `referenced`.
    Ref { field_name: &'a str, referenced: &'a str, item_count: usize },
    /// A single color.
    Field { name: &'a str },
    /// A nested, anonymous struct.
    Struct { field_name: &'a str, fields: Vec<LayoutItem<'a>>, item_count: usize },
}

/// A named struct definition.
#[derive(Debug)]
pub struct LayoutDefinition<'a> {
    pub fields: Vec<LayoutItem<'a>>,
    pub item_count: usize,
}

/// The layout: definitions and top-level structs, each kept sorted by name
/// (to keep the output sorted).
#[derive(Debug)]
pub struct Layout<'a> {
    pub definitions: Vec<(&'a str, LayoutDefinition<'a>)>,
    pub items: Vec<(&'a str, Vec<LayoutItem<'a>>)>,
}

/// No name occurs twice in a nested field map of `s`, at any depth, as the
/// keys of a YAML mapping are unique.
pub open spec fn yaml_distinct<'a>(s: YamlStruct<'a>) -> bool
    decreases s, 1nat,
{
    match s.fields {
        Option::Some(YamlFields::Nested(n)) => {
            proof {
                assert(decreases_to!(n => n@));
            }
            nested_distinct(n@)
        },
        _ => true,
    }
}

/// No name occurs twice in the field map `n` or in a field map nested in it.
pub open spec fn nested_distinct<'a>(n: Seq<(&'a str, Option<YamlStruct<'a>>)>) -> bool
    decreases n, 0nat,
{
    &&& distinct_names(n)
    &&& forall|i: int|
        0 <= i < n.len() ==> ((#[trigger] n[i]).1 matches Option::Some(inner) ==> yaml_distinct(inner))
}

/// No name occurs twice in a nested field map of the file.
pub open spec fn yaml_file_distinct<'a>(yaml: YamlRootFile<'a>) -> bool {
    &&& forall|i: int|
        0 <= i < yaml.definitions@.len() ==> yaml_distinct((#[trigger] yaml.definitions@[i]).1)
    &&& forall|i: int| 0 <= i < yaml.layout@.len() ==> yaml_distinct((#[trigger] yaml.layout@[i]).1)
}

/// An item of the layout with every reference replaced by the referenced
/// definition, and every color numbered.
#[derive(Debug, PartialEq)]
pub enum FlatLayoutItem<'a> {
    Field { name: &'a str, id: usize },
    Struct { name: &'a str, fields: Vec<FlatLayoutItem<'a>> },
}

/// Why a layout could not be read.
#[derive(Debug, PartialEq)]
pub enum ParseError<'a> {
    /// The YAML could not be deserialized (its message).
    Serde(String),
    /// Couldn't find the definition that this reference names.
    RefNotFound(&'a str),
    /// A struct has both (or neither of) 'ref' and 'fields'.
    RefAndFields(&'a str),
    /// A definition is a reference, not a struct.
    DefinitionNotStruct(&'a str),
    /// A top-level item is a reference, not a struct.
    LayoutNotStruct(&'a str),
}

/// The message of a layout error.
pub open spec fn layout_error_message<'a>(e: ParseError<'a>) -> Seq<char> {
    match e {
        ParseError::Serde(m) => "Deserialization error: "@ + m@,
        ParseError::RefNotFound(r) => "Couldn't find definition for '"@ + r@ + "'"@,
        ParseError::RefAndFields(n) => "Found struct with both 'ref' and 'fields' in "@ + n@,
        ParseError::DefinitionNotStruct(n) => "Definition of "@ + n@ + " isn't a struct"@,
        ParseError::LayoutNotStruct(n) => "Layout of "@ + n@ + " isn't a struct"@,
    }
}

impl<'a> ParseError<'a> {
    /// The message of the error.
    pub fn message(&self) -> (s: String)
        ensures
            s@ == layout_error_message(*self),
    {
        let (head, name, tail) = match self {
            ParseError::Serde(m) => ("Deserialization error: ", m.as_str(), ""),
            ParseError::RefNotFound(r) => ("Couldn't find definition for '", *r, "'"),
            ParseError::RefAndFields(n) => ("Found struct with both 'ref' and 'fields' in ", *n, ""),
            ParseError::DefinitionNotStruct(n) => ("Definition of ", *n, " isn't a struct"),
            ParseError::LayoutNotStruct(n) => ("Layout of ", *n, " isn't a struct"),
        };
        let mut s = head.to_owned();
        string_push_str(&mut s, name);
        string_push_str(&mut s, tail);
        proof {
            reveal_strlit("");
        }
        assert(s@ =~= layout_error_message(*self));
        s
    }
}

/// The mathematical value of a [`LayoutItem`].
pub enum ItemModel {
    Ref { field_name: Seq<char>, referenced: Seq<char>, item_count: nat },
    Field { name: Seq<char> },
    Struct { field_name: Seq<char>, fields: Seq<ItemModel>, item_count: nat },
}

/// Definitions by name: their fields and item count.
pub type DefsModel = Map<Seq<char>, (Seq<ItemModel>, nat)>;

impl ItemModel {
    /// The item count stored in this item.
    pub open spec fn count(self) -> nat {
        match self {
            ItemModel::Ref { item_count, .. } => item_count,
            ItemModel::Field { .. } => 1,
            ItemModel::Struct { item_count, .. } => item_count,
        }
    }
}

impl<'a> LayoutItem<'a> {
    pub open spec fn model(self) -> ItemModel
        decreases self,
    {
        match self {
            LayoutItem::Ref { field_name, referenced, item_count } => ItemModel::Ref {
                field_name: field_name@,
                referenced: referenced@,
                item_count: item_count as nat,
            },
            LayoutItem::Field { name } => ItemModel::Field { name: name@ },
            LayoutItem::Struct { field_name, fields, item_count } => ItemModel::Struct {
                field_name: field_name@,
                fields: Seq::new(
                    fields@.len(),
                    |i: int|
                        if 0 <= i < fields@.len() {
                            fields@[i].model()
                        } else {
                            ItemModel::Field { name: Seq::empty() }
                        },
                ),
                item_count: item_count as nat,
            },
        }
    }
}

/// The models of a list of items.
pub open spec fn items_model<'a>(items: Seq<LayoutItem<'a>>) -> Seq<ItemModel> {
    items.map_values(|i: LayoutItem<'a>| i.model())
}

/// The number of colors in `items`, with references expanded up to `fuel` levels deep.
pub open spec fn leaves(defs: DefsModel, items: Seq<ItemModel>, fuel: nat) -> nat
    decreases fuel, items, 1nat,
{
    if items.len() == 0 {
        0
    } else {
        leaves(defs, items.drop_last(), fuel) + item_leaves(defs, items.last(), fuel)
    }
}

/// The number of colors in `item`, with references expanded up to `fuel` levels deep.
pub open spec fn item_leaves(defs: DefsModel, item: ItemModel, fuel: nat) -> nat
    decreases fuel, item, 0nat,
{
    match item {
        ItemModel::Ref { referenced, .. } => {
            if fuel > 0 && defs.contains_key(referenced) {
                leaves(defs, defs[referenced].0, (fuel - 1) as nat)
            } else {
                0
            }
        },
        ItemModel::Field { .. } => 1,
        ItemModel::Struct { fields, .. } => leaves(defs, fields, fuel),
    }
}

/// Every reference in `items` names a definition, references nest at most
/// `fuel` levels deep, and every item count is the number of colors in its item.
pub open spec fn items_ok(defs: DefsModel, items: Seq<ItemModel>, fuel: nat) -> bool
    decreases fuel, items, 1nat,
{
    forall|i: int| 0 <= i < items.len() ==> item_ok(defs, #[trigger] items[i], fuel)
}

/// See [`items_ok`].
pub open spec fn item_ok(defs: DefsModel, item: ItemModel, fuel: nat) -> bool
    decreases fuel, item, 0nat,
{
    match item {
        ItemModel::Ref { referenced, item_count, .. } => {
            &&& fuel > 0
            &&& defs.contains_key(referenced)
            &&& item_count == defs[referenced].1
            &&& item_count == leaves(defs, defs[referenced].0, (fuel - 1) as nat)
            &&& items_ok(defs, defs[referenced].0, (fuel - 1) as nat)
        },
        ItemModel::Field { .. } => true,
        ItemModel::Struct { fields, item_count, .. } => {
            &&& items_ok(defs, fields, fuel)
            &&& item_count == leaves(defs, fields, fuel)
        },
    }
}


/// The outcome of converting a YAML struct, as far as it goes: the item,
/// the error that stops it, or an item count that no longer fits a `usize`.
pub enum Converted<'a> {
    Done(ItemModel),
    Failed(ParseError<'a>),
    Overflow,
}

/// The outcome of converting the first entries of a nested field map:
/// the items and their count so far, or what stopped it.
pub enum NestedConverted<'a> {
    Done(Seq<ItemModel>, nat),
    Failed(ParseError<'a>),
    Overflow,
}

/// Converting the YAML struct `s` named `name`, with the definitions `defs`
/// (names and item counts) known so far.
pub open spec fn spec_convert<'a>(defs: DefsModel, name: &'a str, s: YamlStruct<'a>) -> Converted<'a>
    decreases s, 0nat,
{
    match (s.reference, s.fields) {
        (Option::Some(r), Option::None) => {
            if defs.contains_key(r@) {
                Converted::Done(
                    ItemModel::Ref { field_name: name@, referenced: r@, item_count: defs[r@].1 },
                )
            } else {
                Converted::Failed(ParseError::RefNotFound(r))
            }
        },
        (Option::None, Option::Some(fields)) => match fields {
            YamlFields::Nested(n) => {
                proof {
                    assert(decreases_to!(n => n@));
                }
                match spec_convert_nested(defs, n@, n@.len()) {
                    NestedConverted::Done(items, count) => Converted::Done(
                        ItemModel::Struct { field_name: name@, fields: items, item_count: count },
                    ),
                    NestedConverted::Failed(e) => Converted::Failed(e),
                    NestedConverted::Overflow => Converted::Overflow,
                }
            },
            YamlFields::Sequence(v) => Converted::Done(
                ItemModel::Struct {
                    field_name: name@,
                    fields: v@.map_values(|f: &'a str| ItemModel::Field { name: f@ }),
                    item_count: v@.len(),
                },
            ),
        },
        _ => Converted::Failed(ParseError::RefAndFields(name)),
    }
}

/// Converting the first `k` entries of the nested field map `n`.
pub open spec fn spec_convert_nested<'a>(
    defs: DefsModel,
    n: Seq<(&'a str, Option<YamlStruct<'a>>)>,
    k: nat,
) -> NestedConverted<'a>
    decreases n, k,
{
    if k == 0 || k > n.len() {
        NestedConverted::Done(Seq::empty(), 0)
    } else {
        match spec_convert_nested(defs, n, (k - 1) as nat) {
            NestedConverted::Done(items, count) => {
                let (field_name, inner) = n[k - 1];
                match inner {
                    Option::Some(s) => match spec_convert(defs, field_name, s) {
                        Converted::Done(item) => {
                            if count + item.count() > usize::MAX {
                                NestedConverted::Overflow
                            } else {
                                NestedConverted::Done(items.push(item), count + item.count())
                            }
                        },
                        Converted::Failed(e) => NestedConverted::Failed(e),
                        Converted::Overflow => NestedConverted::Overflow,
                    },
                    Option::None => {
                        if count + 1 > usize::MAX {
                            NestedConverted::Overflow
                        } else {
                            NestedConverted::Done(
                                items.push(ItemModel::Field { name: field_name@ }),
                                count + 1,
                            )
                        }
                    },
                }
            },
            other => other,
        }
    }
}

impl<'a> Layout<'a> {
    /// The definitions by name: their fields and item count.
    pub open spec fn defs_model(&self) -> DefsModel {
        entries_map(self.definitions@).map_values(
            |d: LayoutDefinition<'a>| (items_model(d.fields@), d.item_count as nat),
        )
    }

    /// The top-level structs by name: their fields.
    pub open spec fn items_model(&self) -> Map<Seq<char>, Seq<ItemModel>> {
        entries_map(self.items@).map_values(|v: Vec<LayoutItem<'a>>| items_model(v@))
    }

    /// How deep references may nest: one level per definition.
    pub open spec fn depth(&self) -> nat {
        self.definitions@.len()
    }

    /// Names are sorted, every reference names a definition, references do
    /// not nest deeper than there are definitions (so they have no cycle),
    /// and every item count is the number of colors of its item.
    pub open spec fn well_formed(&self) -> bool {
        &&& sorted(self.definitions@)
        &&& sorted(self.items@)
        &&& defs_ok(self.defs_model(), self.depth())
        &&& forall|k: Seq<char>| #[trigger]
            self.items_model().contains_key(k) ==> items_ok(
                self.defs_model(),
                self.items_model()[k],
                self.depth() + 1,
            )
    }
}

impl<'a> LayoutItem<'a> {
    /// The number of colors in this item.
    pub fn item_count(&self) -> (r: usize)
        ensures
            r == self.model().count(),
    {
        match self {
            LayoutItem::Ref { item_count, .. } => *item_count,
            LayoutItem::Field { .. } => 1,
            LayoutItem::Struct { item_count, .. } => *item_count,
        }
    }
}

/// The model of a struct item lists the models of its fields.
pub proof fn lemma_struct_model<'a>(item: LayoutItem<'a>)
    ensures
        item matches LayoutItem::Struct { field_name, fields, item_count } ==> item.model()
            == (ItemModel::Struct {
            field_name: field_name@,
            fields: items_model(fields@),
            item_count: item_count as nat,
        }),
{
    if let LayoutItem::Struct { field_name, fields, item_count } = item {
        let fm = item.model()->Struct_fields;
        assert(fm.len() == fields@.len());
        assert forall|i: int| 0 <= i < fm.len() implies fm[i] == fields@[i].model() by {}
        assert(items_model(fields@) =~= fm);
    }
}

/// `r` is what `c` says converting gives.
pub open spec fn converted_as<'a>(r: Option<Result<LayoutItem<'a>, ParseError<'a>>>, c: Converted<'a>) -> bool {
    match c {
        Converted::Done(m) => r matches Option::Some(Result::Ok(item)) && item.model() == m,
        Converted::Failed(e) => r == Option::Some(Result::<LayoutItem<'a>, ParseError<'a>>::Err(e)),
        Converted::Overflow => r is None,
    }
}

/// Once converting the entries of a nested field map stops (with an error or an
/// overflow), converting more of its entries stops the same way.
proof fn lemma_nested_stops<'a>(
    defs: DefsModel,
    n: Seq<(&'a str, Option<YamlStruct<'a>>)>,
    j: nat,
    k: nat,
)
    requires
        j <= k <= n.len(),
        !(spec_convert_nested(defs, n, j) is Done),
    ensures
        spec_convert_nested(defs, n, k) == spec_convert_nested(defs, n, j),
    decreases k - j,
{
    if j < k {
        lemma_nested_stops(defs, n, j, (k - 1) as nat);
    }
}

/// Converts the YAML struct `s` named `name`, using the definitions of
/// `current`; `None` where an item count does not fit a `usize`.
fn convert_struct<'a>(current: &Layout<'a>, name: &'a str, s: &YamlStruct<'a>) -> (r: Option<
    Result<LayoutItem<'a>, ParseError<'a>>,
>)
    requires
        current.well_formed(),
    ensures
        converted_as(r, spec_convert(current.defs_model(), name, *s)),
    decreases s,
{
    let ghost defs = current.defs_model();
    match (&s.reference, &s.fields) {
        (Option::Some(r), Option::None) => {
            proof {
                lemma_entries_map(current.definitions@);
            }
            match find_entry(&current.definitions, r) {
                Option::None => {
                    assert(!defs.contains_key(r@));
                    Option::Some(Result::Err(ParseError::RefNotFound(r)))
                },
                Option::Some(i) => {
                    assert(defs.contains_key(r@));
                    Option::Some(
                        Result::Ok(
                            LayoutItem::Ref {
                                field_name: name,
                                item_count: current.definitions[i].1.item_count,
                                referenced: r,
                            },
                        ),
                    )
                },
            }
        },
        (Option::None, Option::Some(fields)) => {
            let mut items: Vec<LayoutItem<'a>> = Vec::new();
            let mut item_count: usize = 0;
            match fields {
                YamlFields::Nested(n) => {
                    let mut k: usize = 0;
                    assert(items_model(items@) =~= Seq::<ItemModel>::empty());
                    while k < n.len()
                        invariant
                            k <= n@.len(),
                            s.reference is None,
                            s.fields == Option::Some(*fields),
                            *fields == YamlFields::Nested(*n),
                            current.well_formed(),
                            defs == current.defs_model(),
                            spec_convert_nested(defs, n@, n@.len()) == match spec_convert(defs, name, *s) {
                                Converted::Done(ItemModel::Struct { fields, item_count, .. }) => NestedConverted::Done(fields, item_count),
                                Converted::Failed(e) => NestedConverted::Failed(e),
                                _ => NestedConverted::Overflow,
                            },
                            spec_convert_nested(defs, n@, k as nat) == NestedConverted::<'a>::Done(
                                items_model(items@),
                                item_count as nat,
                            ),
                        decreases n@.len() - k,
                    {
                        let ghost items0 = items@;
                        let (field_name, inner) = &n[k];
                        match inner {
                            Option::Some(inner) => {
                                proof {
                                    assert(decreases_to!(*s => s.fields));
                                    assert(s.fields->0 == *fields);
                                    assert(decreases_to!(s.fields => s.fields->0));
                                    assert(decreases_to!(*fields => fields->Nested_0));
                                    assert(decreases_to!(*n => n@));
                                    assert(decreases_to!(n@ => n@[k as int]));
                                    assert(decreases_to!(n@[k as int] => n@[k as int].1));
                                    assert(decreases_to!(n@[k as int].1 => *inner));
                                    if spec_convert(defs, field_name, *inner) is Overflow {
                                        lemma_nested_stops(defs, n@, (k + 1) as nat, n@.len());
                                    }
                                }
                                match convert_struct(current, field_name, inner) {
                                    Option::Some(Result::Ok(converted)) => {
                                        let c = converted.item_count();
                                        match item_count.checked_add(c) {
                                            Option::Some(sum) => {
                                                item_count = sum;
                                            },
                                            Option::None => {
                                                proof {
                                                    lemma_nested_stops(defs, n@, (k + 1) as nat, n@.len());
                                                }
                                                return Option::None;
                                            },
                                        }
                                        items.push(converted);
                                    },
                                    Option::Some(Result::Err(e)) => {
                                        proof {
                                            lemma_nested_stops(defs, n@, (k + 1) as nat, n@.len());
                                        }
                                        return Option::Some(Result::Err(e));
                                    },
                                    Option::None => {
                                        return Option::None;
                                    },
                                }
                            },
                            Option::None => {
                                match item_count.checked_add(1) {
                                    Option::Some(sum) => {
                                        item_count = sum;
                                    },
                                    Option::None => {
                                        proof {
                                            lemma_nested_stops(defs, n@, (k + 1) as nat, n@.len());
                                        }
                                        return Option::None;
                                    },
                                }
                                items.push(LayoutItem::Field { name: field_name });
                            },
                        }
                        proof {
                            assert(items_model(items@) =~= items_model(items0).push(items@.last().model()));
                        }
                        k = k + 1;
                    }
                },
                YamlFields::Sequence(v) => {
                    let mut k: usize = 0;
                    while k < v.len()
                        invariant
                            k <= v@.len(),
                            items_model(items@) == v@.take(k as int).map_values(
                                |f: &'a str| ItemModel::Field { name: f@ },
                            ),
                        decreases v@.len() - k,
                    {
                        let ghost items0 = items@;
                        items.push(LayoutItem::Field { name: v[k] });
                        proof {
                            assert(items_model(items@) =~= items_model(items0).push(ItemModel::Field { name: v@[k as int]@ }));
                            assert(v@.take(k + 1) =~= v@.take(k as int).push(v@[k as int]));
                            assert(items_model(items@) =~= v@.take(k + 1).map_values(
                                |f: &'a str| ItemModel::Field { name: f@ },
                            ));
                        }
                        k = k + 1;
                    }
                    assert(v@.take(v@.len() as int) =~= v@);
                    item_count = v.len();
                },
            }
            let ghost im = items_model(items@);
            let item = LayoutItem::Struct { field_name: name, fields: items, item_count };
            proof {
                lemma_struct_model(item);
            }
            Option::Some(Result::Ok(item))
        },
        _ => Option::Some(Result::Err(ParseError::RefAndFields(name))),
    }
}

/// Appending an item adds its colors.
pub proof fn lemma_leaves_push(defs: DefsModel, items: Seq<ItemModel>, item: ItemModel, fuel: nat)
    ensures
        leaves(defs, items.push(item), fuel) == leaves(defs, items, fuel) + item_leaves(defs, item, fuel),
        items_ok(defs, items, fuel) && item_ok(defs, item, fuel) ==> items_ok(defs, items.push(item), fuel),
{
    assert(items.push(item).drop_last() =~= items);
    if items_ok(defs, items, fuel) && item_ok(defs, item, fuel) {
        assert forall|i: int| 0 <= i < items.push(item).len() implies item_ok(
            defs,
            #[trigger] items.push(item)[i],
            fuel,
        ) by {
            if i < items.len() {
                assert(items.push(item)[i] == items[i]);
            }
        }
    }
}

/// More fuel changes nothing for items that are fine with less.
pub proof fn lemma_ok_more_fuel(defs: DefsModel, items: Seq<ItemModel>, fuel: nat)
    requires
        items_ok(defs, items, fuel),
    ensures
        items_ok(defs, items, fuel + 1),
        leaves(defs, items, fuel) == leaves(defs, items, fuel + 1),
    decreases fuel, items, 1nat,
{
    if items.len() > 0 {
        assert(items_ok(defs, items.drop_last(), fuel)) by {
            assert forall|i: int| 0 <= i < items.drop_last().len() implies item_ok(
                defs,
                #[trigger] items.drop_last()[i],
                fuel,
            ) by {
                assert(items.drop_last()[i] == items[i]);
            }
        }
        lemma_ok_more_fuel(defs, items.drop_last(), fuel);
        lemma_item_ok_more_fuel(defs, items.last(), fuel);
        assert forall|i: int| 0 <= i < items.len() implies item_ok(defs, #[trigger] items[i], fuel + 1) by {
            if i < items.len() - 1 {
                assert(items.drop_last()[i] == items[i]);
            }
        }
    }
}

/// See [`lemma_ok_more_fuel`].
pub proof fn lemma_item_ok_more_fuel(defs: DefsModel, item: ItemModel, fuel: nat)
    requires
        item_ok(defs, item, fuel),
    ensures
        item_ok(defs, item, fuel + 1),
        item_leaves(defs, item, fuel) == item_leaves(defs, item, fuel + 1),
    decreases fuel, item, 0nat,
{
    match item {
        ItemModel::Ref { referenced, .. } => {
            lemma_ok_more_fuel(defs, defs[referenced].0, (fuel - 1) as nat);
        },
        ItemModel::Field { .. } => {},
        ItemModel::Struct { fields, .. } => {
            lemma_ok_more_fuel(defs, fields, fuel);
        },
    }
}

/// More definitions change nothing for items that are fine with fewer.
pub proof fn lemma_ok_more_defs(defs: DefsModel, more: DefsModel, items: Seq<ItemModel>, fuel: nat)
    requires
        items_ok(defs, items, fuel),
        defs.submap_of(more),
    ensures
        items_ok(more, items, fuel),
        leaves(defs, items, fuel) == leaves(more, items, fuel),
    decreases fuel, items, 1nat,
{
    if items.len() > 0 {
        assert(items_ok(defs, items.drop_last(), fuel)) by {
            assert forall|i: int| 0 <= i < items.drop_last().len() implies item_ok(
                defs,
                #[trigger] items.drop_last()[i],
                fuel,
            ) by {
                assert(items.drop_last()[i] == items[i]);
            }
        }
        lemma_ok_more_defs(defs, more, items.drop_last(), fuel);
        lemma_item_ok_more_defs(defs, more, items.last(), fuel);
        assert forall|i: int| 0 <= i < items.len() implies item_ok(more, #[trigger] items[i], fuel) by {
            if i < items.len() - 1 {
                assert(items.drop_last()[i] == items[i]);
            }
        }
    }
}

/// See [`lemma_ok_more_defs`].
pub proof fn lemma_item_ok_more_defs(defs: DefsModel, more: DefsModel, item: ItemModel, fuel: nat)
    requires
        item_ok(defs, item, fuel),
        defs.submap_of(more),
    ensures
        item_ok(more, item, fuel),
        item_leaves(defs, item, fuel) == item_leaves(more, item, fuel),
    decreases fuel, item, 0nat,
{
    match item {
        ItemModel::Ref { referenced, .. } => {
            assert(more.contains_key(referenced));
            lemma_ok_more_defs(defs, more, defs[referenced].0, (fuel - 1) as nat);
        },
        ItemModel::Field { .. } => {},
        ItemModel::Struct { fields, .. } => {
            lemma_ok_more_defs(defs, more, fields, fuel);
        },
    }
}

/// Definitions in which every entry is fine at depth `fuel`.
pub open spec fn defs_ok(defs: DefsModel, fuel: nat) -> bool {
    forall|k: Seq<char>| #[trigger]
        defs.contains_key(k) ==> {
            &&& items_ok(defs, defs[k].0, fuel)
            &&& defs[k].1 == leaves(defs, defs[k].0, fuel)
        }
}

/// A list of plain fields is fine, and has one color per field.
proof fn lemma_fields_ok<'a>(defs: DefsModel, v: Seq<&'a str>, fuel: nat)
    ensures
        ({
            let items = v.map_values(|f: &'a str| ItemModel::Field { name: f@ });
            &&& items_ok(defs, items, fuel)
            &&& leaves(defs, items, fuel) == v.len()
        }),
    decreases v.len(),
{
    let items = v.map_values(|f: &'a str| ItemModel::Field { name: f@ });
    if v.len() > 0 {
        lemma_fields_ok(defs, v.drop_last(), fuel);
        let prev = v.drop_last().map_values(|f: &'a str| ItemModel::Field { name: f@ });
        assert(items =~= prev.push(ItemModel::Field { name: v.last()@ }));
        lemma_leaves_push(defs, prev, ItemModel::Field { name: v.last()@ }, fuel);
    } else {
        assert(items =~= Seq::<ItemModel>::empty());
    }
}

/// A converted struct is fine one level deeper than its definitions, and
/// its count is its number of colors.
pub proof fn lemma_convert_ok<'a>(defs: DefsModel, fuel: nat, name: &'a str, s: YamlStruct<'a>)
    requires
        fuel > 0,
        defs_ok(defs, (fuel - 1) as nat),
    ensures
        spec_convert(defs, name, s) matches Converted::Done(m) ==> item_ok(defs, m, fuel)
            && m.count() == item_leaves(defs, m, fuel),
    decreases s, 0nat,
{
    match (s.reference, s.fields) {
        (Option::None, Option::Some(fields)) => match fields {
            YamlFields::Nested(n) => {
                assert(decreases_to!(n => n@));
                lemma_nested_ok(defs, fuel, n@, n@.len());
            },
            YamlFields::Sequence(v) => {
                lemma_fields_ok(defs, v@, fuel);
            },
        },
        _ => {},
    }
}

/// See [`lemma_convert_ok`].
pub proof fn lemma_nested_ok<'a>(
    defs: DefsModel,
    fuel: nat,
    n: Seq<(&'a str, Option<YamlStruct<'a>>)>,
    k: nat,
)
    requires
        fuel > 0,
        defs_ok(defs, (fuel - 1) as nat),
    ensures
        spec_convert_nested(defs, n, k) matches NestedConverted::Done(items, count) ==> items_ok(
            defs,
            items,
            fuel,
        ) && count == leaves(defs, items, fuel),
    decreases n, k,
{
    if k == 0 || k > n.len() {
        assert(items_ok(defs, Seq::empty(), fuel));
    } else {
        lemma_nested_ok(defs, fuel, n, (k - 1) as nat);
        if let NestedConverted::Done(items, count) = spec_convert_nested(defs, n, (k - 1) as nat) {
            let (field_name, inner) = n[k - 1];
            match inner {
                Option::Some(s) => {
                    lemma_convert_ok(defs, fuel, field_name, s);
                    if let Converted::Done(item) = spec_convert(defs, field_name, s) {
                        lemma_leaves_push(defs, items, item, fuel);
                    }
                },
                Option::None => {
                    lemma_leaves_push(defs, items, ItemModel::Field { name: field_name@ }, fuel);
                },
            }
        }
    }
}

/// The outcome of reading the first definitions or top-level structs.
pub enum Outcome<'a, M> {
    Done(M),
    Failed(ParseError<'a>),
    Overflow,
}

/// Reading the first `k` definitions, each with the definitions before it.
pub open spec fn spec_definitions<'a>(defs: Seq<(&'a str, YamlStruct<'a>)>, k: nat) -> Outcome<
    'a,
    DefsModel,
>
    decreases k,
{
    if k == 0 || k > defs.len() {
        Outcome::Done(Map::empty())
    } else {
        match spec_definitions(defs, (k - 1) as nat) {
            Outcome::Done(d) => {
                let (name, s) = defs[k - 1];
                match spec_convert(d, name, s) {
                    Converted::Done(ItemModel::Struct { fields, item_count, .. }) => Outcome::Done(
                        d.insert(name@, (fields, item_count)),
                    ),
                    Converted::Done(_) => Outcome::Failed(ParseError::DefinitionNotStruct(name)),
                    Converted::Failed(e) => Outcome::Failed(e),
                    Converted::Overflow => Outcome::Overflow,
                }
            },
            other => other,
        }
    }
}

/// Reading the first `k` top-level structs, with the definitions `defs`.
pub open spec fn spec_layout_items<'a>(
    defs: DefsModel,
    items: Seq<(&'a str, YamlStruct<'a>)>,
    k: nat,
) -> Outcome<'a, Map<Seq<char>, Seq<ItemModel>>>
    decreases k,
{
    if k == 0 || k > items.len() {
        Outcome::Done(Map::empty())
    } else {
        match spec_layout_items(defs, items, (k - 1) as nat) {
            Outcome::Done(m) => {
                let (name, s) = items[k - 1];
                match spec_convert(defs, name, s) {
                    Converted::Done(ItemModel::Struct { fields, .. }) => Outcome::Done(
                        m.insert(name@, fields),
                    ),
                    Converted::Done(_) => Outcome::Failed(ParseError::LayoutNotStruct(name)),
                    Converted::Failed(e) => Outcome::Failed(e),
                    Converted::Overflow => Outcome::Overflow,
                }
            },
            other => other,
        }
    }
}

/// Reading a whole layout file: its definitions, then its top-level structs.
pub open spec fn spec_parse<'a>(yaml: YamlRootFile<'a>) -> Outcome<
    'a,
    (DefsModel, Map<Seq<char>, Seq<ItemModel>>),
> {
    match spec_definitions(yaml.definitions@, yaml.definitions@.len()) {
        Outcome::Done(defs) => match spec_layout_items(defs, yaml.layout@, yaml.layout@.len()) {
            Outcome::Done(items) => Outcome::Done((defs, items)),
            Outcome::Failed(e) => Outcome::Failed(e),
            Outcome::Overflow => Outcome::Overflow,
        },
        Outcome::Failed(e) => Outcome::Failed(e),
        Outcome::Overflow => Outcome::Overflow,
    }
}

/// No two entries have the same name.
pub open spec fn distinct_names<'a, T>(v: Seq<(&'a str, T)>) -> bool {
    forall|i: int, j: int| 0 <= i < j < v.len() ==> v[i].0@ != v[j].0@
}

proof fn lemma_definitions_stop<'a>(defs: Seq<(&'a str, YamlStruct<'a>)>, j: nat, k: nat)
    requires
        j <= k <= defs.len(),
        !(spec_definitions(defs, j) is Done),
    ensures
        spec_definitions(defs, k) == spec_definitions(defs, j),
    decreases k - j,
{
    if j < k {
        lemma_definitions_stop(defs, j, (k - 1) as nat);
    }
}

proof fn lemma_items_stop<'a>(
    defs: DefsModel,
    items: Seq<(&'a str, YamlStruct<'a>)>,
    j: nat,
    k: nat,
)
    requires
        j <= k <= items.len(),
        !(spec_layout_items(defs, items, j) is Done),
    ensures
        spec_layout_items(defs, items, k) == spec_layout_items(defs, items, j),
    decreases k - j,
{
    if j < k {
        lemma_items_stop(defs, items, j, (k - 1) as nat);
    }
}

/// The names of the first `k` definitions are those of a successful read.
proof fn lemma_definitions_names<'a>(defs: Seq<(&'a str, YamlStruct<'a>)>, k: nat)
    requires
        k <= defs.len(),
    ensures
        spec_definitions(defs, k) matches Outcome::Done(d) ==> forall|n: Seq<char>|
            #[trigger] d.contains_key(n) <==> exists|i: int| 0 <= i < k && defs[i].0@ == n,
    decreases k,
{
    if k > 0 {
        lemma_definitions_names(defs, (k - 1) as nat);
        if let Outcome::Done(d) = spec_definitions(defs, k) {
            assert forall|n: Seq<char>| #[trigger] d.contains_key(n) implies exists|i: int|
                0 <= i < k && defs[i].0@ == n by {
                if n != defs[k - 1].0@ {
                    let i = choose|i: int| 0 <= i < k - 1 && defs[i].0@ == n;
                }
            }
            assert forall|n: Seq<char>| (exists|i: int| 0 <= i < k && defs[i].0@ == n) implies #[trigger] d.contains_key(n) by {
                let i = choose|i: int| 0 <= i < k && defs[i].0@ == n;
                if i < k - 1 {
                    assert(exists|i: int| 0 <= i < k - 1 && defs[i].0@ == n);
                }
            }
        }
    }
}

impl<'a> Layout<'a> {
    /// Reads a layout from its YAML file: first every definition (each may
    /// reference the definitions before it), then every top-level struct.
    pub fn parse(yaml: &YamlRootFile<'a>) -> (r: Result<Self, ParseError<'a>>)
        requires
            distinct_names(yaml.definitions@),
            yaml_file_distinct(*yaml),
            !(spec_parse(*yaml) is Overflow),
        ensures
            match spec_parse(*yaml) {
                Outcome::Done((defs, items)) => r matches Result::Ok(l) && l.well_formed()
                    && l.defs_model() == defs && l.items_model() == items,
                Outcome::Failed(e) => r matches Result::Err(f) && f == e,
                Outcome::Overflow => false,
            },
    {
        Self::parse_checked(yaml).unwrap()
    }

    /// Reads a layout as [`Layout::parse`] does, or gives `None` where an
    /// item count does not fit a `usize`.
    pub fn parse_checked(yaml: &YamlRootFile<'a>) -> (r: Option<Result<Self, ParseError<'a>>>)
        requires
            distinct_names(yaml.definitions@),
            yaml_file_distinct(*yaml),
        ensures
            match spec_parse(*yaml) {
                Outcome::Done((defs, items)) => r matches Option::Some(Result::Ok(l)) && l.well_formed()
                    && l.defs_model() == defs && l.items_model() == items,
                Outcome::Failed(e) => r matches Option::Some(Result::Err(f)) && f == e,
                Outcome::Overflow => r is None,
            },
    {
        let mut layout = Layout { definitions: Vec::new(), items: Vec::new() };
        let ghost ydefs = yaml.definitions@;
        let ghost yitems = yaml.layout@;
        assert(layout.defs_model() =~= Map::empty());
        assert(layout.items_model() =~= Map::empty());
        let mut k: usize = 0;
        while k < yaml.definitions.len()
            invariant
                ydefs == yaml.definitions@,
                yitems == yaml.layout@,
                distinct_names(ydefs),
                k <= ydefs.len(),
                layout.well_formed(),
                layout.items@.len() == 0,
                layout.definitions@.len() == k,
                spec_definitions(ydefs, k as nat) == Outcome::<'a, DefsModel>::Done(layout.defs_model()),
            decreases ydefs.len() - k,
        {
            let (key, value) = &yaml.definitions[k];
            let ghost defs = layout.defs_model();
            proof {
                if spec_convert(defs, *key, *value) is Overflow {
                    lemma_definitions_stop(ydefs, (k + 1) as nat, ydefs.len());
                }
                lemma_convert_ok(defs, (k + 1) as nat, *key, *value);
            }
            match convert_struct(&layout, key, value) {
                Option::Some(Result::Ok(item)) => {
                    proof {
                        lemma_struct_model(item);
                    }
                    match item {
                        LayoutItem::Struct { fields, item_count, .. } => {
                            let ghost d = (items_model(fields@), item_count as nat);
                            proof {
                                lemma_definitions_names(ydefs, k as nat);
                                assert(!defs.contains_key(key@));
                            }
                            insert_entry(
                                &mut layout.definitions,
                                key,
                                LayoutDefinition { fields, item_count },
                            );
                            proof {
                                assert(layout.defs_model() =~= defs.insert(key@, d));
                                lemma_more_defs_ok(defs, layout.defs_model(), k as nat);
                                lemma_ok_more_defs(defs, layout.defs_model(), d.0, (k + 1) as nat);
                            }
                        },
                        _ => {
                            proof {
                                lemma_definitions_stop(ydefs, (k + 1) as nat, ydefs.len());
                            }
                            return Option::Some(Result::Err(ParseError::DefinitionNotStruct(key)));
                        },
                    }
                },
                Option::Some(Result::Err(e)) => {
                    proof {
                        lemma_definitions_stop(ydefs, (k + 1) as nat, ydefs.len());
                    }
                    return Option::Some(Result::Err(e));
                },
                Option::None => {
                    proof {
                        lemma_definitions_stop(ydefs, (k + 1) as nat, ydefs.len());
                    }
                    return Option::None;
                },
            }
            k = k + 1;
        }
        let ghost defs = layout.defs_model();
        assert(layout.items_model() =~= Map::empty());
        let mut k: usize = 0;
        while k < yaml.layout.len()
            invariant
                ydefs == yaml.definitions@,
                yitems == yaml.layout@,
                spec_definitions(ydefs, ydefs.len()) == Outcome::<'a, DefsModel>::Done(defs),
                k <= yitems.len(),
                layout.well_formed(),
                layout.defs_model() == defs,
                spec_layout_items(defs, yitems, k as nat) == Outcome::<
                    'a,
                    Map<Seq<char>, Seq<ItemModel>>,
                >::Done(layout.items_model()),
            decreases yitems.len() - k,
        {
            let (key, value) = &yaml.layout[k];
            let ghost items = layout.items_model();
            proof {
                if spec_convert(defs, *key, *value) is Overflow {
                    lemma_items_stop(defs, yitems, (k + 1) as nat, yitems.len());
                }
                lemma_convert_ok(defs, layout.depth() + 1, *key, *value);
            }
            match convert_struct(&layout, key, value) {
                Option::Some(Result::Ok(item)) => {
                    proof {
                        lemma_struct_model(item);
                    }
                    match item {
                        LayoutItem::Struct { fields, .. } => {
                            let ghost f = items_model(fields@);
                            insert_entry(&mut layout.items, key, fields);
                            proof {
                                assert(layout.items_model() =~= items.insert(key@, f));
                            }
                        },
                        _ => {
                            proof {
                                lemma_items_stop(defs, yitems, (k + 1) as nat, yitems.len());
                            }
                            return Option::Some(Result::Err(ParseError::LayoutNotStruct(key)));
                        },
                    }
                },
                Option::Some(Result::Err(e)) => {
                    proof {
                        lemma_items_stop(defs, yitems, (k + 1) as nat, yitems.len());
                    }
                    return Option::Some(Result::Err(e));
                },
                Option::None => {
                    proof {
                        lemma_items_stop(defs, yitems, (k + 1) as nat, yitems.len());
                    }
                    return Option::None;
                },
            }
            k = k + 1;
        }
        Option::Some(Result::Ok(layout))
    }
}

/// Adding a definition keeps the earlier ones fine, one level deeper.
proof fn lemma_more_defs_ok(defs: DefsModel, more: DefsModel, fuel: nat)
    requires
        defs_ok(defs, fuel),
        defs.submap_of(more),
    ensures
        forall|k: Seq<char>| #[trigger]
            defs.contains_key(k) ==> {
                &&& items_ok(more, defs[k].0, fuel + 1)
                &&& defs[k].1 == leaves(more, defs[k].0, fuel + 1)
            },
{
    assert forall|k: Seq<char>| #[trigger] defs.contains_key(k) implies {
        &&& items_ok(more, defs[k].0, fuel + 1)
        &&& defs[k].1 == leaves(more, defs[k].0, fuel + 1)
    } by {
        lemma_ok_more_fuel(defs, defs[k].0, fuel);
        lemma_ok_more_defs(defs, more, defs[k].0, fuel + 1);
    }
}

/// The mathematical value of a [`FlatLayoutItem`].
pub enum FlatModel {
    Field { name: Seq<char>, id: nat },
    Struct { name: Seq<char>, fields: Seq<FlatModel> },
}

impl<'a> FlatLayoutItem<'a> {
    pub open spec fn model(self) -> FlatModel
        decreases self,
    {
        match self {
            FlatLayoutItem::Field { name, id } => FlatModel::Field { name: name@, id: id as nat },
            FlatLayoutItem::Struct { name, fields } => FlatModel::Struct {
                name: name@,
                fields: Seq::new(
                    fields@.len(),
                    |i: int|
                        if 0 <= i < fields@.len() {
                            fields@[i].model()
                        } else {
                            FlatModel::Field { name: Seq::empty(), id: 0 }
                        },
                ),
            },
        }
    }
}

/// The models of a list of flat items.
pub open spec fn flat_models<'a>(items: Seq<FlatLayoutItem<'a>>) -> Seq<FlatModel> {
    items.map_values(|i: FlatLayoutItem<'a>| i.model())
}

/// The model of a flat struct lists the models of its fields.
pub proof fn lemma_flat_struct_model<'a>(item: FlatLayoutItem<'a>)
    ensures
        item matches FlatLayoutItem::Struct { name, fields } ==> item.model() == (FlatModel::Struct {
            name: name@,
            fields: flat_models(fields@),
        }),
{
    if let FlatLayoutItem::Struct { name, fields } = item {
        let fm = item.model()->Struct_fields;
        assert(fm.len() == fields@.len());
        assert forall|i: int| 0 <= i < fm.len() implies fm[i] == fields@[i].model() by {}
        assert(flat_models(fields@) =~= fm);
    }
}

/// `items` with references expanded and colors numbered from `start` on.
pub open spec fn flat_fields(defs: DefsModel, items: Seq<ItemModel>, start: nat, fuel: nat) -> Seq<
    FlatModel,
>
    decreases fuel, items, 1nat,
{
    if items.len() == 0 {
        Seq::empty()
    } else {
        flat_fields(defs, items.drop_last(), start, fuel).push(
            flat_item(defs, items.last(), start + leaves(defs, items.drop_last(), fuel), fuel),
        )
    }
}

/// `item` with references expanded and colors numbered from `start` on.
pub open spec fn flat_item(defs: DefsModel, item: ItemModel, start: nat, fuel: nat) -> FlatModel
    decreases fuel, item, 0nat,
{
    match item {
        ItemModel::Ref { field_name, referenced, .. } => FlatModel::Struct {
            name: field_name,
            fields: if fuel > 0 && defs.contains_key(referenced) {
                flat_fields(defs, defs[referenced].0, start, (fuel - 1) as nat)
            } else {
                Seq::empty()
            },
        },
        ItemModel::Field { name } => FlatModel::Field { name, id: start },
        ItemModel::Struct { field_name, fields, .. } => FlatModel::Struct {
            name: field_name,
            fields: flat_fields(defs, fields, start, fuel),
        },
    }
}

/// The top-level structs `tops` flattened, numbered from `start` on.
pub open spec fn flat_tops<'a>(
    defs: DefsModel,
    tops: Seq<(&'a str, Vec<LayoutItem<'a>>)>,
    start: nat,
    fuel: nat,
) -> Seq<FlatModel>
    decreases tops.len(),
{
    if tops.len() == 0 {
        Seq::empty()
    } else {
        let last = tops.last();
        flat_tops(defs, tops.drop_last(), start, fuel).push(
            FlatModel::Struct {
                name: last.0@,
                fields: flat_fields(
                    defs,
                    items_model(last.1@),
                    start + tops_leaves(defs, tops.drop_last(), fuel),
                    fuel,
                ),
            },
        )
    }
}

/// The number of colors in the top-level structs `tops`.
pub open spec fn tops_leaves<'a>(defs: DefsModel, tops: Seq<(&'a str, Vec<LayoutItem<'a>>)>, fuel: nat) -> nat
    decreases tops.len(),
{
    if tops.len() == 0 {
        0
    } else {
        tops_leaves(defs, tops.drop_last(), fuel) + leaves(defs, items_model(tops.last().1@), fuel)
    }
}

impl<'a> Layout<'a> {
    /// The number of colors in the whole layout.
    pub open spec fn total(&self) -> nat {
        tops_leaves(self.defs_model(), self.items@, self.depth() + 1)
    }

    /// The flattened layout.
    pub open spec fn flat(&self) -> Seq<FlatModel> {
        flat_tops(self.defs_model(), self.items@, 0, self.depth() + 1)
    }
}

/// The item counts of a list of items, added up.
pub open spec fn counts(items: Seq<ItemModel>) -> nat
    decreases items.len(),
{
    if items.len() == 0 {
        0
    } else {
        counts(items.drop_last()) + items.last().count()
    }
}

/// For fine items, the stored counts add up to their number of colors.
proof fn lemma_counts_leaves(defs: DefsModel, items: Seq<ItemModel>, fuel: nat)
    requires
        items_ok(defs, items, fuel),
    ensures
        counts(items) == leaves(defs, items, fuel),
    decreases items.len(),
{
    if items.len() > 0 {
        assert(item_ok(defs, items[items.len() - 1], fuel));
        assert(items_ok(defs, items.drop_last(), fuel)) by {
            assert forall|i: int| 0 <= i < items.drop_last().len() implies item_ok(
                defs,
                #[trigger] items.drop_last()[i],
                fuel,
            ) by {
                assert(items.drop_last()[i] == items[i]);
            }
        }
        lemma_counts_leaves(defs, items.drop_last(), fuel);
        lemma_item_count(defs, items.last(), fuel);
    }
}

/// The count stored in a fine item is its number of colors.
pub proof fn lemma_item_count(defs: DefsModel, item: ItemModel, fuel: nat)
    requires
        item_ok(defs, item, fuel),
    ensures
        item.count() == item_leaves(defs, item, fuel),
{
    match item {
        ItemModel::Ref { .. } => {},
        ItemModel::Field { .. } => {},
        ItemModel::Struct { .. } => {},
    }
}

impl<'a> LayoutItem<'a> {
    /// Items of a well-formed layout are fine at its depth plus one.
    pub open spec fn fits_in(self, layout: &Layout<'a>) -> bool {
        item_ok(layout.defs_model(), self.model(), layout.depth() + 1)
    }
}

impl<'a> Layout<'a> {
    /// Counts the colors of all top-level structs.
    pub fn count_items(&self) -> (r: usize)
        requires
            self.well_formed(),
            self.total() <= usize::MAX,
        ensures
            r == self.total(),
    {
        let ghost defs = self.defs_model();
        let ghost fuel = self.depth() + 1;
        let mut sum: usize = 0;
        let mut k: usize = 0;
        proof {
            lemma_entries_map(self.items@);
        }
        while k < self.items.len()
            invariant
                k <= self.items@.len(),
                self.well_formed(),
                self.total() <= usize::MAX,
                defs == self.defs_model(),
                fuel == self.depth() + 1,
                forall|i: int| #![trigger self.items@[i]]
                    0 <= i < self.items@.len() ==> self.items_model().contains_key(self.items@[i].0@)
                        && self.items_model()[self.items@[i].0@] == items_model(self.items@[i].1@),
                sum == tops_leaves(defs, self.items@.take(k as int), fuel),
            decreases self.items@.len() - k,
        {
            let fields = &self.items[k].1;
            let mut j: usize = 0;
            let ghost before = sum;
            proof {
                lemma_tops_prefix(defs, self.items@, (k + 1) as nat, fuel);
                assert(self.items@.take(k + 1).drop_last() =~= self.items@.take(k as int));
                assert(items_ok(defs, items_model(fields@), fuel));
                lemma_counts_leaves(defs, items_model(fields@), fuel);
            }
            while j < fields.len()
                invariant
                    j <= fields@.len(),
                    before + leaves(defs, items_model(fields@), fuel) <= usize::MAX,
                    counts(items_model(fields@)) == leaves(defs, items_model(fields@), fuel),
                    sum == before + counts(items_model(fields@).take(j as int)),
                decreases fields@.len() - j,
            {
                proof {
                    assert(items_model(fields@).take(j + 1).drop_last() =~= items_model(fields@).take(j as int));
                    lemma_counts_prefix(items_model(fields@), (j + 1) as nat);
                }
                sum = sum + fields[j].item_count();
                j = j + 1;
            }
            assert(items_model(fields@).take(j as int) =~= items_model(fields@));
            k = k + 1;
        }
        assert(self.items@.take(k as int) =~= self.items@);
        sum
    }
}

impl<'a> Layout<'a> {
    /// The number of colors in the layout, or `None` where it does not fit
    /// a `usize`.
    pub fn checked_count_items(&self) -> (r: Option<usize>)
        requires
            self.well_formed(),
        ensures
            r == if self.total() <= usize::MAX {
                Option::Some(self.total() as usize)
            } else {
                Option::<usize>::None
            },
    {
        let ghost defs = self.defs_model();
        let ghost fuel = self.depth() + 1;
        let mut sum: usize = 0;
        let mut k: usize = 0;
        proof {
            lemma_entries_map(self.items@);
        }
        while k < self.items.len()
            invariant
                k <= self.items@.len(),
                self.well_formed(),
                defs == self.defs_model(),
                fuel == self.depth() + 1,
                forall|i: int| #![trigger self.items@[i]]
                    0 <= i < self.items@.len() ==> self.items_model().contains_key(self.items@[i].0@)
                        && self.items_model()[self.items@[i].0@] == items_model(self.items@[i].1@),
                sum == tops_leaves(defs, self.items@.take(k as int), fuel),
            decreases self.items@.len() - k,
        {
            let fields = &self.items[k].1;
            let mut j: usize = 0;
            let ghost before = sum;
            proof {
                lemma_tops_prefix(defs, self.items@, (k + 1) as nat, fuel);
                assert(self.items@.take(k + 1).drop_last() =~= self.items@.take(k as int));
                assert(items_ok(defs, items_model(fields@), fuel));
                lemma_counts_leaves(defs, items_model(fields@), fuel);
            }
            while j < fields.len()
                invariant
                    j <= fields@.len(),
                    before + leaves(defs, items_model(fields@), fuel) <= tops_leaves(defs, self.items@, fuel),
                    defs == self.defs_model(),
                    fuel == self.depth() + 1,
                    counts(items_model(fields@)) == leaves(defs, items_model(fields@), fuel),
                    sum == before + counts(items_model(fields@).take(j as int)),
                decreases fields@.len() - j,
            {
                proof {
                    assert(items_model(fields@).take(j + 1).drop_last() =~= items_model(fields@).take(j as int));
                    lemma_counts_prefix(items_model(fields@), (j + 1) as nat);
                }
                match sum.checked_add(fields[j].item_count()) {
                    Option::Some(s) => {
                        sum = s;
                    },
                    Option::None => {
                        proof {
                            let m = items_model(fields@);
                            assert(m.take(j + 1).last() == fields@[j as int].model());
                            assert(counts(m.take(j + 1)) == counts(m.take(j as int)) + fields@[j as int].model().count());
                        }
                        return Option::None;
                    },
                }
                j = j + 1;
            }
            assert(items_model(fields@).take(j as int) =~= items_model(fields@));
            k = k + 1;
        }
        assert(self.items@.take(k as int) =~= self.items@);
        Option::Some(sum)
    }
}

/// The counts of a prefix are at most those of the whole.
proof fn lemma_counts_prefix(items: Seq<ItemModel>, j: nat)
    requires
        j <= items.len(),
    ensures
        counts(items.take(j as int)) <= counts(items),
    decreases items.len(),
{
    if j < items.len() {
        assert(items.drop_last().take(j as int) =~= items.take(j as int));
        lemma_counts_prefix(items.drop_last(), j);
    } else {
        assert(items.take(j as int) =~= items);
    }
}

/// The colors of a prefix of the top-level structs are at most those of all.
proof fn lemma_tops_prefix<'a>(
    defs: DefsModel,
    tops: Seq<(&'a str, Vec<LayoutItem<'a>>)>,
    k: nat,
    fuel: nat,
)
    requires
        k <= tops.len(),
    ensures
        tops_leaves(defs, tops.take(k as int), fuel) <= tops_leaves(defs, tops, fuel),
    decreases tops.len(),
{
    if k < tops.len() {
        assert(tops.drop_last().take(k as int) =~= tops.take(k as int));
        lemma_tops_prefix(defs, tops.drop_last(), k, fuel);
    } else {
        assert(tops.take(k as int) =~= tops);
    }
}

/// Converts `items` into a flat struct named `name`, numbering its colors
/// from `*item_id` on.
fn convert_items<'a>(
    item_id: &mut usize,
    layout: &Layout<'a>,
    name: &'a str,
    items: &[LayoutItem<'a>],
    Ghost(fuel): Ghost<nat>,
) -> (r: FlatLayoutItem<'a>)
    requires
        layout.well_formed(),
        fuel <= layout.depth() + 1,
        items_ok(layout.defs_model(), items_model(items@), fuel),
        *old(item_id) + leaves(layout.defs_model(), items_model(items@), fuel) <= usize::MAX,
    ensures
        r.model() == (FlatModel::Struct {
            name: name@,
            fields: flat_fields(layout.defs_model(), items_model(items@), *old(item_id) as nat, fuel),
        }),
        *final(item_id) == *old(item_id) + leaves(layout.defs_model(), items_model(items@), fuel),
    decreases fuel, items@,
{
    let ghost defs = layout.defs_model();
    let ghost start = *item_id as nat;
    let ghost model = items_model(items@);
    let mut converted: Vec<FlatLayoutItem<'a>> = Vec::new();
    let mut k: usize = 0;
    proof {
        lemma_entries_map(layout.definitions@);
    }
    while k < items.len()
        invariant
            k <= items@.len(),
            layout.well_formed(),
            defs == layout.defs_model(),
            fuel <= layout.depth() + 1,
            model == items_model(items@),
            items_ok(defs, model, fuel),
            start + leaves(defs, model, fuel) <= usize::MAX,
            flat_models(converted@) == flat_fields(defs, model.take(k as int), start, fuel),
            *item_id == start + leaves(defs, model.take(k as int), fuel),
        decreases items@.len() - k,
    {
        let ghost prefix = model.take(k as int);
        proof {
            assert(model.take(k + 1).drop_last() =~= prefix);
            assert(model.take(k + 1).last() == model[k as int]);
            assert(model[k as int] == items@[k as int].model());
            assert(item_ok(defs, model[k as int], fuel));
            lemma_leaves_prefix(defs, model, (k + 1) as nat, fuel);
            assert(leaves(defs, model.take(k + 1), fuel) == leaves(defs, prefix, fuel) + item_leaves(
                defs,
                model[k as int],
                fuel,
            ));
        }
        let ghost id0 = *item_id as nat;
        let item = match &items[k] {
            LayoutItem::Ref { field_name, referenced, .. } => {
                proof {
                    lemma_entries_map(layout.definitions@);
                }
                match find_entry(&layout.definitions, referenced) {
                    Option::Some(i) => {
                        let def = &layout.definitions[i].1;
                        proof {
                            lemma_entries_map(layout.definitions@);
                        }
                        assert(layout.definitions@[i as int].0@ == referenced@);
                        assert(entries_map(layout.definitions@)[referenced@] == *def);
                        assert(defs[referenced@].0 == items_model(def.fields@));
                        convert_items(
                            item_id,
                            layout,
                            field_name,
                            def.fields.as_slice(),
                            Ghost((fuel - 1) as nat),
                        )
                    },
                    Option::None => {
                        assert(false);
                        FlatLayoutItem::Struct { name: field_name, fields: Vec::new() }
                    },
                }
            },
            LayoutItem::Field { name } => {
                let id = *item_id;
                *item_id = *item_id + 1;
                FlatLayoutItem::Field { name, id }
            },
            LayoutItem::Struct { field_name, fields, .. } => {
                proof {
                    lemma_struct_model(items@[k as int]);
                    assert(decreases_to!(items@ => items@[k as int]));
                    assert(decreases_to!(items@[k as int] => *fields));
                    assert(decreases_to!(*fields => fields@));
                }
                convert_items(item_id, layout, field_name, fields.as_slice(), Ghost(fuel))
            },
        };
        assert(item.model() == flat_item(defs, model[k as int], id0, fuel));
        let ghost before = flat_models(converted@);
        converted.push(item);
        proof {
            assert(flat_models(converted@) =~= before.push(item.model()));
            assert(flat_fields(defs, model.take(k + 1), start, fuel) == flat_fields(
                defs,
                prefix,
                start,
                fuel,
            ).push(flat_item(defs, model[k as int], start + leaves(defs, prefix, fuel), fuel)));
        }
        k = k + 1;
    }
    assert(model.take(k as int) =~= model);
    let r = FlatLayoutItem::Struct { name, fields: converted };
    proof {
        lemma_flat_struct_model(r);
    }
    r
}

/// The colors of a prefix are at most those of the whole list.
proof fn lemma_leaves_prefix(defs: DefsModel, items: Seq<ItemModel>, j: nat, fuel: nat)
    requires
        j <= items.len(),
    ensures
        leaves(defs, items.take(j as int), fuel) <= leaves(defs, items, fuel),
    decreases items.len(),
{
    if j < items.len() {
        assert(items.drop_last().take(j as int) =~= items.take(j as int));
        lemma_leaves_prefix(defs, items.drop_last(), j, fuel);
    } else {
        assert(items.take(j as int) =~= items);
    }
}

impl<'a> Layout<'a> {
    /// The top-level structs with every reference replaced by its
    /// definition, and every color numbered in order, from 0.
    pub fn flatten(&self) -> (r: Vec<FlatLayoutItem<'a>>)
        requires
            self.well_formed(),
            self.total() <= usize::MAX,
        ensures
            flat_models(r@) == self.flat(),
    {
        let ghost defs = self.defs_model();
        let ghost fuel = self.depth() + 1;
        let mut item_id: usize = 0;
        let mut items: Vec<FlatLayoutItem<'a>> = Vec::new();
        let mut k: usize = 0;
        proof {
            lemma_entries_map(self.items@);
        }
        while k < self.items.len()
            invariant
                k <= self.items@.len(),
                self.well_formed(),
                self.total() <= usize::MAX,
                defs == self.defs_model(),
                fuel == self.depth() + 1,
                forall|i: int| #![trigger self.items@[i]]
                    0 <= i < self.items@.len() ==> self.items_model().contains_key(self.items@[i].0@)
                        && self.items_model()[self.items@[i].0@] == items_model(self.items@[i].1@),
                item_id == tops_leaves(defs, self.items@.take(k as int), fuel),
                flat_models(items@) == flat_tops(defs, self.items@.take(k as int), 0, fuel),
            decreases self.items@.len() - k,
        {
            let (name, s) = &self.items[k];
            proof {
                lemma_tops_prefix(defs, self.items@, (k + 1) as nat, fuel);
                assert(self.items@.take(k + 1).drop_last() =~= self.items@.take(k as int));
                assert(items_ok(defs, items_model(s@), fuel));
            }
            let item = convert_items(&mut item_id, self, name, s.as_slice(), Ghost(fuel));
            let ghost before = flat_models(items@);
            items.push(item);
            proof {
                assert(flat_models(items@) =~= before.push(item.model()));
            }
            k = k + 1;
        }
        assert(self.items@.take(k as int) =~= self.items@);
        items
    }
}

/// The color numbers of a flat item, in order.
pub open spec fn ids(f: FlatModel) -> Seq<nat>
    decreases f, 0nat,
{
    match f {
        FlatModel::Field { id, .. } => seq![id],
        FlatModel::Struct { fields, .. } => ids_seq(fields),
    }
}

/// The color numbers of flat items, in order.
pub open spec fn ids_seq(fs: Seq<FlatModel>) -> Seq<nat>
    decreases fs, 1nat,
{
    if fs.len() == 0 {
        Seq::empty()
    } else {
        ids_seq(fs.drop_last()) + ids(fs.last())
    }
}

/// The numbers `start`, `start + 1`, ..., `start + n - 1`.
pub open spec fn numbers(start: nat, n: nat) -> Seq<nat> {
    Seq::new(n, |i: int| (start + i) as nat)
}

/// Flattening fine items numbers their colors consecutively from `start`.
pub proof fn lemma_flat_fields_ids(defs: DefsModel, items: Seq<ItemModel>, start: nat, fuel: nat)
    requires
        items_ok(defs, items, fuel),
    ensures
        ids_seq(flat_fields(defs, items, start, fuel)) == numbers(start, leaves(defs, items, fuel)),
    decreases fuel, items, 1nat,
{
    if items.len() == 0 {
        assert(ids_seq(flat_fields(defs, items, start, fuel)) =~= numbers(start, 0));
    } else {
        let prev = items.drop_last();
        assert(items_ok(defs, prev, fuel)) by {
            assert forall|i: int| 0 <= i < prev.len() implies item_ok(defs, #[trigger] prev[i], fuel) by {
                assert(prev[i] == items[i]);
            }
        }
        assert(item_ok(defs, items[items.len() - 1], fuel));
        lemma_flat_fields_ids(defs, prev, start, fuel);
        let mid = start + leaves(defs, prev, fuel);
        lemma_flat_item_ids(defs, items.last(), mid, fuel);
        let fs = flat_fields(defs, items, start, fuel);
        assert(fs.drop_last() =~= flat_fields(defs, prev, start, fuel));
        assert(numbers(start, leaves(defs, prev, fuel)) + numbers(
            mid,
            item_leaves(defs, items.last(), fuel),
        ) =~= numbers(start, leaves(defs, items, fuel)));
    }
}

/// See [`lemma_flat_fields_ids`].
pub proof fn lemma_flat_item_ids(defs: DefsModel, item: ItemModel, start: nat, fuel: nat)
    requires
        item_ok(defs, item, fuel),
    ensures
        ids(flat_item(defs, item, start, fuel)) == numbers(start, item_leaves(defs, item, fuel)),
    decreases fuel, item, 0nat,
{
    match item {
        ItemModel::Ref { referenced, .. } => {
            lemma_flat_fields_ids(defs, defs[referenced].0, start, (fuel - 1) as nat);
        },
        ItemModel::Field { .. } => {
            assert(ids(flat_item(defs, item, start, fuel)) =~= numbers(start, 1));
        },
        ItemModel::Struct { fields, .. } => {
            lemma_flat_fields_ids(defs, fields, start, fuel);
        },
    }
}

/// The flattened top-level structs number their colors consecutively from `start`.
proof fn lemma_flat_tops_ids<'a>(
    defs: DefsModel,
    tops: Seq<(&'a str, Vec<LayoutItem<'a>>)>,
    start: nat,
    fuel: nat,
)
    requires
        forall|i: int| 0 <= i < tops.len() ==> items_ok(defs, items_model(#[trigger] tops[i].1@), fuel),
    ensures
        ids_seq(flat_tops(defs, tops, start, fuel)) == numbers(start, tops_leaves(defs, tops, fuel)),
    decreases tops.len(),
{
    if tops.len() == 0 {
        assert(ids_seq(flat_tops(defs, tops, start, fuel)) =~= numbers(start, 0));
    } else {
        let prev = tops.drop_last();
        assert forall|i: int| 0 <= i < prev.len() implies items_ok(defs, items_model(#[trigger] prev[i].1@), fuel) by {
            assert(prev[i] == tops[i]);
        }
        lemma_flat_tops_ids(defs, prev, start, fuel);
        let mid = start + tops_leaves(defs, prev, fuel);
        assert(items_ok(defs, items_model(tops[tops.len() - 1].1@), fuel));
        lemma_flat_fields_ids(defs, items_model(tops.last().1@), mid, fuel);
        let fs = flat_tops(defs, tops, start, fuel);
        assert(fs.drop_last() =~= flat_tops(defs, prev, start, fuel));
        assert(ids(fs.last()) == ids_seq(flat_fields(defs, items_model(tops.last().1@), mid, fuel)));
        assert(ids_seq(fs) == ids_seq(fs.drop_last()) + ids(fs.last()));
        assert(numbers(start, tops_leaves(defs, prev, fuel)) + numbers(
            mid,
            leaves(defs, items_model(tops.last().1@), fuel),
        ) =~= numbers(start, tops_leaves(defs, tops, fuel)));
    }
}

/// Flattening a well-formed layout numbers its colors `0`, `1`, ...,
/// `total() - 1`, each exactly once and in order; `total()` is what
/// `count_items` returns.
pub proof fn lemma_flatten_numbers_colors<'a>(layout: &Layout<'a>)
    requires
        layout.well_formed(),
    ensures
        ids_seq(layout.flat()) == numbers(0, layout.total()),
{
    lemma_entries_map(layout.items@);
    assert forall|i: int| 0 <= i < layout.items@.len() implies items_ok(
        layout.defs_model(),
        items_model(#[trigger] layout.items@[i].1@),
        layout.depth() + 1,
    ) by {
        assert(layout.items_model().contains_key(layout.items@[i].0@));
    }
    lemma_flat_tops_ids(layout.defs_model(), layout.items@, 0, layout.depth() + 1);
}
} // verus!
