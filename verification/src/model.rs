//! The theme read from a style sheet, and its flattening into one color
//! per dotted path.

use crate::combinator::{combine_path, spec_combine_path};
use ahash::AHashMap;
use vstd::prelude::*;

verus! {

/// A color with 8-bit red, green, blue and alpha components.
#[derive(Clone, Copy, PartialEq, Eq, Debug)]
pub struct Rgba {
    pub red: u8,
    pub green: u8,
    pub blue: u8,
    pub alpha: u8,
}

/// The `@chatterino` metadata of a theme.
#[derive(Debug, PartialEq)]
pub struct ChatterinoMeta {
    pub author: String,
    pub icon_set: String,
}

impl Clone for ChatterinoMeta {
    fn clone(&self) -> (r: Self)
        ensures
            r == *self,
    {
        ChatterinoMeta { author: self.author.clone(), icon_set: self.icon_set.clone() }
    }
}

/// The value of a declaration: a reference to a `:root` color (`var(--x)`)
/// or a color.
#[derive(Debug, PartialEq)]
pub enum RuleValue {
    ColorRef(String),
    Color(Rgba),
}

/// A declaration: a value, or a nested block of declarations.
#[derive(Debug, PartialEq)]
pub enum Rule {
    Value(RuleValue),
    Nested(Vec<(String, Rule)>),
}

/// The hash map of `ahash` (`ahash::AHashMap`), opaque here: what a map of
/// colors holds is named by [`color_entries`].
#[verifier::external_type_specification]
#[verifier::external_body]
#[verifier::reject_recursive_types(K)]
#[verifier::reject_recursive_types(V)]
#[verifier::reject_recursive_types(S)]
pub struct ExAHashMap<K, V, S>(AHashMap<K, V, S>);

/// The hasher of `ahash` (`ahash::RandomState`), seeded at random; opaque here.
#[verifier::external_type_specification]
#[verifier::external_body]
pub struct ExRandomState(ahash::RandomState);

/// The colors held by a color map, by name: what the map's methods store
/// and give back, whatever order the map keeps them in.
pub uninterp spec fn color_entries(m: AHashMap<String, Rgba>) -> Map<Seq<char>, Rgba>;

/// A new, empty color map (`AHashMap::new`).
#[verifier::external_body]
pub(crate) fn color_map_new() -> (r: AHashMap<String, Rgba>)
    ensures
        color_entries(r) =~= Map::empty(),
{
    AHashMap::new()
}

/// The color stored under `name` (`AHashMap::get`).
#[verifier::external_body]
pub(crate) fn color_map_get(m: &AHashMap<String, Rgba>, name: &str) -> (r: Option<Rgba>)
    ensures
        r == if color_entries(*m).contains_key(name@) {
            Option::Some(color_entries(*m)[name@])
        } else {
            Option::None
        },
{
    m.get(name).copied()
}

/// Stores `color` under `name`, replacing the color stored there (`AHashMap::insert`).
#[verifier::external_body]
pub(crate) fn color_map_insert(m: &mut AHashMap<String, Rgba>, name: String, color: Rgba)
    ensures
        color_entries(*final(m)) == color_entries(*old(m)).insert(name@, color),
{
    m.insert(name, color);
}

/// `entries` lists the colors of `m`: every entry is in `m`, every color of
/// `m` is listed, and no name is listed twice.
pub open spec fn lists_colors(entries: Seq<(String, Rgba)>, m: Map<Seq<char>, Rgba>) -> bool {
    &&& forall|i: int| #![trigger entries[i]]
        0 <= i < entries.len() ==> m.contains_key(entries[i].0@) && m[entries[i].0@] == entries[i].1
    &&& forall|k: Seq<char>| #[trigger]
        m.contains_key(k) ==> exists|i: int| 0 <= i < entries.len() && entries[i].0@ == k
    &&& forall|i: int, j: int| 0 <= i < j < entries.len() ==> entries[i].0@ != entries[j].0@
}

/// The entries of a color map, each once, in the map's order, which
/// depends on the map's random hasher (`HashMap::iter`).
#[verifier::external_body]
pub(crate) fn color_map_entries(m: &AHashMap<String, Rgba>) -> (r: Vec<(String, Rgba)>)
    ensures
        lists_colors(r@, color_entries(*m)),
{
    m.iter().map(|(k, v)| (k.clone(), *v)).collect()
}

/// A theme as read from a style sheet: its metadata, its `:root` colors
/// and its declarations (in the order in which they are flattened).
#[derive(Debug)]
pub struct Theme {
    pub meta: ChatterinoMeta,
    pub colors: AHashMap<String, Rgba>,
    pub rules: Vec<(String, Rule)>,
}

/// A theme with one color per dotted path.
#[derive(Debug)]
pub struct FlatTheme {
    pub meta: ChatterinoMeta,
    pub rules: AHashMap<String, Rgba>,
}

/// Why a theme could not be flattened.
#[derive(Debug, PartialEq)]
pub enum FlattenError {
    /// The `:root` color (first) was used at the path (second) but never defined.
    MissingColor(String, String),
}

impl FlattenError {
    /// The message of the error.
    pub fn message(&self) -> (s: String)
        ensures
            match self {
                FlattenError::MissingColor(name, path) => s@ == "'"@ + name@ + "' was used in "@ + path@
                    + " but never defined anywhere."@,
            },
    {
        match self {
            FlattenError::MissingColor(name, path) => {
                let mut s = String::new();
                crate::text::string_push_str(&mut s, "'");
                crate::text::string_push_str(&mut s, name.as_str());
                crate::text::string_push_str(&mut s, "' was used in ");
                crate::text::string_push_str(&mut s, path.as_str());
                crate::text::string_push_str(&mut s, " but never defined anywhere.");
                s
            },
        }
    }
}


/// The outcome of flattening declarations: the colors by path, or the
/// missing `:root` color (first) and the path that used it (second).
pub enum FlatOutcome {
    Done(Map<Seq<char>, Rgba>),
    Missing(Seq<char>, Seq<char>),
}

/// Flattening the first `k` declarations of `rules` under `prefix` into `acc`.
pub open spec fn flatten_rules(
    prefix: Seq<char>,
    rules: Seq<(String, Rule)>,
    k: nat,
    colors: Map<Seq<char>, Rgba>,
    acc: Map<Seq<char>, Rgba>,
) -> FlatOutcome
    decreases rules, k,
{
    if k == 0 || k > rules.len() {
        FlatOutcome::Done(acc)
    } else {
        match flatten_rules(prefix, rules, (k - 1) as nat, colors, acc) {
            FlatOutcome::Done(m) => flatten_rule(prefix, rules[k - 1].0@, rules[k - 1].1, colors, m),
            missing => missing,
        }
    }
}

/// Flattening the declaration `rule` named `name` under `prefix` into `acc`.
pub open spec fn flatten_rule(
    prefix: Seq<char>,
    name: Seq<char>,
    rule: Rule,
    colors: Map<Seq<char>, Rgba>,
    acc: Map<Seq<char>, Rgba>,
) -> FlatOutcome
    decreases rule, 0nat,
{
    let path = spec_combine_path(prefix, name);
    match rule {
        Rule::Value(RuleValue::ColorRef(n)) => {
            if colors.contains_key(n@) {
                FlatOutcome::Done(acc.insert(path, colors[n@]))
            } else {
                FlatOutcome::Missing(n@, path)
            }
        },
        Rule::Value(RuleValue::Color(c)) => FlatOutcome::Done(acc.insert(path, c)),
        Rule::Nested(nested) => {
            proof {
                assert(decreases_to!(nested => nested@));
            }
            flatten_rules(path, nested@, nested@.len(), colors, acc)
        },
    }
}

proof fn lemma_flatten_stops(
    prefix: Seq<char>,
    rules: Seq<(String, Rule)>,
    j: nat,
    k: nat,
    colors: Map<Seq<char>, Rgba>,
    acc: Map<Seq<char>, Rgba>,
)
    requires
        j <= k <= rules.len(),
        flatten_rules(prefix, rules, j, colors, acc) is Missing,
    ensures
        flatten_rules(prefix, rules, k, colors, acc) == flatten_rules(prefix, rules, j, colors, acc),
    decreases k - j,
{
    if j < k {
        lemma_flatten_stops(prefix, rules, j, (k - 1) as nat, colors, acc);
    }
}

/// `r` and the map are what flattening with outcome `o` gives.
pub open spec fn flattened_as(r: Result<(), FlattenError>, map: Map<Seq<char>, Rgba>, o: FlatOutcome) -> bool {
    match o {
        FlatOutcome::Done(m) => r is Ok && map == m,
        FlatOutcome::Missing(n, p) => r matches Result::Err(FlattenError::MissingColor(a, b)) && a@ == n
            && b@ == p,
    }
}

/// Flattens `rules` under `prefix` into `map`, looking up references in `colors`.
fn inner_flatten(
    map: &mut AHashMap<String, Rgba>,
    prefix: &str,
    rules: &Vec<(String, Rule)>,
    colors: &AHashMap<String, Rgba>,
) -> (r: Result<(), FlattenError>)
    ensures
        flattened_as(
            r,
            color_entries(*final(map)),
            flatten_rules(
                prefix@,
                rules@,
                rules@.len(),
                color_entries(*colors),
                color_entries(*old(map)),
            ),
        ),
    decreases rules@,
{
    let ghost acc0 = color_entries(*map);
    let ghost cs = color_entries(*colors);
    let mut k: usize = 0;
    while k < rules.len()
        invariant
            k <= rules@.len(),
            cs == color_entries(*colors),
            acc0 == color_entries(*old(map)),
            flatten_rules(prefix@, rules@, k as nat, cs, acc0) == FlatOutcome::Done(
                color_entries(*map),
            ),
        decreases rules@.len() - k,
    {
        let (name, rule) = &rules[k];
        let ghost before = color_entries(*map);
        match rule {
            Rule::Value(value) => {
                let path = combine_path(prefix, name.as_str());
                match value {
                    RuleValue::ColorRef(n) => {
                        match color_map_get(colors, n.as_str()) {
                            Option::Some(color) => {
                                color_map_insert(map, path, color);
                            },
                            Option::None => {
                                proof {
                                    assert(flatten_rules(prefix@, rules@, (k + 1) as nat, cs, acc0)
                                        == flatten_rule(prefix@, name@, *rule, cs, before));
                                    assert(flatten_rule(prefix@, name@, *rule, cs, before)
                                        == FlatOutcome::Missing(n@, path@));
                                    lemma_flatten_stops(prefix@, rules@, (k + 1) as nat, rules@.len(), cs, acc0);
                                }
                                return Result::Err(FlattenError::MissingColor(n.clone(), path));
                            },
                        }
                    },
                    RuleValue::Color(c) => {
                        color_map_insert(map, path, *c);
                    },
                }
            },
            Rule::Nested(nested) => {
                let path = combine_path(prefix, name.as_str());
                proof {
                    assert(decreases_to!(rules@ => rules@[k as int]));
                    assert(decreases_to!(rules@[k as int] => rules@[k as int].1));
                    assert(decreases_to!(rules@[k as int].1 => *nested));
                    assert(decreases_to!(*nested => nested@));
                }
                match inner_flatten(map, path.as_str(), nested, colors) {
                    Result::Ok(()) => {},
                    Result::Err(e) => {
                        proof {
                            assert(flatten_rules(prefix@, rules@, (k + 1) as nat, cs, acc0)
                                == flatten_rule(prefix@, name@, *rule, cs, before));
                            lemma_flatten_stops(prefix@, rules@, (k + 1) as nat, rules@.len(), cs, acc0);
                        }
                        return Result::Err(e);
                    },
                }
            },
        }
        k = k + 1;
    }
    Result::Ok(())
}

/// Every `:root` color that `rules` reference is in `colors`.
pub open spec fn refs_defined(rules: Seq<(String, Rule)>, colors: Map<Seq<char>, Rgba>) -> bool
    decreases rules, 1nat,
{
    forall|i: int| 0 <= i < rules.len() ==> rule_refs_defined(#[trigger] rules[i].1, colors)
}

/// Every `:root` color that `rule` references is in `colors`.
pub open spec fn rule_refs_defined(rule: Rule, colors: Map<Seq<char>, Rgba>) -> bool
    decreases rule, 0nat,
{
    match rule {
        Rule::Value(RuleValue::ColorRef(n)) => colors.contains_key(n@),
        Rule::Value(RuleValue::Color(_)) => true,
        Rule::Nested(nested) => {
            proof {
                assert(decreases_to!(nested => nested@));
            }
            refs_defined(nested@, colors)
        },
    }
}

/// Flattening the first `k` declarations succeeds exactly when each of them
/// references only defined colors.
proof fn lemma_rules_done(
    prefix: Seq<char>,
    rules: Seq<(String, Rule)>,
    k: nat,
    colors: Map<Seq<char>, Rgba>,
    acc: Map<Seq<char>, Rgba>,
)
    requires
        k <= rules.len(),
    ensures
        flatten_rules(prefix, rules, k, colors, acc) is Done <==> forall|i: int|
            0 <= i < k ==> rule_refs_defined(#[trigger] rules[i].1, colors),
    decreases rules, k,
{
    if k > 0 {
        lemma_rules_done(prefix, rules, (k - 1) as nat, colors, acc);
        if let FlatOutcome::Done(m) = flatten_rules(prefix, rules, (k - 1) as nat, colors, acc) {
            assert(decreases_to!(rules => rules[k - 1]));
            lemma_rule_done(prefix, rules[k - 1].0@, rules[k - 1].1, colors, m);
        }
    }
}

/// Flattening one declaration succeeds exactly when it references only
/// defined colors.
proof fn lemma_rule_done(
    prefix: Seq<char>,
    name: Seq<char>,
    rule: Rule,
    colors: Map<Seq<char>, Rgba>,
    acc: Map<Seq<char>, Rgba>,
)
    ensures
        flatten_rule(prefix, name, rule, colors, acc) is Done <==> rule_refs_defined(rule, colors),
    decreases rule, 0nat,
{
    if let Rule::Nested(nested) = rule {
        assert(decreases_to!(nested => nested@));
        lemma_rules_done(
            spec_combine_path(prefix, name),
            nested@,
            nested@.len(),
            colors,
            acc,
        );
    }
}

/// `m` and `acc` agree at `q`: both hold `q` with the same color, or
/// neither holds it.
pub open spec fn agree_at(m: Map<Seq<char>, Rgba>, acc: Map<Seq<char>, Rgba>, q: Seq<char>) -> bool {
    &&& m.contains_key(q) == acc.contains_key(q)
    &&& acc.contains_key(q) ==> m[q] == acc[q]
}

/// The color that a value declaration gives: its own color, or the `:root`
/// color that it references.
pub open spec fn value_color(v: RuleValue, colors: Map<Seq<char>, Rgba>) -> Rgba {
    match v {
        RuleValue::Color(c) => c,
        RuleValue::ColorRef(n) => colors[n@],
    }
}

proof fn lemma_combine_path_extends(prefix: Seq<char>, name: Seq<char>)
    ensures
        prefix.is_prefix_of(spec_combine_path(prefix, name)),
{
    let path = spec_combine_path(prefix, name);
    if prefix.len() > 0 {
        assert(path.subrange(0, prefix.len() as int) =~= prefix);
    } else {
        assert(path.subrange(0, 0) =~= prefix);
    }
}

proof fn lemma_prefix_trans(a: Seq<char>, b: Seq<char>, c: Seq<char>)
    requires
        a.is_prefix_of(b),
        b.is_prefix_of(c),
    ensures
        a.is_prefix_of(c),
{
    assert(c.subrange(0, a.len() as int) =~= b.subrange(0, a.len() as int));
}

/// Flattening one declaration writes only paths that begin with the
/// declaration's own path: every other path keeps what it held.
pub proof fn lemma_rule_frame(
    prefix: Seq<char>,
    name: Seq<char>,
    rule: Rule,
    colors: Map<Seq<char>, Rgba>,
    acc: Map<Seq<char>, Rgba>,
    q: Seq<char>,
)
    requires
        flatten_rule(prefix, name, rule, colors, acc) is Done,
        !spec_combine_path(prefix, name).is_prefix_of(q),
    ensures
        agree_at(flatten_rule(prefix, name, rule, colors, acc)->Done_0, acc, q),
    decreases rule, 0nat,
{
    let path = spec_combine_path(prefix, name);
    match rule {
        Rule::Nested(nested) => {
            assert(decreases_to!(nested => nested@));
            assert forall|j: int| 0 <= j < nested@.len() implies !spec_combine_path(
                path,
                #[trigger] nested@[j].0@,
            ).is_prefix_of(q) by {
                lemma_combine_path_extends(path, nested@[j].0@);
                if spec_combine_path(path, nested@[j].0@).is_prefix_of(q) {
                    lemma_prefix_trans(path, spec_combine_path(path, nested@[j].0@), q);
                }
            }
            lemma_rules_frame(path, nested@, nested@.len(), colors, acc, q);
        },
        _ => {
            assert(path.is_prefix_of(path)) by {
                assert(path.subrange(0, path.len() as int) =~= path);
            }
            assert(q != path);
        },
    }
}

/// Flattening the first `k` declarations of a block writes only paths that
/// begin with the path of one of them: every other path keeps what it held.
pub proof fn lemma_rules_frame(
    prefix: Seq<char>,
    rules: Seq<(String, Rule)>,
    k: nat,
    colors: Map<Seq<char>, Rgba>,
    acc: Map<Seq<char>, Rgba>,
    q: Seq<char>,
)
    requires
        k <= rules.len(),
        flatten_rules(prefix, rules, k, colors, acc) is Done,
        forall|j: int| 0 <= j < k ==> !spec_combine_path(prefix, #[trigger] rules[j].0@).is_prefix_of(q),
    ensures
        agree_at(flatten_rules(prefix, rules, k, colors, acc)->Done_0, acc, q),
    decreases rules, k,
{
    if k > 0 {
        let before = flatten_rules(prefix, rules, (k - 1) as nat, colors, acc);
        assert(before is Done);
        lemma_rules_frame(prefix, rules, (k - 1) as nat, colors, acc, q);
        assert(decreases_to!(rules => rules[k - 1]));
        lemma_rule_frame(prefix, rules[k - 1].0@, rules[k - 1].1, colors, before->Done_0, q);
    }
}

/// After a block is flattened, each of its value declarations that no later
/// declaration of the block overrides holds its color (or the `:root` color
/// that it references) at its own path, `prefix.name`: a later declaration
/// overrides it only where its path begins the declaration's path.
pub proof fn lemma_flatten_keeps_value(
    prefix: Seq<char>,
    rules: Seq<(String, Rule)>,
    k: nat,
    colors: Map<Seq<char>, Rgba>,
    acc: Map<Seq<char>, Rgba>,
    i: int,
)
    requires
        k <= rules.len(),
        0 <= i < k,
        rules[i].1 is Value,
        flatten_rules(prefix, rules, k, colors, acc) is Done,
        forall|j: int|
            i < j < k ==> !spec_combine_path(prefix, #[trigger] rules[j].0@).is_prefix_of(
                spec_combine_path(prefix, rules[i].0@),
            ),
    ensures
        flatten_rules(prefix, rules, k, colors, acc)->Done_0.contains_key(
            spec_combine_path(prefix, rules[i].0@),
        ),
        flatten_rules(prefix, rules, k, colors, acc)->Done_0[spec_combine_path(prefix, rules[i].0@)]
            == value_color(rules[i].1->Value_0, colors),
    decreases k,
{
    let path = spec_combine_path(prefix, rules[i].0@);
    let before = flatten_rules(prefix, rules, (k - 1) as nat, colors, acc);
    assert(before is Done);
    if i == k - 1 {
        assert(flatten_rules(prefix, rules, k, colors, acc) == flatten_rule(
            prefix,
            rules[i].0@,
            rules[i].1,
            colors,
            before->Done_0,
        ));
    } else {
        lemma_flatten_keeps_value(prefix, rules, (k - 1) as nat, colors, acc, i);
        lemma_rule_frame(prefix, rules[k - 1].0@, rules[k - 1].1, colors, before->Done_0, path);
    }
}

/// Flattening declarations `i` to `k - 1` of a block after the first `i`
/// leaves every path that none of their paths begins as it was.
pub proof fn lemma_rules_frame_from(
    prefix: Seq<char>,
    rules: Seq<(String, Rule)>,
    i: nat,
    k: nat,
    colors: Map<Seq<char>, Rgba>,
    acc: Map<Seq<char>, Rgba>,
    q: Seq<char>,
)
    requires
        i <= k <= rules.len(),
        flatten_rules(prefix, rules, k, colors, acc) is Done,
        forall|j: int| i <= j < k ==> !spec_combine_path(prefix, #[trigger] rules[j].0@).is_prefix_of(q),
    ensures
        flatten_rules(prefix, rules, i, colors, acc) is Done,
        agree_at(
            flatten_rules(prefix, rules, k, colors, acc)->Done_0,
            flatten_rules(prefix, rules, i, colors, acc)->Done_0,
            q,
        ),
    decreases k,
{
    if i < k {
        let before = flatten_rules(prefix, rules, (k - 1) as nat, colors, acc);
        assert(before is Done);
        lemma_rules_frame_from(prefix, rules, i, (k - 1) as nat, colors, acc, q);
        lemma_rule_frame(prefix, rules[k - 1].0@, rules[k - 1].1, colors, before->Done_0, q);
    }
}

/// A value declaration inside a nested block keeps its color at its path
/// `prefix.block.name` in the flattened outer block, unless a later
/// declaration of the nested block, or a later declaration of the outer
/// block, has a path that begins it.
pub proof fn lemma_flatten_keeps_nested_value(
    prefix: Seq<char>,
    rules: Seq<(String, Rule)>,
    k: nat,
    colors: Map<Seq<char>, Rgba>,
    acc: Map<Seq<char>, Rgba>,
    i: int,
    j: int,
)
    requires
        k <= rules.len(),
        0 <= i < k,
        rules[i].1 is Nested,
        0 <= j < rules[i].1->Nested_0@.len(),
        rules[i].1->Nested_0@[j].1 is Value,
        flatten_rules(prefix, rules, k, colors, acc) is Done,
        forall|l: int|
            j < l < rules[i].1->Nested_0@.len() ==> !spec_combine_path(
                spec_combine_path(prefix, rules[i].0@),
                #[trigger] rules[i].1->Nested_0@[l].0@,
            ).is_prefix_of(
                spec_combine_path(spec_combine_path(prefix, rules[i].0@), rules[i].1->Nested_0@[j].0@),
            ),
        forall|l: int|
            i < l < k ==> !spec_combine_path(prefix, #[trigger] rules[l].0@).is_prefix_of(
                spec_combine_path(spec_combine_path(prefix, rules[i].0@), rules[i].1->Nested_0@[j].0@),
            ),
    ensures
        flatten_rules(prefix, rules, k, colors, acc)->Done_0.contains_key(
            spec_combine_path(spec_combine_path(prefix, rules[i].0@), rules[i].1->Nested_0@[j].0@),
        ),
        flatten_rules(prefix, rules, k, colors, acc)->Done_0[spec_combine_path(
            spec_combine_path(prefix, rules[i].0@),
            rules[i].1->Nested_0@[j].0@,
        )] == value_color(rules[i].1->Nested_0@[j].1->Value_0, colors),
{
    let nested = rules[i].1->Nested_0@;
    let block = spec_combine_path(prefix, rules[i].0@);
    let q = spec_combine_path(block, nested[j].0@);
    lemma_rules_frame_from(prefix, rules, (i + 1) as nat, k, colors, acc, q);
    let before = flatten_rules(prefix, rules, i as nat, colors, acc);
    assert(before is Done);
    assert(((i + 1) as nat - 1) as nat == i as nat);
    assert(flatten_rules(prefix, rules, (i + 1) as nat, colors, acc) == flatten_rule(
        prefix,
        rules[i].0@,
        rules[i].1,
        colors,
        before->Done_0,
    ));
    assert(flatten_rules(prefix, rules, (i + 1) as nat, colors, acc) == flatten_rules(
        block,
        nested,
        nested.len(),
        colors,
        before->Done_0,
    ));
    lemma_flatten_keeps_value(block, nested, nested.len(), colors, before->Done_0, j);
}

/// `q` is the path of a value declaration among the first `k` declarations
/// of the block `rules` under `prefix`, or of the nested blocks in them.
pub open spec fn declares(prefix: Seq<char>, rules: Seq<(String, Rule)>, k: nat, q: Seq<char>) -> bool
    decreases rules, k,
{
    if k == 0 || k > rules.len() {
        false
    } else {
        declares(prefix, rules, (k - 1) as nat, q) || rule_declares(prefix, rules[k - 1].0@, rules[k - 1].1, q)
    }
}

/// `q` is the path of the declaration `rule` named `name` under `prefix`
/// (a value), or of a value declaration inside it (a nested block).
pub open spec fn rule_declares(prefix: Seq<char>, name: Seq<char>, rule: Rule, q: Seq<char>) -> bool
    decreases rule, 0nat,
{
    match rule {
        Rule::Value(_) => spec_combine_path(prefix, name) == q,
        Rule::Nested(nested) => {
            proof {
                assert(decreases_to!(nested => nested@));
            }
            declares(spec_combine_path(prefix, name), nested@, nested@.len(), q)
        },
    }
}

/// Flattening a block adds exactly the paths of its value declarations,
/// nested ones included: a path holds a color afterwards exactly when it
/// held one before or is declared in the block.
pub proof fn lemma_flatten_domain(
    prefix: Seq<char>,
    rules: Seq<(String, Rule)>,
    k: nat,
    colors: Map<Seq<char>, Rgba>,
    acc: Map<Seq<char>, Rgba>,
    q: Seq<char>,
)
    requires
        k <= rules.len(),
        flatten_rules(prefix, rules, k, colors, acc) is Done,
    ensures
        flatten_rules(prefix, rules, k, colors, acc)->Done_0.contains_key(q) <==> acc.contains_key(q)
            || declares(prefix, rules, k, q),
    decreases rules, k,
{
    if k > 0 {
        let before = flatten_rules(prefix, rules, (k - 1) as nat, colors, acc);
        assert(before is Done);
        lemma_flatten_domain(prefix, rules, (k - 1) as nat, colors, acc, q);
        assert(decreases_to!(rules => rules[k - 1]));
        lemma_rule_domain(prefix, rules[k - 1].0@, rules[k - 1].1, colors, before->Done_0, q);
    }
}

/// See [`lemma_flatten_domain`]: the same for one declaration.
pub proof fn lemma_rule_domain(
    prefix: Seq<char>,
    name: Seq<char>,
    rule: Rule,
    colors: Map<Seq<char>, Rgba>,
    acc: Map<Seq<char>, Rgba>,
    q: Seq<char>,
)
    requires
        flatten_rule(prefix, name, rule, colors, acc) is Done,
    ensures
        flatten_rule(prefix, name, rule, colors, acc)->Done_0.contains_key(q) <==> acc.contains_key(q)
            || rule_declares(prefix, name, rule, q),
    decreases rule, 0nat,
{
    if let Rule::Nested(nested) = rule {
        assert(decreases_to!(nested => nested@));
        lemma_flatten_domain(spec_combine_path(prefix, name), nested@, nested@.len(), colors, acc, q);
    }
}

/// A theme flattens exactly when every `var(..)` in it names a color of its
/// `:root` block; otherwise flattening names a missing color.
pub proof fn lemma_flatten_needs_defined_refs(theme: Theme)
    ensures
        flatten_rules(
            Seq::empty(),
            theme.rules@,
            theme.rules@.len(),
            color_entries(theme.colors),
            Map::empty(),
        ) is Done <==> refs_defined(theme.rules@, color_entries(theme.colors)),
{
    lemma_rules_done(
        Seq::empty(),
        theme.rules@,
        theme.rules@.len(),
        color_entries(theme.colors),
        Map::empty(),
    );
}

impl Theme {
    /// Flattens the theme: every declaration, under the dotted path of its
    /// nested blocks, gets its color, or the color of the `:root` variable
    /// it references.
    pub fn flatten(&self) -> (r: Result<FlatTheme, FlattenError>)
        ensures
            match flatten_rules(
                Seq::empty(),
                self.rules@,
                self.rules@.len(),
                color_entries(self.colors),
                Map::empty(),
            ) {
                FlatOutcome::Done(m) => r matches Result::Ok(flat) && flat.meta == self.meta
                    && color_entries(flat.rules) == m,
                FlatOutcome::Missing(n, p) => r matches Result::Err(FlattenError::MissingColor(a, b))
                    && a@ == n && b@ == p,
            },
    {
        let mut flat = FlatTheme { meta: self.meta.clone(), rules: color_map_new() };
        assert(""@ =~= Seq::<char>::empty()) by {
            reveal_strlit("");
        }
        match inner_flatten(&mut flat.rules, "", &self.rules, &self.colors) {
            Result::Ok(()) => Result::Ok(flat),
            Result::Err(e) => Result::Err(e),
        }
    }
}
} // verus!
