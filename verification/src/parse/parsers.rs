//! What the style-sheet reader decides: which at-rules and metadata names it
//! knows, which colors it takes, how declarations of one block are
//! collected, and how the top-level blocks make up a theme.

use crate::combinator::{ascii_lower, to_ascii_lowercase};
use crate::model::{
    color_entries, color_map_insert, color_map_new, ChatterinoMeta, Rgba, Rule, Theme,
};
use crate::text::string_push_str;
use ahash::AHashMap;
use vstd::prelude::*;

verus! {

/// Why a style sheet could not be read as a theme.
#[derive(Debug, PartialEq)]
pub enum ParseError {
    /// A metadata declaration with an unknown name.
    UnexpectedMeta(String),
    /// The metadata block lacks this item.
    MissingMetaItem(&'static str),
    CurrentColorFound,
    ExpectedColorOrVar,
    MissingMetaBlock,
    DuplicateMetaBlock,
    DuplicateRootBlock,
    /// A second top-level block with this name.
    DuplicateBlock(String),
}

impl Clone for ParseError {
    fn clone(&self) -> (r: Self)
        ensures
            r == *self,
    {
        match self {
            ParseError::UnexpectedMeta(name) => ParseError::UnexpectedMeta(name.clone()),
            ParseError::MissingMetaItem(item) => ParseError::MissingMetaItem(*item),
            ParseError::CurrentColorFound => ParseError::CurrentColorFound,
            ParseError::ExpectedColorOrVar => ParseError::ExpectedColorOrVar,
            ParseError::MissingMetaBlock => ParseError::MissingMetaBlock,
            ParseError::DuplicateMetaBlock => ParseError::DuplicateMetaBlock,
            ParseError::DuplicateRootBlock => ParseError::DuplicateRootBlock,
            ParseError::DuplicateBlock(name) => ParseError::DuplicateBlock(name.clone()),
        }
    }
}

/// The message of a parse error.
pub open spec fn error_message(e: ParseError) -> Seq<char> {
    match e {
        ParseError::UnexpectedMeta(name) => "Unexpected "@ + name@,
        ParseError::MissingMetaItem(item) => "Missing '"@ + item@ + "' in meta"@,
        ParseError::CurrentColorFound => "'currentColor' isn't supported"@,
        ParseError::ExpectedColorOrVar => "Expected a color or var(..)"@,
        ParseError::MissingMetaBlock => "Expected a @chatterino metadata block"@,
        ParseError::DuplicateMetaBlock => "Found duplicate @chatterino metadata block"@,
        ParseError::DuplicateRootBlock => "Found duplicate :root block"@,
        ParseError::DuplicateBlock(name) => "Found duplicate block ('"@ + name@ + "')"@,
    }
}

impl ParseError {
    /// The message of the error.
    pub fn message(&self) -> (s: String)
        ensures
            s@ == error_message(*self),
    {
        match self {
            ParseError::UnexpectedMeta(name) => {
                let mut s = "Unexpected ".to_owned();
                string_push_str(&mut s, name.as_str());
                s
            },
            ParseError::MissingMetaItem(item) => {
                let mut s = "Missing '".to_owned();
                string_push_str(&mut s, item);
                string_push_str(&mut s, "' in meta");
                s
            },
            ParseError::CurrentColorFound => "'currentColor' isn't supported".to_owned(),
            ParseError::ExpectedColorOrVar => "Expected a color or var(..)".to_owned(),
            ParseError::MissingMetaBlock => "Expected a @chatterino metadata block".to_owned(),
            ParseError::DuplicateMetaBlock => "Found duplicate @chatterino metadata block".to_owned(),
            ParseError::DuplicateRootBlock => "Found duplicate :root block".to_owned(),
            ParseError::DuplicateBlock(name) => {
                let mut s = "Found duplicate block ('".to_owned();
                string_push_str(&mut s, name.as_str());
                string_push_str(&mut s, "')");
                s
            },
        }
    }
}

/// `a` and `b` are equal when ASCII letters are compared without case.
pub open spec fn same_ignoring_ascii_case(a: Seq<char>, b: Seq<char>) -> bool {
    &&& a.len() == b.len()
    &&& forall|i: int| 0 <= i < a.len() ==> ascii_lower(#[trigger] a[i]) == ascii_lower(b[i])
}

fn chars_of(s: &str) -> (v: Vec<char>)
    ensures
        v@ == s@,
{
    let mut v: Vec<char> = Vec::new();
    for c in it: s.chars()
        invariant
            it.seq() == s@,
            v@ == it.seq().take(it.index()),
    {
        v.push(c);
    }
    assert(s@.take(s@.len() as int) =~= s@);
    v
}

/// Whether `a` and `b` are equal when ASCII letters are compared without case.
pub fn eq_ignore_ascii_case(a: &str, b: &str) -> (r: bool)
    ensures
        r == same_ignoring_ascii_case(a@, b@),
{
    let x = chars_of(a);
    let y = chars_of(b);
    if x.len() != y.len() {
        return false;
    }
    let mut i: usize = 0;
    while i < x.len()
        invariant
            x@ == a@,
            y@ == b@,
            x@.len() == y@.len(),
            i <= x@.len(),
            forall|j: int| 0 <= j < i ==> ascii_lower(#[trigger] x@[j]) == ascii_lower(y@[j]),
        decreases x@.len() - i,
    {
        if to_ascii_lowercase(x[i]) != to_ascii_lowercase(y[i]) {
            return false;
        }
        i = i + 1;
    }
    true
}

/// Whether an at-rule inside a block is a nested block (`@nest`).
pub fn is_nest_rule(name: &str) -> (r: bool)
    ensures
        r == same_ignoring_ascii_case(name@, "nest"@),
{
    eq_ignore_ascii_case(name, "nest")
}

/// Whether a top-level at-rule is the metadata block (`@chatterino`).
pub fn is_meta_rule(name: &str) -> (r: bool)
    ensures
        r == same_ignoring_ascii_case(name@, "chatterino"@),
{
    eq_ignore_ascii_case(name, "chatterino")
}

/// The metadata items that the `@chatterino` block knows.
#[derive(Debug, PartialEq)]
pub enum MetaKey {
    Author,
    IconSet,
}

/// The metadata item named `name` (without regard to ASCII case), or the
/// error for an unknown name.
pub fn meta_key(name: &str) -> (r: Result<MetaKey, ParseError>)
    ensures
        same_ignoring_ascii_case(name@, "author"@) ==> r matches Result::Ok(MetaKey::Author),
        !same_ignoring_ascii_case(name@, "author"@) && same_ignoring_ascii_case(name@, "icon-set"@)
            ==> r matches Result::Ok(MetaKey::IconSet),
        !same_ignoring_ascii_case(name@, "author"@) && !same_ignoring_ascii_case(name@, "icon-set"@)
            ==> (r matches Result::Err(ParseError::UnexpectedMeta(n)) && n@ == name@),
{
    if eq_ignore_ascii_case(name, "author") {
        Result::Ok(MetaKey::Author)
    } else if eq_ignore_ascii_case(name, "icon-set") {
        Result::Ok(MetaKey::IconSet)
    } else {
        Result::Err(ParseError::UnexpectedMeta(name.to_owned()))
    }
}

/// What the CSS color parser made of a value.
#[derive(Debug, PartialEq)]
pub enum ParsedColor {
    Rgba(Rgba),
    CurrentColor,
    /// Not a color.
    Invalid,
}

/// The color of a parsed value: `currentColor` and non-colors are refused.
pub fn color_from_parsed(c: ParsedColor) -> (r: Result<Rgba, ParseError>)
    ensures
        match c {
            ParsedColor::Rgba(x) => r == Result::<Rgba, ParseError>::Ok(x),
            ParsedColor::CurrentColor => r matches Result::Err(ParseError::CurrentColorFound),
            ParsedColor::Invalid => r matches Result::Err(ParseError::ExpectedColorOrVar),
        },
{
    match c {
        ParsedColor::Rgba(x) => Result::Ok(x),
        ParsedColor::CurrentColor => Result::Err(ParseError::CurrentColorFound),
        ParsedColor::Invalid => Result::Err(ParseError::ExpectedColorOrVar),
    }
}

/// A declaration of the `@chatterino` block.
#[derive(Debug, PartialEq)]
pub enum ChatterinoMetaItem {
    Author(String),
    IconSet(String),
}

/// The author given last among `items`.
pub open spec fn last_author(items: Seq<ChatterinoMetaItem>) -> Option<Seq<char>>
    decreases items.len(),
{
    if items.len() == 0 {
        Option::None
    } else {
        match items.last() {
            ChatterinoMetaItem::Author(a) => Option::Some(a@),
            _ => last_author(items.drop_last()),
        }
    }
}

/// The icon set given last among `items`.
pub open spec fn last_icon_set(items: Seq<ChatterinoMetaItem>) -> Option<Seq<char>>
    decreases items.len(),
{
    if items.len() == 0 {
        Option::None
    } else {
        match items.last() {
            ChatterinoMetaItem::IconSet(i) => Option::Some(i@),
            _ => last_icon_set(items.drop_last()),
        }
    }
}

/// The metadata of a `@chatterino` block from its declarations: a later
/// declaration overrides an earlier one, and both items must be there.
pub fn build_meta(items: &Vec<ChatterinoMetaItem>) -> (r: Result<ChatterinoMeta, ParseError>)
    ensures
        match (last_author(items@), last_icon_set(items@)) {
            (Option::Some(a), Option::Some(i)) => r matches Result::Ok(m) && m.author@ == a
                && m.icon_set@ == i,
            (Option::None, _) => r matches Result::Err(ParseError::MissingMetaItem(n)) && n@
                == "author"@,
            (Option::Some(_), Option::None) => r matches Result::Err(ParseError::MissingMetaItem(n))
                && n@ == "icon-set"@,
        },
{
    let mut author: Option<String> = Option::None;
    let mut icon_set: Option<String> = Option::None;
    let mut k: usize = 0;
    while k < items.len()
        invariant
            k <= items@.len(),
            match author {
                Option::Some(a) => last_author(items@.take(k as int)) == Option::Some(a@),
                Option::None => last_author(items@.take(k as int)) is None,
            },
            match icon_set {
                Option::Some(i) => last_icon_set(items@.take(k as int)) == Option::Some(i@),
                Option::None => last_icon_set(items@.take(k as int)) is None,
            },
        decreases items@.len() - k,
    {
        assert(items@.take(k + 1).drop_last() =~= items@.take(k as int));
        match &items[k] {
            ChatterinoMetaItem::Author(a) => {
                author = Option::Some(a.clone());
            },
            ChatterinoMetaItem::IconSet(i) => {
                icon_set = Option::Some(i.clone());
            },
        }
        k = k + 1;
    }
    assert(items@.take(k as int) =~= items@);
    match author {
        Option::Some(a) => match icon_set {
            Option::Some(i) => Result::Ok(ChatterinoMeta { author: a, icon_set: i }),
            Option::None => Result::Err(ParseError::MissingMetaItem("icon-set")),
        },
        Option::None => Result::Err(ParseError::MissingMetaItem("author")),
    }
}

/// The declarations `v` as a map from names to rules: a later declaration
/// of a name replaces an earlier one.
pub open spec fn rules_map(v: Seq<(String, Rule)>) -> Map<Seq<char>, Rule>
    decreases v.len(),
{
    if v.len() == 0 {
        Map::empty()
    } else {
        rules_map(v.drop_last()).insert(v.last().0@, v.last().1)
    }
}

/// No name occurs twice in `v`.
pub open spec fn distinct_rule_names(v: Seq<(String, Rule)>) -> bool {
    forall|i: int, j: int| 0 <= i < j < v.len() ==> v[i].0@ != v[j].0@
}

/// With distinct names, the map of `v` holds exactly the entries of `v`.
proof fn lemma_rules_map_distinct(v: Seq<(String, Rule)>)
    requires
        distinct_rule_names(v),
    ensures
        forall|k: Seq<char>| #[trigger]
            rules_map(v).contains_key(k) <==> exists|i: int| 0 <= i < v.len() && v[i].0@ == k,
        forall|i: int| #![trigger v[i]] 0 <= i < v.len() ==> rules_map(v)[v[i].0@] == v[i].1,
    decreases v.len(),
{
    if v.len() > 0 {
        let w = v.drop_last();
        lemma_rules_map_distinct(w);
        assert forall|k: Seq<char>| #[trigger]
            rules_map(v).contains_key(k) implies exists|i: int| 0 <= i < v.len() && v[i].0@ == k by {
            if k != v.last().0@ {
                assert(rules_map(w).contains_key(k));
                let i = choose|i: int| 0 <= i < w.len() && w[i].0@ == k;
                assert(v[i] == w[i]);
            } else {
                assert(v[v.len() - 1].0@ == k);
            }
        }
        assert forall|k: Seq<char>| (exists|i: int| 0 <= i < v.len() && v[i].0@ == k) implies #[trigger]
            rules_map(v).contains_key(k) by {
            let i = choose|i: int| 0 <= i < v.len() && v[i].0@ == k;
            if i < v.len() - 1 {
                assert(v[i] == w[i]);
            }
        }
        assert forall|i: int| #![trigger v[i]] 0 <= i < v.len() implies rules_map(v)[v[i].0@] == v[i].1 by {
            if i < v.len() - 1 {
                assert(v[i] == w[i]);
            }
        }
    }
}

/// Replacing the rule of a name that `v` holds once is inserting into its map.
proof fn lemma_rules_map_update(v: Seq<(String, Rule)>, j: int, e: (String, Rule))
    requires
        distinct_rule_names(v),
        0 <= j < v.len(),
        v[j].0@ == e.0@,
    ensures
        distinct_rule_names(v.update(j, e)),
        rules_map(v.update(j, e)) == rules_map(v).insert(e.0@, e.1),
{
    let u = v.update(j, e);
    assert(distinct_rule_names(u)) by {
        assert forall|a: int, b: int| 0 <= a < b < u.len() implies u[a].0@ != u[b].0@ by {
            assert(u[a].0@ == v[a].0@);
            assert(u[b].0@ == v[b].0@);
        }
    }
    lemma_rules_map_distinct(v);
    lemma_rules_map_distinct(u);
    assert forall|k: Seq<char>| rules_map(u).contains_key(k) <==> rules_map(v).insert(e.0@, e.1).contains_key(k) by {
        if rules_map(u).contains_key(k) {
            let i = choose|i: int| 0 <= i < u.len() && u[i].0@ == k;
            assert(v[i].0@ == k);
        }
        if rules_map(v).contains_key(k) {
            let i = choose|i: int| 0 <= i < v.len() && v[i].0@ == k;
            assert(u[i].0@ == k);
        }
        if k == e.0@ {
            assert(u[j].0@ == k);
        }
    }
    assert forall|k: Seq<char>| #[trigger] rules_map(u).contains_key(k) implies rules_map(u)[k] == rules_map(
        v,
    ).insert(e.0@, e.1)[k] by {
        let i = choose|i: int| 0 <= i < u.len() && u[i].0@ == k;
        assert(rules_map(u)[u[i].0@] == u[i].1);
        if i != j {
            assert(v[i] == u[i]);
            assert(rules_map(v)[v[i].0@] == v[i].1);
        }
    }
    assert(rules_map(u) =~= rules_map(v).insert(e.0@, e.1));
}

/// The index of the entry named `name` in `v`, if there is one.
fn find_rule(v: &Vec<(String, Rule)>, name: &String) -> (r: Option<usize>)
    ensures
        match r {
            Option::Some(j) => j < v@.len() && v@[j as int].0@ == name@,
            Option::None => forall|i: int| 0 <= i < v@.len() ==> v@[i].0@ != name@,
        },
{
    let mut i: usize = 0;
    while i < v.len()
        invariant
            i <= v@.len(),
            forall|k: int| 0 <= k < i ==> v@[k].0@ != name@,
        decreases v@.len() - i,
    {
        if v[i].0 == *name {
            return Option::Some(i);
        }
        i = i + 1;
    }
    Option::None
}

/// The declarations of one block collected by name: a later declaration of
/// a name replaces the rule of an earlier one.
pub fn collect_rules(decls: Vec<(String, Rule)>) -> (r: Vec<(String, Rule)>)
    ensures
        distinct_rule_names(r@),
        rules_map(r@) == rules_map(decls@),
{
    let ghost all = decls@;
    let mut out: Vec<(String, Rule)> = Vec::new();
    for e in it: decls
        invariant
            it.seq() == all,
            distinct_rule_names(out@),
            rules_map(out@) == rules_map(all.take(it.index())),
    {
        let ghost i = it.index();
        assert(all.take(i + 1).drop_last() =~= all.take(i));
        assert(all.take(i + 1).last() == e);
        match find_rule(&out, &e.0) {
            Option::Some(j) => {
                proof {
                    lemma_rules_map_update(out@, j as int, e);
                }
                out.set(j, e);
            },
            Option::None => {
                let ghost before = out@;
                out.push(e);
                assert(out@.drop_last() =~= before);
            },
        }
    }
    assert(all.take(all.len() as int) =~= all);
    out
}

/// The declarations `v` of colors as a map: a later declaration of a name
/// replaces an earlier one.
pub open spec fn colors_map(v: Seq<(String, Rgba)>) -> Map<Seq<char>, Rgba>
    decreases v.len(),
{
    if v.len() == 0 {
        Map::empty()
    } else {
        colors_map(v.drop_last()).insert(v.last().0@, v.last().1)
    }
}

/// The colors of the `:root` block collected by name: a later declaration of
/// a name replaces an earlier one.
pub fn collect_colors(decls: &Vec<(String, Rgba)>) -> (r: AHashMap<String, Rgba>)
    ensures
        color_entries(r) == colors_map(decls@),
{
    let mut m = color_map_new();
    let mut k: usize = 0;
    while k < decls.len()
        invariant
            k <= decls@.len(),
            color_entries(m) == colors_map(decls@.take(k as int)),
        decreases decls@.len() - k,
    {
        assert(decls@.take(k + 1).drop_last() =~= decls@.take(k as int));
        let (name, color) = &decls[k];
        color_map_insert(&mut m, name.clone(), *color);
        k = k + 1;
    }
    assert(decls@.take(k as int) =~= decls@);
    m
}

/// A top-level block of the style sheet.
#[derive(Debug)]
pub enum TopLevelItem {
    /// The `@chatterino` metadata block.
    Meta(ChatterinoMeta),
    /// The `:root` block with its colors.
    Root(AHashMap<String, Rgba>),
    /// A block of declarations, by name.
    Regular(String, Rule),
}

/// The blocks read so far: the metadata and `:root` blocks, each at most
/// once, and the other blocks, each name at most once.
pub struct ThemeParserState {
    meta: Option<ChatterinoMeta>,
    colors: Option<AHashMap<String, Rgba>>,
    rules: Vec<(String, Rule)>,
}

impl ThemeParserState {
    /// The metadata block read so far.
    pub closed spec fn meta(&self) -> Option<ChatterinoMeta> {
        self.meta
    }

    /// The `:root` block read so far.
    pub closed spec fn colors(&self) -> Option<AHashMap<String, Rgba>> {
        self.colors
    }

    /// The other blocks read so far, in order.
    pub closed spec fn rules(&self) -> Seq<(String, Rule)> {
        self.rules@
    }

    /// `self` and `other` have read the same blocks.
    pub open spec fn same_as(&self, other: &Self) -> bool {
        &&& self.meta() == other.meta()
        &&& self.colors() == other.colors()
        &&& self.rules() == other.rules()
    }

    /// Nothing read yet.
    pub fn new() -> (s: Self)
        ensures
            s.meta() is None,
            s.colors() is None,
            s.rules() == Seq::<(String, Rule)>::empty(),
    {
        ThemeParserState { meta: Option::None, colors: Option::None, rules: Vec::new() }
    }

    /// Takes in the next top-level block; a second metadata block, a second
    /// `:root` block and a second block of one name are refused, and leave
    /// the state as it was.
    pub fn apply(&mut self, item: TopLevelItem) -> (r: Result<(), ParseError>)
        ensures
            distinct_rule_names(old(self).rules()) ==> distinct_rule_names(final(self).rules()),
            match item {
                TopLevelItem::Meta(m) => if old(self).meta() is None {
                    &&& r is Ok
                    &&& final(self).meta() == Option::Some(m)
                    &&& final(self).colors() == old(self).colors()
                    &&& final(self).rules() == old(self).rules()
                } else {
                    r matches Result::Err(ParseError::DuplicateMetaBlock) && final(self).same_as(old(self))
                },
                TopLevelItem::Root(c) => if old(self).colors() is None {
                    &&& r is Ok
                    &&& final(self).meta() == old(self).meta()
                    &&& final(self).colors() == Option::Some(c)
                    &&& final(self).rules() == old(self).rules()
                } else {
                    r matches Result::Err(ParseError::DuplicateRootBlock) && final(self).same_as(old(self))
                },
                TopLevelItem::Regular(name, rule) => if exists|i: int|
                    0 <= i < old(self).rules().len() && (#[trigger] old(self).rules()[i]).0@ == name@ {
                    &&& r matches Result::Err(ParseError::DuplicateBlock(n)) && n@ == name@
                    &&& final(self).same_as(old(self))
                } else {
                    &&& r is Ok
                    &&& final(self).meta() == old(self).meta()
                    &&& final(self).colors() == old(self).colors()
                    &&& final(self).rules() == old(self).rules().push((name, rule))
                },
            },
    {
        match item {
            TopLevelItem::Meta(m) => {
                if self.meta.is_none() {
                    self.meta = Option::Some(m);
                    Result::Ok(())
                } else {
                    Result::Err(ParseError::DuplicateMetaBlock)
                }
            },
            TopLevelItem::Root(c) => {
                if self.colors.is_none() {
                    self.colors = Option::Some(c);
                    Result::Ok(())
                } else {
                    Result::Err(ParseError::DuplicateRootBlock)
                }
            },
            TopLevelItem::Regular(name, rule) => {
                match find_rule(&self.rules, &name) {
                    Option::Some(j) => {
                        assert(self.rules()[j as int].0@ == name@);
                        Result::Err(ParseError::DuplicateBlock(self.rules[j].0.clone()))
                    },
                    Option::None => {
                        self.rules.push((name, rule));
                        Result::Ok(())
                    },
                }
            },
        }
    }

    /// The theme made of the blocks read: it needs a metadata block; without
    /// a `:root` block it has no colors of its own.
    pub fn finish(self) -> (r: Result<Theme, ParseError>)
        ensures
            match self.meta() {
                Option::None => r matches Result::Err(ParseError::MissingMetaBlock),
                Option::Some(m) => r matches Result::Ok(t) && t.meta == m && t.rules@ == self.rules()
                    && color_entries(t.colors) == match self.colors() {
                    Option::Some(c) => color_entries(c),
                    Option::None => Map::empty(),
                },
            },
    {
        match self.meta {
            Option::None => Result::Err(ParseError::MissingMetaBlock),
            Option::Some(meta) => {
                let colors = match self.colors {
                    Option::Some(c) => c,
                    Option::None => color_map_new(),
                };
                Result::Ok(Theme { meta, colors, rules: self.rules })
            },
        }
    }
}

} // verus!
