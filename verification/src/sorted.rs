//! Vectors of `(name, value)` entries kept sorted by name, the way a
//! `BTreeMap<&str, _>` keeps its keys: names compare by their UTF-8 bytes.

use vstd::prelude::*;
use vstd::string::StringSliceAdditionalSpecFns;

verus! {

/// Byte-wise lexicographic comparison: -1, 0 or 1.
pub open spec fn bytes_order(a: Seq<u8>, b: Seq<u8>) -> int
    decreases a.len(),
{
    if a.len() == 0 && b.len() == 0 {
        0
    } else if a.len() == 0 {
        -1
    } else if b.len() == 0 {
        1
    } else if a[0] < b[0] {
        -1
    } else if a[0] > b[0] {
        1
    } else {
        bytes_order(a.drop_first(), b.drop_first())
    }
}

/// `a` comes before `b` when names are ordered by their UTF-8 bytes.
pub open spec fn name_lt(a: &str, b: &str) -> bool {
    bytes_order(a.spec_bytes(), b.spec_bytes()) < 0
}

proof fn lemma_order_eq(a: Seq<u8>, b: Seq<u8>)
    ensures
        bytes_order(a, b) == 0 <==> a == b,
        bytes_order(a, b) == -bytes_order(b, a),
    decreases a.len(),
{
    if a.len() == 0 && b.len() == 0 {
        assert(a =~= b);
    }
    if a.len() > 0 && b.len() > 0 && a[0] == b[0] {
        lemma_order_eq(a.drop_first(), b.drop_first());
        if a.drop_first() == b.drop_first() {
            assert(a =~= seq![a[0]] + a.drop_first());
            assert(b =~= seq![b[0]] + b.drop_first());
        }
    }
    if a == b && a.len() > 0 {
        assert(a.drop_first() == b.drop_first());
        lemma_order_eq(a.drop_first(), b.drop_first());
    }
}

proof fn lemma_order_trans(a: Seq<u8>, b: Seq<u8>, c: Seq<u8>)
    requires
        bytes_order(a, b) < 0,
        bytes_order(b, c) < 0,
    ensures
        bytes_order(a, c) < 0,
    decreases a.len(),
{
    if a.len() > 0 && b.len() > 0 && c.len() > 0 && a[0] == b[0] && b[0] == c[0] {
        lemma_order_trans(a.drop_first(), b.drop_first(), c.drop_first());
    }
}

/// Entries come in strictly increasing order of their names.
pub open spec fn sorted<T>(v: Seq<(&str, T)>) -> bool {
    forall|i: int, j: int| 0 <= i < j < v.len() ==> name_lt(#[trigger] v[i].0, #[trigger] v[j].0)
}

/// The entries as a map from names to values.
pub open spec fn entries_map<T>(v: Seq<(&str, T)>) -> Map<Seq<char>, T> {
    Map::new(
        |k: Seq<char>| exists|i: int| 0 <= i < v.len() && v[i].0@ == k,
        |k: Seq<char>| v[entry_index(v, k)].1,
    )
}

/// The position of an entry named `k`.
pub open spec fn entry_index<T>(v: Seq<(&str, T)>, k: Seq<char>) -> int {
    choose|i: int| 0 <= i < v.len() && v[i].0@ == k
}

/// In a sorted vector no name occurs twice.
pub proof fn lemma_sorted_unique<T>(v: Seq<(&str, T)>, i: int, j: int)
    requires
        sorted(v),
        0 <= i < v.len(),
        0 <= j < v.len(),
        v[i].0@ == v[j].0@,
    ensures
        i == j,
{
    if i != j {
        assert(v[i].0.spec_bytes() == v[j].0.spec_bytes());
        lemma_order_eq(v[i].0.spec_bytes(), v[j].0.spec_bytes());
    }
}

/// The map of a sorted vector holds exactly its entries.
pub proof fn lemma_entries_map<T>(v: Seq<(&str, T)>)
    requires
        sorted(v),
    ensures
        forall|i: int| #![trigger v[i]] 0 <= i < v.len() ==> entries_map(v).contains_key(v[i].0@)
            && entries_map(v)[v[i].0@] == v[i].1,
        forall|k: Seq<char>| #[trigger] entries_map(v).contains_key(k) ==> exists|i: int|
            0 <= i < v.len() && v[i].0@ == k,
{
    assert forall|i: int| #![trigger v[i]] 0 <= i < v.len() implies entries_map(v).contains_key(
        v[i].0@,
    ) && entries_map(v)[v[i].0@] == v[i].1 by {
        let k = v[i].0@;
        assert(0 <= i < v.len() && v[i].0@ == k);
        assert(exists|j: int| 0 <= j < v.len() && v[j].0@ == k);
        assert(entries_map(v).contains_key(k));
        let j = entry_index(v, k);
        lemma_sorted_unique(v, i, j);
    }
}

/// Byte-wise comparison of two names, -1, 0 or 1.
fn compare_names(a: &str, b: &str) -> (r: i8)
    ensures
        r as int == bytes_order(a.spec_bytes(), b.spec_bytes()),
{
    let x = a.as_bytes();
    let y = b.as_bytes();
    let mut i: usize = 0;
    assert(x@.skip(0) =~= x@);
    assert(y@.skip(0) =~= y@);
    while i < x.len() && i < y.len() && x[i] == y[i]
        invariant
            x@ == a.spec_bytes(),
            y@ == b.spec_bytes(),
            i <= x@.len(),
            i <= y@.len(),
            bytes_order(x@, y@) == bytes_order(x@.skip(i as int), y@.skip(i as int)),
        decreases x@.len() - i,
    {
        assert(x@.skip(i as int).drop_first() =~= x@.skip(i + 1));
        assert(y@.skip(i as int).drop_first() =~= y@.skip(i + 1));
        i = i + 1;
    }
    if i == x.len() && i == y.len() {
        0
    } else if i == x.len() {
        -1
    } else if i == y.len() {
        1
    } else if x[i] < y[i] {
        -1
    } else {
        1
    }
}

/// The position of the entry named `name`, if there is one.
pub fn find_entry<'a, 'b, T>(v: &'b Vec<(&'a str, T)>, name: &str) -> (r: Option<usize>)
    ensures
        r matches Option::Some(i) ==> i < v@.len() && v@[i as int].0@ == name@,
        r is None ==> forall|i: int| 0 <= i < v@.len() ==> v@[i].0@ != name@,
{
    let mut i: usize = 0;
    while i < v.len()
        invariant
            i <= v@.len(),
            forall|j: int| 0 <= j < i ==> v@[j].0@ != name@,
        decreases v@.len() - i,
    {
        let c = compare_names(v[i].0, name);
        proof {
            lemma_order_eq(v@[i as int].0.spec_bytes(), name.spec_bytes());
            vstd::utf8::encode_utf8_decode_utf8(v@[i as int].0@);
            vstd::utf8::encode_utf8_decode_utf8(name@);
        }
        if c == 0 {
            return Option::Some(i);
        }
        i = i + 1;
    }
    Option::None
}

/// Inserts `value` under `name`, replacing the value of an entry with the
/// same name, and keeps the entries sorted.
pub fn insert_entry<'a, T>(v: &mut Vec<(&'a str, T)>, name: &'a str, value: T)
    requires
        sorted(old(v)@),
    ensures
        sorted(final(v)@),
        entries_map(final(v)@) == entries_map(old(v)@).insert(name@, value),
        final(v)@.len() == old(v)@.len() + if entries_map(old(v)@).contains_key(name@) {
            0int
        } else {
            1int
        },
{
    let ghost v0 = v@;
    let mut i: usize = 0;
    while i < v.len()
        invariant
            v@ == v0,
            sorted(v0),
            i <= v@.len(),
            forall|j: int| 0 <= j < i ==> name_lt(#[trigger] v@[j].0, name),
        ensures
            v@ == v0,
            i <= v@.len(),
            forall|j: int| 0 <= j < i ==> name_lt(#[trigger] v@[j].0, name),
            i < v@.len() ==> bytes_order(v@[i as int].0.spec_bytes(), name.spec_bytes()) >= 0,
        decreases v@.len() - i,
    {
        let c = compare_names(v[i].0, name);
        if c >= 0 {
            break;
        }
        i = i + 1;
    }
    let replace = i < v.len() && compare_names(v[i].0, name) == 0;
    proof {
        if i < v0.len() {
            lemma_order_eq(v0[i as int].0.spec_bytes(), name.spec_bytes());
        }
    }
    proof {
        lemma_entries_map(v0);
        if replace {
            vstd::utf8::encode_utf8_decode_utf8(v0[i as int].0@);
            vstd::utf8::encode_utf8_decode_utf8(name@);
        } else if entries_map(v0).contains_key(name@) {
            let j = entry_index(v0, name@);
            vstd::utf8::encode_utf8_decode_utf8(v0[j].0@);
            vstd::utf8::encode_utf8_decode_utf8(name@);
            lemma_order_eq(v0[j].0.spec_bytes(), name.spec_bytes());
            if j >= i {
                if j > i {
                    lemma_order_eq(v0[i as int].0.spec_bytes(), name.spec_bytes());
                    assert(name_lt(v0[i as int].0, v0[j].0));
                }
            }
        }
    }
    if replace {
        v.remove(i);
    }
    v.insert(i, (name, value));
    proof {
        if i < v0.len() && !replace {
            lemma_order_eq(name.spec_bytes(), v0[i as int].0.spec_bytes());
        }
        lemma_placed(v0, i as int, name, value, replace);
        assert(v@ =~= placed(v0, i as int, name, value, replace));
    }
}

/// The vector after placing `(name, value)` at position `i`, either in
/// place of the entry there (`replace`) or before it.
pub open spec fn placed<'a, T>(v0: Seq<(&'a str, T)>, i: int, name: &'a str, value: T, replace: bool) -> Seq<(&'a str, T)> {
    if replace {
        v0.update(i, (name, value))
    } else {
        v0.insert(i, (name, value))
    }
}

/// Placing `(name, value)` at position `i` of a sorted vector, where every
/// earlier entry comes before `name`, and the entry at `i` (if any) comes
/// after it or has the same name (`replace`), keeps it sorted and inserts
/// into its map.
proof fn lemma_placed<'a, T>(v0: Seq<(&'a str, T)>, i: int, name: &'a str, value: T, replace: bool)
    requires
        sorted(v0),
        0 <= i <= v0.len(),
        forall|j: int| 0 <= j < i ==> name_lt(#[trigger] v0[j].0, name),
        replace ==> i < v0.len() && v0[i].0.spec_bytes() == name.spec_bytes(),
        !replace && i < v0.len() ==> name_lt(name, v0[i].0),
    ensures
        sorted(placed(v0, i, name, value, replace)),
        entries_map(placed(v0, i, name, value, replace)) == entries_map(v0).insert(name@, value),
{
    lemma_placed_sorted(v0, i, name, value, replace);
    lemma_placed_map(v0, i, name, value, replace);
}

proof fn lemma_placed_sorted<'a, T>(v0: Seq<(&'a str, T)>, i: int, name: &'a str, value: T, replace: bool)
    requires
        sorted(v0),
        0 <= i <= v0.len(),
        forall|j: int| 0 <= j < i ==> name_lt(#[trigger] v0[j].0, name),
        replace ==> i < v0.len() && v0[i].0.spec_bytes() == name.spec_bytes(),
        !replace && i < v0.len() ==> name_lt(name, v0[i].0),
    ensures
        sorted(placed(v0, i, name, value, replace)),
{
    let v1 = placed(v0, i, name, value, replace);
    assert forall|a: int, b: int| 0 <= a < b < v1.len() implies name_lt(
        #[trigger] v1[a].0,
        #[trigger] v1[b].0,
    ) by {
        if a == i {
            let ob = if replace { b } else { b - 1 };
            assert(v1[b] == v0[ob]);
            if replace {
                assert(name_lt(v0[i].0, v0[ob].0));
            } else if ob > i {
                lemma_order_trans(name.spec_bytes(), v0[i].0.spec_bytes(), v0[ob].0.spec_bytes());
            }
        } else if b == i {
            assert(v1[a] == v0[a]);
        } else {
            let oa = if a < i || replace { a } else { a - 1 };
            let ob = if b < i || replace { b } else { b - 1 };
            assert(v1[a] == v0[oa]);
            assert(v1[b] == v0[ob]);
            if b < i || replace || a > i {
                assert(oa < ob);
            } else {
                assert(oa < ob);
            }
        }
    }
}

proof fn lemma_placed_map<'a, T>(v0: Seq<(&'a str, T)>, i: int, name: &'a str, value: T, replace: bool)
    requires
        sorted(v0),
        sorted(placed(v0, i, name, value, replace)),
        0 <= i <= v0.len(),
        replace ==> i < v0.len() && v0[i].0.spec_bytes() == name.spec_bytes(),
    ensures
        entries_map(placed(v0, i, name, value, replace)) == entries_map(v0).insert(name@, value),
{
    let v1 = placed(v0, i, name, value, replace);
    let m0 = entries_map(v0).insert(name@, value);
    let m1 = entries_map(v1);
    lemma_entries_map(v0);
    lemma_entries_map(v1);
    if replace {
        vstd::utf8::encode_utf8_decode_utf8(v0[i].0@);
        vstd::utf8::encode_utf8_decode_utf8(name@);
        assert(v0[i].0@ == name@);
    }
    assert(v1[i].0@ == name@);
    assert forall|k: Seq<char>| #[trigger] m1.contains_key(k) implies m0.contains_key(k) && m1[k]
        == m0[k] by {
        let j = entry_index(v1, k);
        if k != name@ {
            let oj = if j < i || replace { j } else { j - 1 };
            assert(v0[oj] == v1[j]);
        } else {
            lemma_sorted_unique(v1, i, j);
        }
    }
    assert forall|k: Seq<char>| #[trigger] m0.contains_key(k) implies m1.contains_key(k) by {
        if k != name@ {
            let j = entry_index(v0, k);
            let nj = if j < i || replace { j } else { j + 1 };
            assert(v1[nj] == v0[j]);
        }
    }
    assert(m1 =~= m0);
}

} // verus!
