//! Prints the `getDataIndex` function that maps a key to its index, as a
//! C++ function that walks a [`Fork`] byte by byte.

use crate::helper::fork::{lemma_min_len_bounds, lemma_min_len_fits, Fork};
use crate::printer::{line, Printer};
use crate::text::decimal;
use std::collections::BTreeMap;
use vstd::prelude::*;
use vstd::std_specs::btree::spec_btree_map_iter;
use vstd::std_specs::iter::IteratorSpec;
use vstd::string::StringSliceAdditionalSpecFns;
use vstd::utf8::{decode_utf8, valid_utf8};

verus! {

broadcast use {vstd::std_specs::btree::group_btree_axioms, vstd::laws_cmp::group_laws_cmp};

/// The prefixes that are printed as text are valid UTF-8.
pub open spec fn utf8_prefixes<'a>(f: Fork<'a, usize>) -> bool
    decreases f,
{
    match f {
        Fork::Run { prefix, remaining, .. } => valid_utf8(prefix@) && utf8_prefixes(*remaining),
        Fork::Chaotic { items, .. } => forall|b: u8| #[trigger]
            items@.contains_key(b) ==> {
                &&& decreases_to!(items => items@)
                &&& utf8_prefixes(items@[b])
            },
        Fork::Empty { remaining, .. } => utf8_prefixes(*remaining),
        Fork::End { prefix, .. } => prefix@.len() >= 2 ==> valid_utf8(prefix@),
        Fork::Nil => true,
    }
}

/// The indentation that printing `f` needs fits into `room` more levels.
pub open spec fn depth_fits<'a>(f: Fork<'a, usize>, room: int) -> bool
    decreases f, 1int,
{
    room >= 1 && body_fits(f, room - 1)
}

/// The indentation that printing `f`, after its length check, needs fits
/// into `room` more levels.
pub open spec fn body_fits<'a>(f: Fork<'a, usize>, room: int) -> bool
    decreases f, 0int,
{
    match f {
        Fork::Run { remaining, .. } => room >= 1 && depth_fits(*remaining, room - 1),
        Fork::Chaotic { items, .. } => room >= 1 && forall|b: u8| #[trigger]
            items@.contains_key(b) ==> {
                &&& decreases_to!(items => items@)
                &&& depth_fits(items@[b], room - 1)
            },
        Fork::Empty { remaining, .. } => depth_fits(*remaining, room),
        _ => true,
    }
}

/// More room fits too.
proof fn lemma_fits_mono<'a>(f: Fork<'a, usize>, room: int, more: int)
    requires
        room <= more,
    ensures
        depth_fits(f, room) ==> depth_fits(f, more),
        body_fits(f, room) ==> body_fits(f, more),
    decreases f,
{
    match f {
        Fork::Run { remaining, .. } => {
            lemma_fits_mono(*remaining, room - 1, more - 1);
            lemma_fits_mono(*remaining, room - 2, more - 2);
        },
        Fork::Chaotic { items, .. } => {
            assert forall|b: u8| #[trigger] items@.contains_key(b) implies (depth_fits(
                items@[b],
                room - 1,
            ) ==> depth_fits(items@[b], more - 1)) && (depth_fits(items@[b], room - 2)
                ==> depth_fits(items@[b], more - 2)) by {
                assert(decreases_to!(items => items@));
                lemma_fits_mono(items@[b], room - 1, more - 1);
                lemma_fits_mono(items@[b], room - 2, more - 2);
            }
        },
        Fork::Empty { remaining, .. } => {
            lemma_fits_mono(*remaining, room, more);
            lemma_fits_mono(*remaining, room - 1, more - 1);
        },
        _ => {},
    }
}

/// The text that prints `f`, where `position` bytes of the key are already
/// matched, the key is known to be at least `known` long, and the
/// indentation is `depth`.
pub open spec fn fork_text<'a>(f: Fork<'a, usize>, position: int, known: int, depth: nat) -> Seq<
    char,
>
    decreases f, 300int,
{
    if known < f.min_len() {
        line(depth, "if (size >= "@ + decimal(f.min_len()) + ") {"@) + fork_body(
            f,
            position,
            f.min_len() as int,
            depth + 1,
        ) + line(depth, "}"@)
    } else {
        fork_body(f, position, known, depth)
    }
}

/// The text that prints `f` once its length check is done.
pub open spec fn fork_body<'a>(f: Fork<'a, usize>, position: int, known: int, depth: nat) -> Seq<
    char,
>
    decreases f, 299int,
{
    match f {
        Fork::Run { prefix, remaining, .. } => line(
            depth,
            "if (std::memcmp(data + "@ + decimal(position as nat) + ", \""@ + decode_utf8(prefix@)
                + "\", "@ + decimal(prefix@.len()) + ") == 0) {"@,
        ) + fork_text(*remaining, position + prefix@.len(), known, depth + 1) + line(depth, "}"@),
        Fork::Chaotic { .. } => line(depth, "switch (data["@ + decimal(position as nat) + "]) {"@)
            + cases_text(f, 0, position, known, depth) + line(depth, "}"@),
        Fork::Empty { total_prefix, value, remaining } => line(
            depth,
            "if (size == "@ + decimal(total_prefix@.len()) + ") return "@ + decimal(value as nat)
                + ";"@,
        ) + fork_text(*remaining, position, known, depth),
        Fork::End { prefix, total_prefix, value } => line(
            depth,
            end_text(prefix@, total_prefix@.len(), position, value),
        ),
        Fork::Nil => Seq::empty(),
    }
}

/// The condition line for an item that ends after `prefix`.
pub open spec fn end_text(prefix: Seq<u8>, size: nat, position: int, value: usize) -> Seq<char> {
    if prefix.len() == 0 {
        "if (size == "@ + decimal(size) + ") return "@ + decimal(value as nat) + ";"@
    } else if prefix.len() == 1 {
        "if (size == "@ + decimal(size) + " && data["@ + decimal(position as nat) + "] == '"@
            + seq![prefix[0] as char] + "') return "@ + decimal(value as nat) + ";"@
    } else {
        "if (size == "@ + decimal(size) + " && std::memcmp(data + "@ + decimal(position as nat)
            + ", \""@ + decode_utf8(prefix) + "\", "@ + decimal(prefix.len()) + ") == 0) return "@
            + decimal(value as nat) + ";"@
    }
}

/// The `case` blocks of a `Chaotic` fork `f` for the bytes `from` and above,
/// in increasing order.
pub open spec fn cases_text<'a>(
    f: Fork<'a, usize>,
    from: int,
    position: int,
    known: int,
    depth: nat,
) -> Seq<char>
    decreases f, 256 - from,
{
    if from < 0 || from >= 256 {
        Seq::empty()
    } else {
        match f {
            Fork::Chaotic { items, .. } => {
                let rest = cases_text(f, from + 1, position, known, depth);
                if items@.contains_key(from as u8) {
                    proof {
                        assert(decreases_to!(items => items@));
                    }
                    line(depth, "case '"@ + seq![(from as u8) as char] + "': {"@) + fork_text(
                        items@[from as u8],
                        position + 1,
                        known,
                        depth + 1,
                    ) + line(depth, "}"@) + line(depth, "break;"@) + rest
                } else {
                    rest
                }
            },
            _ => Seq::empty(),
        }
    }
}


/// The bytes as text, when they are valid UTF-8 (`std::str::from_utf8`).
#[verifier::external_body]
fn utf8_text<'b>(bytes: &'b [u8]) -> (r: Option<&'b str>)
    ensures
        r is Some <==> valid_utf8(bytes@),
        r matches Option::Some(s) ==> s.spec_bytes() == bytes@,
{
    std::str::from_utf8(bytes).ok()
}

/// The text of valid UTF-8 bytes.
fn prefix_text<'b>(bytes: &'b [u8]) -> (s: &'b str)
    requires
        valid_utf8(bytes@),
    ensures
        s@ == decode_utf8(bytes@),
{
    match utf8_text(bytes) {
        Option::Some(s) => {
            proof {
                vstd::utf8::encode_utf8_decode_utf8(s@);
            }
            s
        },
        Option::None => {
            assert(false);
            ""
        },
    }
}

/// Prints the lines that match the rest of a key against `f`, where
/// `position` bytes of the key are already matched (the bytes of `path`)
/// and the key is known to be at least `known_length` long.
fn print_fork<'a>(
    p: &mut Printer,
    f: &Fork<'a, usize>,
    position: usize,
    known_length: usize,
    Ghost(path): Ghost<Seq<u8>>,
)
    requires
        f.wf_at(path),
        position == path.len(),
        utf8_prefixes(*f),
        depth_fits(*f, usize::MAX - old(p).depth()),
    ensures
        final(p).depth() == old(p).depth(),
        final(p).output() == old(p).output() + fork_text(
            *f,
            position as int,
            known_length as int,
            old(p).depth(),
        ),
    decreases f, 2int,
{
    let ghost start = p.output();
    let ghost depth = p.depth();
    let min_size = f.min_size();
    if known_length < min_size {
        p.write_fmt("if (size >= ");
        p.write_number(min_size);
        p.write(") {");
        p.end_line();
        p.indent();
        let ghost mid = p.output();
        print_body(p, f, position, min_size, Ghost(path));
        p.dedent();
        p.write_line("}");
        assert(p.output() =~= start + fork_text(*f, position as int, known_length as int, depth));
    } else {
        proof {
            lemma_fits_mono(*f, usize::MAX - depth - 1, usize::MAX - depth);
        }
        print_body(p, f, position, known_length, Ghost(path));
    }
}

/// Prints the lines of `f` after its length check.
fn print_body<'a>(
    p: &mut Printer,
    f: &Fork<'a, usize>,
    position: usize,
    known_length: usize,
    Ghost(path): Ghost<Seq<u8>>,
)
    requires
        f.wf_at(path),
        position == path.len(),
        utf8_prefixes(*f),
        body_fits(*f, usize::MAX - old(p).depth()),
    ensures
        final(p).depth() == old(p).depth(),
        final(p).output() == old(p).output() + fork_body(
            *f,
            position as int,
            known_length as int,
            old(p).depth(),
        ),
    decreases f, 1int,
{
    let ghost start = p.output();
    let ghost depth = p.depth();
    match f {
        Fork::Run { prefix, remaining, .. } => {
            print_run(p, f, prefix, remaining, position, known_length, Ghost(path));
        },
        Fork::Chaotic { items, .. } => {
            p.write_fmt("switch (data[");
            p.write_number(position);
            p.write("]) {");
            p.end_line();
            print_cases(p, f, items, position, known_length, Ghost(path));
            p.write_line("}");
        },
        Fork::Empty { total_prefix, value, remaining } => {
            print_empty(p, f, total_prefix.len(), *value, remaining, position, known_length, Ghost(path));
        },
        Fork::End { prefix, total_prefix, value } => {
            print_end(p, prefix, total_prefix.len(), position, *value);
        },
        Fork::Nil => {},
    }
    assert(p.output() =~= start + fork_body(*f, position as int, known_length as int, depth));
}

/// Prints a `Run` fork `f` with its `prefix` and `remaining` fork.
fn print_run<'a>(
    p: &mut Printer,
    f: &Fork<'a, usize>,
    prefix: &'a [u8],
    remaining: &Box<Fork<'a, usize>>,
    position: usize,
    known_length: usize,
    Ghost(path): Ghost<Seq<u8>>,
)
    requires
        *f matches Fork::Run { prefix: pr, remaining: r, .. } && pr == prefix && r == remaining,
        f.wf_at(path),
        position == path.len(),
        utf8_prefixes(*f),
        body_fits(*f, usize::MAX - old(p).depth()),
    ensures
        final(p).depth() == old(p).depth(),
        final(p).output() == old(p).output() + fork_body(
            *f,
            position as int,
            known_length as int,
            old(p).depth(),
        ),
    decreases f, 0int,
{
    let ghost start = p.output();
    let ghost depth = p.depth();
    proof {
        lemma_min_len_bounds(**remaining, path + prefix@);
        lemma_min_len_fits(**remaining);
    }
    p.write_fmt("if (std::memcmp(data + ");
    p.write_number(position);
    p.write(", \"");
    p.write(prefix_text(prefix));
    p.write("\", ");
    p.write_number(prefix.len());
    p.write(") == 0) {");
    p.end_line();
    p.indent();
    print_fork(p, remaining, position + prefix.len(), known_length, Ghost(path + prefix@));
    p.dedent();
    p.write_line("}");
    assert(p.output() =~= start + fork_body(*f, position as int, known_length as int, depth));
}

/// Prints an `Empty` fork `f` for an item of length `size` with `value`,
/// followed by its `remaining` fork.
fn print_empty<'a>(
    p: &mut Printer,
    f: &Fork<'a, usize>,
    size: usize,
    value: usize,
    remaining: &Box<Fork<'a, usize>>,
    position: usize,
    known_length: usize,
    Ghost(path): Ghost<Seq<u8>>,
)
    requires
        *f matches Fork::Empty { total_prefix, value: v, remaining: r } && total_prefix@.len() == size
            && v == value && r == remaining,
        f.wf_at(path),
        position == path.len(),
        utf8_prefixes(*f),
        body_fits(*f, usize::MAX - old(p).depth()),
    ensures
        final(p).depth() == old(p).depth(),
        final(p).output() == old(p).output() + fork_body(
            *f,
            position as int,
            known_length as int,
            old(p).depth(),
        ),
    decreases f, 0int,
{
    let ghost start = p.output();
    let ghost depth = p.depth();
    p.write_fmt("if (size == ");
    p.write_number(size);
    p.write(") return ");
    p.write_number(value);
    p.write(";");
    p.end_line();
    print_fork(p, remaining, position, known_length, Ghost(path));
    assert(p.output() =~= start + fork_body(*f, position as int, known_length as int, depth));
}

/// Prints the condition line for an item that ends after `prefix`.
fn print_end(p: &mut Printer, prefix: &[u8], size: usize, position: usize, value: usize)
    requires
        prefix@.len() >= 2 ==> valid_utf8(prefix@),
    ensures
        final(p).depth() == old(p).depth(),
        final(p).output() == old(p).output() + line(
            old(p).depth(),
            end_text(prefix@, size as nat, position as int, value),
        ),
{
    let ghost start = p.output();
    let ghost depth = p.depth();
    if prefix.len() == 0 {
        p.write_fmt("if (size == ");
        p.write_number(size);
        p.write(") return ");
        p.write_number(value);
        p.write(";");
        p.end_line();
    } else if prefix.len() == 1 {
        p.write_fmt("if (size == ");
        p.write_number(size);
        p.write(" && data[");
        p.write_number(position);
        p.write("] == '");
        p.write_char(prefix[0] as char);
        p.write("') return ");
        p.write_number(value);
        p.write(";");
        p.end_line();
    } else {
        p.write_fmt("if (size == ");
        p.write_number(size);
        p.write(" && std::memcmp(data + ");
        p.write_number(position);
        p.write(", \"");
        p.write(prefix_text(prefix));
        p.write("\", ");
        p.write_number(prefix.len());
        p.write(") == 0) return ");
        p.write_number(value);
        p.write(";");
        p.end_line();
    }
    assert(p.output() =~= start + line(depth, end_text(prefix@, size as nat, position as int, value)));
}

/// No key of the `Chaotic` fork `f` lies in `[a, b)`: its cases there print nothing.
proof fn lemma_cases_gap<'a>(f: Fork<'a, usize>, a: int, b: int, position: int, known: int, depth: nat)
    requires
        0 <= a <= b <= 256,
        f matches Fork::Chaotic { items, .. } && forall|c: u8| #[trigger]
            items@.contains_key(c) ==> !(a <= c < b),
    ensures
        cases_text(f, a, position, known, depth) == cases_text(f, b, position, known, depth),
    decreases b - a,
{
    if a < b {
        lemma_cases_gap(f, a + 1, b, position, known, depth);
    }
}

/// Prints the `case` blocks of the `Chaotic` fork `f` whose children are `items`.
fn print_cases<'a>(
    p: &mut Printer,
    f: &Fork<'a, usize>,
    items: &BTreeMap<u8, Fork<'a, usize>>,
    position: usize,
    known_length: usize,
    Ghost(path): Ghost<Seq<u8>>,
)
    requires
        *f matches Fork::Chaotic { items: its, .. } && its == *items,
        f.wf_at(path),
        position == path.len(),
        utf8_prefixes(*f),
        body_fits(*f, usize::MAX - old(p).depth()),
    ensures
        final(p).depth() == old(p).depth(),
        final(p).output() == old(p).output() + cases_text(
            *f,
            0,
            position as int,
            known_length as int,
            old(p).depth(),
        ),
    decreases f, 0int,
{
    let ghost start = p.output();
    let ghost depth = p.depth();
    let ghost m = items@;
    let ghost room = usize::MAX - depth;
    let iter = items.iter();
    proof {
        lemma_iter_start(*f, iter.remaining(), position as int, known_length as int, depth);
    }
    for kv in it: iter
        invariant
            p.depth() == depth,
            room == usize::MAX - depth,
            m == items@,
            *f matches Fork::Chaotic { items: its, .. } && its == *items,
            f.wf_at(path),
            position == path.len(),
            utf8_prefixes(*f),
            body_fits(*f, room),
            forall|i: int| #![trigger it.seq()[i]]
                0 <= i < it.seq().len() ==> m.contains_key(*it.seq()[i].0) && m[*it.seq()[i].0]
                    == *it.seq()[i].1,
            forall|i: int, j: int|
                0 <= i < j < it.seq().len() ==> *it.seq()[i].0 < *it.seq()[j].0,
            forall|c: u8| #[trigger]
                m.contains_key(c) ==> exists|i: int|
                    0 <= i < it.seq().len() && *it.seq()[i].0 == c,
            start + cases_text(*f, 0, position as int, known_length as int, depth) == p.output()
                + cases_text(
                *f,
                next_key(it.seq(), it.index()),
                position as int,
                known_length as int,
                depth,
            ),
    {
        let ghost idx = it.index();
        assert(kv == it.seq()[idx]);
        let (case, subfork) = kv;
        let ghost c = *case;
        let ghost out0 = p.output();
        proof {
            assert(decreases_to!(*items => items@));
            lemma_min_len_bounds(*subfork, path.push(c));
            lemma_min_len_fits(*subfork);
        }
        p.write_fmt("case '");
        p.write_char(*case as char);
        p.write("': {");
        p.end_line();
        p.indent();
        print_fork(p, subfork, position + 1, known_length, Ghost(path.push(*case)));
        p.dedent();
        p.write_line("}");
        p.write_line("break;");
        proof {
            let pos = position as int;
            let known = known_length as int;
            assert(p.output() =~= out0 + (line(depth, "case '"@ + seq![c as char] + "': {"@)
                + fork_text(m[c], pos + 1, known, depth + 1) + line(depth, "}"@) + line(
                depth,
                "break;"@,
            )));
            assert(cases_text(*f, c as int, pos, known, depth) =~= line(
                depth,
                "case '"@ + seq![c as char] + "': {"@,
            ) + fork_text(m[c], pos + 1, known, depth + 1) + line(depth, "}"@) + line(
                depth,
                "break;"@,
            ) + cases_text(*f, c + 1, pos, known, depth));
            lemma_cases_gap(*f, c + 1, next_key(it.seq(), idx + 1), pos, known, depth);
        }
    }
}

/// The entries of a map's iterator, in increasing order of their keys,
/// are exactly the map's entries.
proof fn lemma_keys_cover<'a>(v: Seq<(&u8, &Fork<'a, usize>)>, m: Map<u8, Fork<'a, usize>>)
    requires
        forall|i: int| 0 <= i < v.len() ==> m.contains_key(*v[i].0) && m[*v[i].0] == *v[i].1,
        forall|k: u8| #[trigger] m.contains_key(k) ==> v.contains((&k, &m[k])),
    ensures
        forall|c: u8| #[trigger] m.contains_key(c) ==> exists|i: int| 0 <= i < v.len() && *v[i].0 == c,
{
    assert forall|c: u8| #[trigger] m.contains_key(c) implies exists|i: int|
        0 <= i < v.len() && *v[i].0 == c by {
        assert(v.contains((&c, &m[c])));
    }
}

/// The key of the `i`-th entry of `s`, or 256 past the end.
pub open spec fn next_key<'a>(s: Seq<(&u8, &Fork<'a, usize>)>, i: int) -> int {
    if 0 <= i < s.len() {
        *s[i].0 as int
    } else {
        256
    }
}

/// The entries of a map's iterator come in increasing order of their keys.
proof fn lemma_entries_increasing<'a>(v: Seq<(&u8, &Fork<'a, usize>)>)
    requires
        vstd::std_specs::btree::key_obeys_cmp_spec::<u8>() ==> vstd::std_specs::btree::increasing_seq(
            v.map_values(|kv: (&u8, &Fork<'a, usize>)| *kv.0),
        ),
    ensures
        forall|i: int, j: int| 0 <= i < j < v.len() ==> *v[i].0 < *v[j].0,
{
    assert(vstd::laws_cmp::obeys_cmp::<u8>());
    assert(vstd::std_specs::btree::key_obeys_cmp_spec::<u8>());
    let keys = v.map_values(|kv: (&u8, &Fork<'a, usize>)| *kv.0);
    assert forall|i: int, j: int| 0 <= i < j < v.len() implies *v[i].0 < *v[j].0 by {
        assert(vstd::std_specs::cmp::OrdSpec::cmp_spec(&keys[i], &keys[j]) is Less);
    }
}

/// Before the iteration over the entries `v` of a `Chaotic` fork starts,
/// the cases below the first key print nothing.
proof fn lemma_iter_start<'a>(
    f: Fork<'a, usize>,
    v: Seq<(&u8, &Fork<'a, usize>)>,
    position: int,
    known: int,
    depth: nat,
)
    requires
        f matches Fork::Chaotic { items, .. } && {
            &&& vstd::std_specs::btree::key_obeys_cmp_spec::<u8>() ==> vstd::std_specs::btree::increasing_seq(
                v.map_values(|kv: (&u8, &Fork<'a, usize>)| *kv.0),
            )
            &&& forall|i: int|
                0 <= i < v.len() ==> items@.contains_key(*v[i].0) && items@[*v[i].0] == *v[i].1
            &&& forall|k: u8| #[trigger] items@.contains_key(k) ==> v.contains((&k, &items@[k]))
        },
    ensures
        forall|i: int, j: int| 0 <= i < j < v.len() ==> *v[i].0 < *v[j].0,
        f matches Fork::Chaotic { items, .. } && forall|c: u8| #[trigger]
            items@.contains_key(c) ==> exists|i: int| 0 <= i < v.len() && *v[i].0 == c,
        cases_text(f, 0, position, known, depth) == cases_text(f, next_key(v, 0), position, known, depth),
{
    if let Fork::Chaotic { items, .. } = f {
        lemma_entries_increasing(v);
        lemma_keys_cover(v, items@);
        lemma_cases_gap(f, 0, next_key(v, 0), position, known, depth);
    }
}

/// The text of the `getDataIndex` function for the keys in `f`, printed at indentation `depth`.
pub open spec fn key_matcher_text<'a>(f: Fork<'a, usize>, depth: nat) -> Seq<char> {
    line(depth, "int getDataIndex(const QLatin1String &name) {"@) + line(
        depth + 1,
        "auto size = name.size();"@,
    ) + line(depth + 1, "auto data = name.data();"@) + fork_text(f, 0, 0, depth + 1) + line(
        depth + 1,
        "return -1;"@,
    ) + line(depth, "}"@)
}

/// `s` occurs somewhere in `t`.
pub open spec fn contains_text(t: Seq<char>, s: Seq<char>) -> bool {
    exists|i: int| 0 <= i && i + s.len() <= t.len() && #[trigger] t.subrange(i, i + s.len()) == s
}

proof fn lemma_contains_left(t: Seq<char>, b: Seq<char>, s: Seq<char>)
    requires
        contains_text(t, s),
    ensures
        contains_text(t + b, s),
{
    let i = choose|i: int| 0 <= i && i + s.len() <= t.len() && #[trigger] t.subrange(i, i + s.len()) == s;
    assert((t + b).subrange(i, i + s.len()) =~= t.subrange(i, i + s.len()));
}

proof fn lemma_contains_right(a: Seq<char>, t: Seq<char>, s: Seq<char>)
    requires
        contains_text(t, s),
    ensures
        contains_text(a + t, s),
{
    let i = choose|i: int| 0 <= i && i + s.len() <= t.len() && #[trigger] t.subrange(i, i + s.len()) == s;
    let j = i + a.len();
    assert((a + t).subrange(j, j + s.len()) =~= t.subrange(i, i + s.len()));
}

proof fn lemma_line_contains(depth: nat, h: Seq<char>)
    ensures
        contains_text(line(depth, h), h),
{
    let t = line(depth, h);
    assert(t.subrange(depth as int, (depth + h.len()) as int) =~= h);
}

/// `g` is the fork that the key bytes `path` lead to from `f`: each `Run`
/// on the way matches the next bytes of `path` with its prefix, each
/// `Chaotic` the next byte with one of its children, and an `Empty` passes
/// on to the fork after it.
pub open spec fn reaches<'a, V>(f: Fork<'a, V>, path: Seq<u8>, g: Fork<'a, V>) -> bool
    decreases f,
{
    (path.len() == 0 && f == g) || match f {
        Fork::Run { prefix, remaining, .. } => prefix@.len() <= path.len() && path.take(
            prefix@.len() as int,
        ) == prefix@ && reaches(*remaining, path.skip(prefix@.len() as int), g),
        Fork::Chaotic { items, .. } => path.len() > 0 && items@.contains_key(path[0]) && {
            &&& decreases_to!(items => items@)
            &&& reaches(items@[path[0]], path.drop_first(), g)
        },
        Fork::Empty { remaining, .. } => reaches(*remaining, path, g),
        _ => false,
    }
}

/// The fork that the bytes `path` lead to answers for the keys that go on
/// from `path`: a non-empty rest `k` has in `g` the value that `path + k`
/// has in `f`.
pub proof fn lemma_reaches_lookup<'a, V>(f: Fork<'a, V>, path: Seq<u8>, g: Fork<'a, V>, k: Seq<u8>)
    requires
        reaches(f, path, g),
        k.len() > 0,
    ensures
        f.lookup(path + k) == g.lookup(k),
    decreases f,
{
    if path.len() == 0 && f == g {
        assert(path + k =~= k);
    } else {
        match f {
            Fork::Run { prefix, remaining, .. } => {
                let n = prefix@.len() as int;
                lemma_reaches_lookup(*remaining, path.skip(n), g, k);
                assert((path + k).take(n) =~= path.take(n));
                assert(prefix@.is_prefix_of(path + k));
                assert((path + k).skip(n) =~= path.skip(n) + k);
            },
            Fork::Chaotic { items, .. } => {
                assert(decreases_to!(items => items@));
                lemma_reaches_lookup(items@[path[0]], path.drop_first(), g, k);
                assert((path + k)[0] == path[0]);
                assert((path + k).drop_first() =~= path.drop_first() + k);
            },
            Fork::Empty { remaining, .. } => {
                lemma_reaches_lookup(*remaining, path, g, k);
            },
            _ => {},
        }
    }
}

/// The test that the printed code makes first at a fork `g` that it reaches
/// with `position` bytes of the key matched: a `Run` compares the key's
/// bytes from `position` on with its prefix, a `Chaotic` switches on the
/// key's byte at `position`, an `Empty` returns its value where the key
/// ends there, and an `End` compares the size and the rest of the key.
pub open spec fn head_text<'a>(g: Fork<'a, usize>, position: nat) -> Seq<char> {
    match g {
        Fork::Run { prefix, .. } => "if (std::memcmp(data + "@ + decimal(position) + ", \""@ + decode_utf8(
            prefix@,
        ) + "\", "@ + decimal(prefix@.len()) + ") == 0) {"@,
        Fork::Chaotic { .. } => "switch (data["@ + decimal(position) + "]) {"@,
        Fork::Empty { total_prefix, value, .. } => "if (size == "@ + decimal(total_prefix@.len())
            + ") return "@ + decimal(value as nat) + ";"@,
        Fork::End { prefix, total_prefix, value } => end_text(
            prefix@,
            total_prefix@.len(),
            position as int,
            value,
        ),
        Fork::Nil => Seq::empty(),
    }
}

proof fn lemma_fork_text_heads<'a>(
    f: Fork<'a, usize>,
    path: Seq<u8>,
    g: Fork<'a, usize>,
    position: int,
    known: int,
    depth: nat,
)
    requires
        reaches(f, path, g),
        position >= 0,
    ensures
        contains_text(fork_text(f, position, known, depth), head_text(g, (position + path.len()) as nat)),
    decreases f, 300int,
{
    if known < f.min_len() {
        lemma_fork_body_heads(f, path, g, position, f.min_len() as int, depth + 1);
        let h = line(depth, "if (size >= "@ + decimal(f.min_len()) + ") {"@);
        let body = fork_body(f, position, f.min_len() as int, depth + 1);
        let target = head_text(g, (position + path.len()) as nat);
        lemma_contains_right(h, body, target);
        lemma_contains_left(h + body, line(depth, "}"@), target);
    } else {
        lemma_fork_body_heads(f, path, g, position, known, depth);
    }
}

proof fn lemma_fork_body_heads<'a>(
    f: Fork<'a, usize>,
    path: Seq<u8>,
    g: Fork<'a, usize>,
    position: int,
    known: int,
    depth: nat,
)
    requires
        reaches(f, path, g),
        position >= 0,
    ensures
        contains_text(fork_body(f, position, known, depth), head_text(g, (position + path.len()) as nat)),
    decreases f, 299int,
{
    let target = head_text(g, (position + path.len()) as nat);
    if path.len() == 0 && f == g {
        assert((position + path.len()) as nat == position as nat);
        let first = line(depth, target);
        lemma_line_contains(depth, target);
        match f {
            Fork::Run { prefix, remaining, .. } => {
                let rest = fork_text(*remaining, position + prefix@.len(), known, depth + 1);
                lemma_contains_left(first, rest, target);
                lemma_contains_left(first + rest, line(depth, "}"@), target);
            },
            Fork::Chaotic { .. } => {
                let rest = cases_text(f, 0, position, known, depth);
                lemma_contains_left(first, rest, target);
                lemma_contains_left(first + rest, line(depth, "}"@), target);
            },
            Fork::Empty { remaining, .. } => {
                lemma_contains_left(first, fork_text(*remaining, position, known, depth), target);
            },
            Fork::End { prefix, total_prefix, value } => {
                assert(target == end_text(prefix@, total_prefix@.len(), position, value));
                assert(fork_body(f, position, known, depth) == first);
            },
            Fork::Nil => {
                assert(target.len() == 0);
                let t = fork_body(f, position, known, depth);
                assert(t.subrange(0, 0 + target.len() as int) =~= target);
            },
        }
    } else {
        match f {
            Fork::Run { prefix, remaining, .. } => {
                let n = prefix@.len() as int;
                lemma_fork_text_heads(*remaining, path.skip(n), g, position + n, known, depth + 1);
                assert(position + n + path.skip(n).len() == position + path.len());
                let first = line(
                    depth,
                    "if (std::memcmp(data + "@ + decimal(position as nat) + ", \""@ + decode_utf8(prefix@)
                        + "\", "@ + decimal(prefix@.len()) + ") == 0) {"@,
                );
                let rest = fork_text(*remaining, position + n, known, depth + 1);
                lemma_contains_right(first, rest, target);
                lemma_contains_left(first + rest, line(depth, "}"@), target);
            },
            Fork::Chaotic { items, .. } => {
                lemma_cases_heads(f, 0, path, g, position, known, depth);
                let first = line(depth, "switch (data["@ + decimal(position as nat) + "]) {"@);
                let rest = cases_text(f, 0, position, known, depth);
                lemma_contains_right(first, rest, target);
                lemma_contains_left(first + rest, line(depth, "}"@), target);
            },
            Fork::Empty { total_prefix, value, remaining } => {
                lemma_fork_text_heads(*remaining, path, g, position, known, depth);
                let first = line(
                    depth,
                    "if (size == "@ + decimal(total_prefix@.len()) + ") return "@ + decimal(value as nat)
                        + ";"@,
                );
                lemma_contains_right(first, fork_text(*remaining, position, known, depth), target);
            },
            _ => {},
        }
    }
}

proof fn lemma_cases_heads<'a>(
    f: Fork<'a, usize>,
    from: int,
    path: Seq<u8>,
    g: Fork<'a, usize>,
    position: int,
    known: int,
    depth: nat,
)
    requires
        f is Chaotic,
        reaches(f, path, g),
        path.len() > 0,
        0 <= from <= path[0],
        position >= 0,
    ensures
        contains_text(cases_text(f, from, position, known, depth), head_text(g, (position + path.len()) as nat)),
    decreases f, 256 - from,
{
    let target = head_text(g, (position + path.len()) as nat);
    if let Fork::Chaotic { items, .. } = f {
        let rest = cases_text(f, from + 1, position, known, depth);
        if from < path[0] {
            lemma_cases_heads(f, from + 1, path, g, position, known, depth);
            if items@.contains_key(from as u8) {
                let block = line(depth, "case '"@ + seq![(from as u8) as char] + "': {"@) + fork_text(
                    items@[from as u8],
                    position + 1,
                    known,
                    depth + 1,
                ) + line(depth, "}"@) + line(depth, "break;"@);
                lemma_contains_right(block, rest, target);
            }
        } else {
            let b = path[0];
            assert(from as u8 == b);
            assert(decreases_to!(items => items@));
            lemma_fork_text_heads(items@[b], path.drop_first(), g, position + 1, known, depth + 1);
            let first = line(depth, "case '"@ + seq![(from as u8) as char] + "': {"@);
            let inner = fork_text(items@[b], position + 1, known, depth + 1);
            lemma_contains_right(first, inner, target);
            lemma_contains_left(first + inner, line(depth, "}"@), target);
            lemma_contains_left(first + inner + line(depth, "}"@), line(depth, "break;"@), target);
            lemma_contains_left(first + inner + line(depth, "}"@) + line(depth, "break;"@), rest, target);
        }
    }
}

/// Wherever the key bytes `path` lead from `f` to a fork `g`, the printed
/// `getDataIndex` tests `g` at the key's offset `path.len()`: a `Chaotic`
/// fork reached after `path` prints `switch (data[path.len()]) {`, a `Run`
/// compares the key's bytes from `path.len()` on with its prefix, and an
/// `End` compares the key from `path.len()` on.
pub proof fn lemma_key_matcher_heads<'a>(f: Fork<'a, usize>, path: Seq<u8>, g: Fork<'a, usize>, depth: nat)
    requires
        reaches(f, path, g),
    ensures
        contains_text(key_matcher_text(f, depth), head_text(g, path.len())),
{
    let target = head_text(g, path.len());
    lemma_fork_text_heads(f, path, g, 0, 0, depth + 1);
    let a = line(depth, "int getDataIndex(const QLatin1String &name) {"@) + line(
        depth + 1,
        "auto size = name.size();"@,
    ) + line(depth + 1, "auto data = name.data();"@);
    let t = fork_text(f, 0, 0, depth + 1);
    lemma_contains_right(a, t, target);
    lemma_contains_left(a + t, line(depth + 1, "return -1;"@), target);
    lemma_contains_left(a + t + line(depth + 1, "return -1;"@), line(depth, "}"@), target);
}

/// Prints a C++ function `getDataIndex` that returns the value stored for
/// its argument in `f`, or `-1`.
pub fn print_key_matcher<'a>(p: &mut Printer, f: &Fork<'a, usize>)
    requires
        f.well_formed(),
        utf8_prefixes(*f),
        old(p).depth() < usize::MAX,
        depth_fits(*f, usize::MAX - old(p).depth() - 1),
    ensures
        final(p).depth() == old(p).depth(),
        final(p).output() == old(p).output() + key_matcher_text(*f, old(p).depth()),
{
    let ghost start = p.output();
    let ghost depth = p.depth();
    p.write_line("int getDataIndex(const QLatin1String &name) {");
    p.indent();
    p.write_line("auto size = name.size();");
    p.write_line("auto data = name.data();");

    print_fork(p, f, 0, 0, Ghost(Seq::empty()));

    p.write_line("return -1;");

    p.dedent();
    p.write_line("}");
    assert(p.output() =~= start + key_matcher_text(*f, depth));
}
} // verus!
