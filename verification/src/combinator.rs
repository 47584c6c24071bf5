//! Building the dotted paths under which theme colors are stored.

use crate::text::{string_push, string_push_str};
use vstd::prelude::*;

verus! {

/// `c` with an ASCII upper-case letter mapped to its lower-case letter.
pub open spec fn ascii_lower(c: char) -> char {
    if 'A' <= c <= 'Z' {
        ((c as int) + 32) as char
    } else {
        c
    }
}

/// The path segment for a name: without `-` and `_`, in ASCII lower case.
pub open spec fn segment(name: Seq<char>) -> Seq<char>
    decreases name.len(),
{
    if name.len() == 0 {
        Seq::empty()
    } else {
        let c = name.last();
        let rest = segment(name.drop_last());
        if c == '-' || c == '_' {
            rest
        } else {
            rest.push(ascii_lower(c))
        }
    }
}

/// The path `prefix.suffix` (or just the suffix's segment for an empty prefix).
pub open spec fn spec_combine_path(prefix: Seq<char>, suffix: Seq<char>) -> Seq<char> {
    if prefix.len() == 0 {
        segment(suffix)
    } else {
        prefix.push('.') + segment(suffix)
    }
}

pub(crate) fn to_ascii_lowercase(c: char) -> (r: char)
    ensures
        r == ascii_lower(c),
{
    if 'A' <= c && c <= 'Z' {
        let b = c as u8;
        assert(b as int == c as int);
        ((b + 32) as char)
    } else {
        c
    }
}


/// Combines `prefix` and the name `suffix` into a dotted path: the suffix
/// loses its `-` and `_` and is lower-cased (ASCII only), and is appended
/// to `prefix` behind a `.` unless `prefix` is empty.
pub fn combine_path(prefix: &str, suffix: &str) -> (path: String)
    ensures
        path@ == spec_combine_path(prefix@, suffix@),
{
    let mut seg = String::new();
    for c in it: suffix.chars()
        invariant
            it.seq() == suffix@,
            seg@ == segment(it.seq().take(it.index())),
    {
        let ghost i = it.index();
        assert(it.seq().take(i + 1).drop_last() =~= it.seq().take(i));
        if c != '-' && c != '_' {
            string_push(&mut seg, to_ascii_lowercase(c));
        }
    }
    assert(suffix@.take(suffix@.len() as int) =~= suffix@);
    if prefix.is_empty() {
        return seg;
    }
    let mut path = prefix.to_owned();
    string_push(&mut path, '.');
    string_push_str(&mut path, seg.as_str());
    path
}
} // verus!
