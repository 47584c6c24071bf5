//! Prints a `.c2theme` file: the metadata of a flat theme and one line per
//! color, the color written as `#aarrggbb`.

use crate::model::{color_entries, color_map_entries, lists_colors, ChatterinoMeta, FlatTheme, Rgba};
use crate::printer::{line, Printer};
use vstd::prelude::*;

verus! {

/// The lower-case hexadecimal digit for `d` (below 16).
pub open spec fn hex_digit(d: nat) -> char {
    if d < 10 {
        ((d as int) + 48) as char
    } else {
        ((d as int) + 87) as char
    }
}

/// The two lower-case hexadecimal digits of `b`.
pub open spec fn hex_byte(b: u8) -> Seq<char> {
    seq![hex_digit((b / 16) as nat), hex_digit((b % 16) as nat)]
}

/// The line of one color: its name, `=#` and the color as `aarrggbb`.
pub open spec fn color_line(name: Seq<char>, c: Rgba, depth: nat) -> Seq<char> {
    line(
        depth,
        name + "=#"@ + hex_byte(c.alpha) + hex_byte(c.red) + hex_byte(c.green) + hex_byte(c.blue),
    )
}

/// The lines of the colors `entries`, in order.
pub open spec fn colors_text(entries: Seq<(String, Rgba)>, depth: nat) -> Seq<char>
    decreases entries.len(),
{
    if entries.len() == 0 {
        Seq::empty()
    } else {
        colors_text(entries.drop_last(), depth) + color_line(
            entries.last().0@,
            entries.last().1,
            depth,
        )
    }
}

/// The lines of two lists of colors, one after the other, are the lines of
/// the first list followed by those of the second.
pub proof fn lemma_colors_text_add(a: Seq<(String, Rgba)>, b: Seq<(String, Rgba)>, depth: nat)
    ensures
        colors_text(a + b, depth) == colors_text(a, depth) + colors_text(b, depth),
    decreases b.len(),
{
    if b.len() == 0 {
        assert(a + b =~= a);
        assert(colors_text(a, depth) + colors_text(b, depth) =~= colors_text(a, depth));
    } else {
        lemma_colors_text_add(a, b.drop_last(), depth);
        assert((a + b).drop_last() =~= a + b.drop_last());
        assert((a + b).last() == b.last());
        assert(colors_text(a + b, depth) =~= colors_text(a, depth) + colors_text(b, depth));
    }
}

/// Every listed color gets one line, in the order of the list: the line of
/// the `i`-th color stands after the lines of the colors before it and
/// before those of the colors after it.
pub proof fn lemma_colors_text_at(entries: Seq<(String, Rgba)>, depth: nat, i: int)
    requires
        0 <= i < entries.len(),
    ensures
        colors_text(entries, depth) == colors_text(entries.take(i), depth) + color_line(
            entries[i].0@,
            entries[i].1,
            depth,
        ) + colors_text(entries.skip(i + 1), depth),
{
    let one = seq![entries[i]];
    assert(entries =~= entries.take(i) + (one + entries.skip(i + 1)));
    lemma_colors_text_add(entries.take(i), one + entries.skip(i + 1), depth);
    lemma_colors_text_add(one, entries.skip(i + 1), depth);
    assert(one.drop_last() =~= Seq::<(String, Rgba)>::empty());
    assert(one.last() == entries[i]);
    assert(colors_text(one.drop_last(), depth) == Seq::<char>::empty());
    let mid = color_line(entries[i].0@, entries[i].1, depth);
    assert(colors_text(one, depth) =~= mid);
    assert(colors_text(entries, depth) =~= colors_text(entries.take(i), depth) + mid + colors_text(
        entries.skip(i + 1),
        depth,
    ));
}

/// The whole theme file for `meta` and the colors `entries`, printed at
/// indentation `depth`.
pub open spec fn theme_text(meta: ChatterinoMeta, entries: Seq<(String, Rgba)>, depth: nat) -> Seq<
    char,
> {
    line(depth, "@meta"@) + line(depth, "author="@ + meta.author@) + line(
        depth,
        "iconset="@ + meta.icon_set@,
    ) + line(depth, "@colors"@) + colors_text(entries, depth)
}

/// The value of a lower-case hexadecimal digit, or -1 for any other character.
pub open spec fn hex_value(c: char) -> int {
    if '0' <= c && c <= '9' {
        (c as int) - ('0' as int)
    } else if 'a' <= c && c <= 'f' {
        (c as int) - ('a' as int) + 10
    } else {
        -1
    }
}

/// The number that the two hexadecimal digits at `i` and `i + 1` of `s` write.
pub open spec fn hex_pair(s: Seq<char>, i: int) -> int {
    hex_value(s[i]) * 16 + hex_value(s[i + 1])
}

/// The two digits printed for a byte are lower-case hexadecimal digits that
/// read back as the byte.
pub proof fn lemma_hex_byte_reads_back(b: u8)
    ensures
        hex_byte(b).len() == 2,
        0 <= hex_value(hex_byte(b)[0]) < 16,
        0 <= hex_value(hex_byte(b)[1]) < 16,
        hex_pair(hex_byte(b), 0) == b,
{
    let hi = (b / 16) as nat;
    let lo = (b % 16) as nat;
    assert(b == 16 * hi + lo);
    lemma_hex_digit_value(hi);
    lemma_hex_digit_value(lo);
}

proof fn lemma_hex_digit_value(d: nat)
    requires
        d < 16,
    ensures
        hex_value(hex_digit(d)) == d,
{
    if d < 10 {
        assert(((d as int) + 48) as char as int == (d as int) + 48);
    } else {
        assert(((d as int) + 87) as char as int == (d as int) + 87);
    }
}

/// The line of a color holds, after the indentation, the name, `=#`, and
/// then the alpha, red, green and blue components, each as two hexadecimal
/// digits that read back as the component.
pub proof fn lemma_color_line_reads_back(name: Seq<char>, c: Rgba, depth: nat)
    ensures
        ({
            let s = color_line(name, c, depth);
            let n = (depth + name.len()) as int;
            let o = n + 2;
            &&& s.len() == o + 9
            &&& s.subrange(depth as int, n) == name
            &&& s.subrange(n, o) == "=#"@
            &&& hex_pair(s, o) == c.alpha
            &&& hex_pair(s, o + 2) == c.red
            &&& hex_pair(s, o + 4) == c.green
            &&& hex_pair(s, o + 6) == c.blue
            &&& s[o + 8] == '\n'
        }),
{
    reveal_strlit("=#");
    let s = color_line(name, c, depth);
    let n = (depth + name.len()) as int;
    let o = n + 2;
    lemma_hex_byte_reads_back(c.alpha);
    lemma_hex_byte_reads_back(c.red);
    lemma_hex_byte_reads_back(c.green);
    lemma_hex_byte_reads_back(c.blue);
    let t = crate::printer::tabs(depth) + (name + "=#"@ + hex_byte(c.alpha) + hex_byte(c.red)
        + hex_byte(c.green) + hex_byte(c.blue)) + seq!['\n'];
    assert(s == t);
    assert(s.subrange(depth as int, n) =~= name);
    assert(s.subrange(n, o) =~= "=#"@);
    assert(s[o] == hex_byte(c.alpha)[0] && s[o + 1] == hex_byte(c.alpha)[1]);
    assert(s[o + 2] == hex_byte(c.red)[0] && s[o + 3] == hex_byte(c.red)[1]);
    assert(s[o + 4] == hex_byte(c.green)[0] && s[o + 5] == hex_byte(c.green)[1]);
    assert(s[o + 6] == hex_byte(c.blue)[0] && s[o + 7] == hex_byte(c.blue)[1]);
}

fn hex_char(d: u8) -> (c: char)
    requires
        d < 16,
    ensures
        c == hex_digit(d as nat),
{
    if d < 10 {
        (d + 48) as char
    } else {
        (d + 87) as char
    }
}

fn write_hex_byte(p: &mut Printer, b: u8)
    ensures
        final(p).depth() == old(p).depth(),
        final(p).output() == old(p).output() + hex_byte(b),
{
    p.write_char(hex_char(b / 16));
    p.write_char(hex_char(b % 16));
    assert(p.output() =~= old(p).output() + hex_byte(b));
}

/// Prints the theme file for `meta` with the colors `entries`, in the
/// order in which they are listed.
pub fn generate_listed(p: &mut Printer, meta: &ChatterinoMeta, entries: &Vec<(String, Rgba)>)
    ensures
        final(p).depth() == old(p).depth(),
        final(p).output() == old(p).output() + theme_text(*meta, entries@, old(p).depth()),
{
    let ghost depth = p.depth();
    p.write_line("@meta");
    p.write_fmt("author=");
    p.write(meta.author.as_str());
    p.end_line();
    p.write_fmt("iconset=");
    p.write(meta.icon_set.as_str());
    p.end_line();
    p.write_line("@colors");
    let ghost head = p.output();
    assert(head =~= old(p).output() + line(depth, "@meta"@) + line(depth, "author="@ + meta.author@)
        + line(depth, "iconset="@ + meta.icon_set@) + line(depth, "@colors"@));
    let mut k: usize = 0;
    while k < entries.len()
        invariant
            k <= entries@.len(),
            p.depth() == depth,
            p.output() == head + colors_text(entries@.take(k as int), depth),
        decreases entries@.len() - k,
    {
        let (name, color) = &entries[k];
        let ghost before = p.output();
        p.write_fmt(name.as_str());
        p.write("=#");
        write_hex_byte(p, color.alpha);
        write_hex_byte(p, color.red);
        write_hex_byte(p, color.green);
        write_hex_byte(p, color.blue);
        p.end_line();
        proof {
            assert(entries@.take(k + 1).drop_last() =~= entries@.take(k as int));
            assert(entries@.take(k + 1).last() == entries@[k as int]);
            assert(p.output() =~= before + color_line(name@, *color, depth));
        }
        k = k + 1;
    }
    assert(entries@.take(k as int) =~= entries@);
}

/// Prints the theme file of `theme`: its metadata, then every color of the
/// theme once, in the order of the theme's map.
pub fn generate(p: &mut Printer, theme: &FlatTheme)
    ensures
        final(p).depth() == old(p).depth(),
        exists|entries: Seq<(String, Rgba)>|
            lists_colors(entries, color_entries(theme.rules)) && final(p).output() == old(p).output()
                + theme_text(theme.meta, entries, old(p).depth()),
{
    let entries = color_map_entries(&theme.rules);
    generate_listed(p, &theme.meta, &entries);
    assert(lists_colors(entries@, color_entries(theme.rules)));
}

} // verus!
