# cstylegen

Generates Chatterino theme files from CSS style sheets: a `.c2theme` file
(`theme` mode), and the C++ class `GeneratedTheme` (`code` mode) whose layout
comes from a `layout.yml` file.

The library under `src/` is verified with Verus:

- `combinator`: the dotted paths under which colors are stored.
- `helper::fork`: a radix trie of byte-string keys.
- `layout`: the layout read from YAML, its item counts and its flattening.
- `model`: the theme and its flattening into one color per path.
- `parse::parsers`: the decisions of the style-sheet reader.
- `errors`: the text of error reports.
- `printer`: a line printer and the generators of the output files.

`app/` holds the command line program: argument handling, file I/O, the
YAML deserialization and the CSS parser's trait impls, which hand their
results to the library.

How collections are held:

- A block of declarations is a vector of `(name, rule)` pairs with distinct
  names. A rule type that holds itself through the `ahash` map is refused by
  Verus, and behind an opaque wrapper its flattening would have no measure
  to terminate on.
- The layout's definitions and top-level structs, keyed by `&str`, are
  vectors kept sorted by the names' bytes; Verus proves little of maps keyed
  by strings. The fields of a struct keep the order of the YAML file.
- Theme colors stay in an `ahash` map, behind a few trusted wrappers.
