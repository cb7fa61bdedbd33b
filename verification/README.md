# randstr

A regex-based random string generator: given a pattern, it prints a random
string that the pattern matches.

```sh
randstr 'blob(-[\p{AHex}&&[^[:lower:]]]{8,16}){3}'
```

The pattern syntax is that of the Rust `regex` crate, with Unicode property
classes such as `\p{AHex}`, `\p{Greek}`, `\p{sc=Greek}` and `\pL`.  Unbounded
repetitions (`*`, `+`) repeat at most 255 times, `{n,}` at most `max(n, 255)`
times, `.` draws a printable ASCII character, and a negated class is
complemented within ASCII unless that leaves nothing, in which case within all
of Unicode; inside a class set operation (`&&`, `--`, `~~`) and under a
negated class, negation is taken within all of Unicode, so that the operation
gives the set it names.  Surrogate code points are never drawn.

## Layout

- `src/` is the library, verified with Verus:
  - `parse.rs` parses a pattern with `regex-syntax` and reads its syntax tree
    into the library's own tree (`pattern.rs`);
  - `range_spec.rs`, `range_walks.rs` and `ranges.rs` hold the range algebra
    (merging, complement, intersection, difference, symmetric difference) with
    its specifications, and `laws.rs` what it means on sets of characters;
  - `class.rs` computes the ranges of a character class, `ucd.rs` looks up
    Unicode properties in tables handed to it;
  - `generate.rs` draws the string; its contract says that the string is in
    the language of the library's tree for the pattern (`pattern.rs`), and
    `from_regex` says that this tree is `parsed_node(pattern)`: the tree that
    `regex-syntax` gives for the pattern, read part for part.  The reading is
    verified to terminate; what `parsed_node` is, as a function of the
    pattern, is named and not spelled out.
- `app/` is the command-line program: arguments, the Unicode tables (filled
  from the data `regex-syntax` carries), and printing.
- `tests/` exercises the library on concrete values.
