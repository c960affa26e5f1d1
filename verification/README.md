# fastbrackets

Bracket highlighting for the zsh line editor, as a zsh module builtin
(`fastbrackets <size>,<cursor>,<widget>,<buffer>`), with its logic verified
in Verus.

The buffer is scanned once from left to right. Each opening bracket takes
the next nesting level and each closing bracket closes the innermost open
one; the two are partners when their kinds agree (`()`, `[]`, `{}`). A
closing bracket with nothing open is remembered as debt, which the next
opening bracket pays off instead of opening a level. Matched brackets are
highlighted with the style of their level (the level styles are used in
turn), unmatched ones with the error style, and the partner of the bracket
under the cursor with the cursor style, except when the line is being
finished. The styles come from the `ZSH_HIGHLIGHT_STYLES` entries
`bracket-error`, `cursor-matchingbracket` and `bracket-level-<n>`.

Layout:

- `src/text.rs`: characters of a string, prefixes, decimal `usize` parsing.
- `src/styles.rs`: reading the style entries.
- `src/brackets.rs`: the scan, the highlights, and the laws they obey
  (symmetric matching, levels, nesting, one highlight per bracket).
- `src/args.rs`: the builtin's argument string.
- `app/lib.rs`: the zsh module itself: entry points, the builtin, and the
  reading and writing of zsh parameters.
- `tests/`: tests of the library.
