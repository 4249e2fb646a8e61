# tenu

Command-line argument handling, verified with Verus.

- `builder`: null-terminated raw arguments (`Arg`) and a cursor over them (`Args`).
- `parse`: `FlatCursor`, a character cursor over a list of strings, and `lex`, a
  lexer that turns arguments into option, value and error tokens one call at a time.
- `tenu_parser`: a getopt-style parser with a `--` terminator.
- `rncp`: an argument builder that finds a named argument and parses its value,
  argument lists split at white space, and the error types.
- `text`: string helpers and their specifications.

`app/` holds what touches raw process memory (building arguments from `argv`),
the program entry macro, and `Display` for the error types.
