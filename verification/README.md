# minitools

A small verified library with three parts, each proved with Verus:

* `tokenizer` and `parser`: a JSON tokenizer working on UTF-8 bytes and a
  recursive-descent parser over its tokens.  Number tokens keep their text;
  the program in `app/` reads them as floats.
* `linter` and `rules`: a line-based text linter with pluggable rules and
  fixers, and the four rules and the trailing-whitespace fixer of the linter
  program.
* `pool`: the decisions of a fixed-size worker pool (queue bound, worker
  loop).  The threads and channels live in `app/`.

`app/` holds the programs: `minitools json`, `minitools lint <file>`,
`minitools pool`.
