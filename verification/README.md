# uconsyn

Unobtrusive construct syntax: a reader for the `ucon` notation of construct
assertions and a writer of the CLIPS code they stand for, verified with Verus.

A `ucon` document is a list of assertions (`class name: value ...`) and
duplications (`+ @class name: value ...`). Values are symbols (`'name`),
strings (`"..."`, `<'...'>`, `"""..."""`), lists (`[ ... ]`), nested
assertions, references (`@name`), bindings (`=name value scope`) and muted
values (`| value`); `=> value` is short for the attribute `is: value`.

## Layout

- `src/ast.rs`: the syntax tree and its mathematical model.
- `src/outcome.rs`: what a rule gives (`Outcome`) and what a parser returns
  (`ParseResult`).
- `src/lexer.rs`: byte classes, runs, tags, quoted bodies and UTF-8 text.
- `src/grammar.rs`: the grammar as spec functions over byte sequences.
- `src/parser.rs`: the parsers, each proved to agree with its rule.
- `src/clips.rs`: the writer, proved to emit the bytes its model names.
- `src/laws.rs`, `src/locality.rs`: properties that hold for every input
  (where each rule stops, what is written back as read, that a rule depends
  only on the bytes from its position on, and the `=>` shortcut).
- `app/main.rs`: the command line program (file I/O and arguments).
- `tests/`: scenarios run against the compiled library.
