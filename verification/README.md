# risc

Risc is a small scripting language for gluing processes and transforming
streams: one compound type (the table), first-class functions, `try`/`catch`,
and the pipe operator `|>`.

This crate is its verified core, written in Verus:

- `src/` is the library, every function of it proved against its contract:
  text and source maps (`text`, `source`), errors and their reports
  (`error`), the lexer and the Pratt parser (`lexer`, `ast`, `parser`):
  every tree the parser returns follows the grammar rules of `ast` and spells
  exactly the tokens of its text, with a block only where the text has
  parentheses or as a body or branch, and on text made only of operands and
  binary operators it succeeds unless the text ends in an operator, in which
  case it reports that the input ended too early, and on simple functions,
  calls and tables it succeeds or reports a misordered parameter or argument
  list;
  scopes (`env`), argument
  binding (`call`), the
  string, UTF-8, regex and JSON primitives of the core library (`strings`,
  `utf8`, `regex`, `json`, `value`, `number`), module resolution to an
  absolute `.ri` file (`module`),
  the command line (`cli`) and the REPL's check of whether an input is
  ready to run (`repl`).
- `app/` is the `risc` program around it: argument parsing, the REPL loop,
  file, process and network access, and the tree-walking interpreter, whose
  values carry floating-point numbers.
- `tests/` exercises the library on concrete values.

Calls into regex-lite and into the standard library's path and UTF-8
functions stand behind small trusted wrappers in `src/`, each with the
contract that its documentation gives.
