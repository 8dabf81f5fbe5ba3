# rsh

A small interactive shell whose logic is a Verus-verified library.

- `src/` — the verified library:
  - `parsing/` — the lexer (tokens of a command line), the command tree and
    the parser of `;`, `&&`, `||`, `|` and parentheses, each stated against a
    mathematical grammar (`parse_line`).
  - `builtins/` — `cd`, `alias` and `export`: what each decides, alias
    expansion (with a check that it ends) and variable substitution.
  - `exec/` — preparing a simple command (aliases, variables, command
    substitutions) and the executor: a state machine that, from the answers
    to the actions it asked for, says what to run, wait for or report next.
  - `input.rs`, `rsh.rs` — the prompt, scripts and the decisions of the main
    loop.
  - `table.rs`, `text.rs` — a name table and text operations.
  - `outside.rs` — the trusted wrappers around `regex`, `unescape`,
    `strip-ansi-escapes` and two `std` functions.
  - `laws.rs` — properties of the shell proved over the specifications.
- `app/` — the program: terminal, processes, files and the environment.
- `tests/` — tests of the library.
