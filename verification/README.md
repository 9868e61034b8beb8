# tcl_lsp

The core of a language server for **Tcl** and **Tk**, verified with Verus.

Tcl has no grammar apart from its parser: quoting, brace nesting, backslash continuation
and substitution are what the parser makes of them. `src/grammar.rs` states those rules as
functions from bytes to tokens, and `src/parser.rs` is proved to compute them. Everything
else is built on top: outlines, the workspace index, completion, hover, signatures,
semantic tokens and the rest, each with a contract that says what comes out.

| Module | What it holds |
|---|---|
| `grammar`, `placement`, `characters`, `limits`, `parser`, `script`, `token`, `words` | commands, words and tokens |
| `outline`, `walker`, `findings`, `nesting` | what a file defines, uses and binds |
| `line_index`, `document` | positions in UTF-8 and UTF-16, and edits |
| `index`, `uri` | the files of a workspace |
| `selection`, `cursor`, `semantic` | what stands at or around a position |
| `kb`, `manpage`, `database` | the builtin commands, from man pages |
| `config`, `external`, `transport` | settings, external analysers, framing |
| `lsp`, `server` | the state of the server and its answers |
| `text` | characters, lines, words and numbers |

`app/` is the program around it: stdin and stdout, files, subprocesses, and the protocol's
types. `tcl-lsp cmddb` generates the database of builtins from the man pages of a Tcl/Tk
build; the server reads it from `TCL_LSP_DATA`.

`extras/expected_tokens.py` prints what an installed libtcl makes of a command, in the form
of the expected values in `tests/tokens.rs`.
