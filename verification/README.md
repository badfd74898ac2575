# gee

Gee ("good enough Emacs") is a small terminal text editor with Emacs key
bindings and scope-based syntax highlighting. This crate holds its core as a
library whose behaviour is stated in contracts and proved with Verus; the
terminal front end lives in `app/`.

## Layout

- `src/syntax.rs`: the grammar model (syntaxes, contexts, rules) and the
  rules that apply in a context.
- `src/stack.rs`: hash-consed context stacks.
- `src/regex.rs`: the regular-expression matcher behind highlighting and
  the conversions between character and byte positions.
- `src/highlight.rs`: highlighting of one line into scope runs.
- `src/cache.rs`: the per-line highlighting caches and re-highlighting of
  dirty lines.
- `src/hl.rs`, `src/color.rs`: scope colours and the painting of a line.
- `src/editor.rs`, `src/keys.rs`: the editing model and what each key does.
- `src/lines.rs`: reading and saving the text of a file.
- `src/screen.rs`: scrolling and the composition of the screen.
- `src/session.rs`: opening a view and one step of the key loop.
- `src/invariants.rs`: what every key press keeps.
- `app/main.rs`: terminal input and output, file access.
