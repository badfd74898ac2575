//! Gee, a small terminal text editor: the verified core.
//!
//! `syntax` holds the grammar model used for highlighting, `stack` the
//! hash-consed context stacks, `regex` the matcher the highlighter calls,
//! `highlight` the highlighting of one line and `cache` the per-line
//! highlighting caches. `text`, `color` and `hl` build the escapes and paint
//! a line; `lines` reads and saves the text of a file. `editor` and `keys`
//! are the editing state machine, `screen` scrolls and composes the screen,
//! `session` opens a view and runs one step of the key loop, and
//! `invariants` states what every key press keeps.

pub mod syntax;
pub mod stack;
pub mod text;
pub mod color;
pub mod hl;
pub mod lines;
pub mod editor;
pub mod keys;
pub mod regex;
pub mod highlight;
pub mod cache;
pub mod screen;
pub mod invariants;
pub mod session;
