//! A conservative formatter for SQL text.
//!
//! It writes the rows of `INSERT ... VALUES` statements one to a line with
//! aligned columns, and lays out `CREATE TABLE`, `SELECT`, `UPDATE` and
//! `DELETE` statements, changing white space only where the text stands
//! outside every string literal and comment. Where a statement cannot be
//! taken apart without doubt, it is left as it is.
//!
//! - `scan`: the character-level state machine for strings, escapes,
//!   comments and parentheses.
//! - `segment`: rows and column values of a `VALUES` clause.
//! - `classify`: the kind of a value and of a column.
//! - `render`: column widths and the written table.
//! - `clause`: one `INSERT` statement, `format_clause`.
//! - `lists`, `statements`, `create`: the other statements.
//! - `locate`: the patterns that find statements, and byte offsets.
//! - `document`: whole documents.
//! - `laws`: what holds of the formatter for every input, with the longer
//!   proofs in `idempotence` and `preservation`; `contents`: the same for
//!   the layout of lists and of the other statements.

pub mod classify;
pub mod clause;
pub mod contents;
pub mod create;
pub mod document;
pub mod idempotence;
pub mod laws;
pub mod lists;
pub mod locate;
pub mod preservation;
pub mod render;
pub mod scan;
pub mod segment;
pub mod statements;
pub mod text;
