//! Interactive query editor core: a lexer and recursive-descent parser for
//! JSON-like documents, a highlighting viewport, and the bookkeeping for one
//! in-flight background query job.

pub mod tokens;
pub mod json;
pub mod jq;
pub mod scroll_text;
pub mod app;
pub mod line_editor;
pub mod cli;
