//! Lexical link resolution, percent-encoding and rendering decisions for a
//! lightweight Markdown viewer.

mod text;
pub mod winpath;
pub mod percent;
pub mod links;
pub mod markdown;
pub mod document;
pub mod commands;
pub mod watch;
pub mod normal_form;
pub mod path_laws;
