//! Verified core of a terminal browser and editor for QOwnNotes-compatible
//! Markdown note folders: Markdown highlighting and link discovery, note
//! naming, QOwnNotes settings parsing, note search, sorting and path rules.

pub mod text;
pub mod styled;
pub mod theme;
pub mod markdown;
pub mod highlight;
pub mod path;
pub mod config;
pub mod notes;
pub mod app;
pub mod editor;
pub mod links;
pub mod history;
pub mod keys;
