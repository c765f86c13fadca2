//! Core engine of a modal, multi-cursor text editor.
//!
//! The crate owns the representation of what a document contains, where the
//! cursors and selections are, how edits are described, composed and
//! inverted, and how committed edits are undone and redone.  Text is held as
//! a sequence of characters; positions are absolute character offsets.

pub mod changeset;
pub mod commands;
pub mod document;
pub mod prompt;
pub mod error;
pub mod graphemes;
pub mod history;
pub mod insert;
pub mod movement;
pub mod selection;
pub mod state;
pub mod text;
pub mod transaction;
