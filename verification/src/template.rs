//! Templates: lexing, anchoring literals in rendered output, and writing edits back.

pub mod anchor;
pub mod lexer;
pub mod verify;
pub mod writeback;
