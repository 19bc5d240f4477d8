//! A verified core for a personal note-management engine.
//!
//! Notes are persisted one per file: a delimited metadata block (id, title,
//! tags, timestamps) followed by a markdown body.  This crate holds the
//! logic with real invariants: the text codec, identifier and file-name
//! derivation, the in-memory store with its save/delete transitions, and
//! the derived queries (ordering, tag counts, backlinks).  File-system and
//! clock access happen outside; the store states what must hold of every
//! outcome it is handed.

pub mod clock;
pub mod codec;
pub mod draft;
pub mod naming;
pub mod query;
pub mod store;
pub mod text;
