//! A place-name catalog: records are loaded from a tab-separated gazetteer,
//! indexed by every searchable name (primary, ASCII and aliases, lowercased)
//! in a compact sorted automaton, and served through prefix search and
//! identifier lookup.

pub mod automaton;
pub mod order;
pub mod table;
pub mod text;
pub mod catalog;
pub mod clocks;
pub mod loader;
