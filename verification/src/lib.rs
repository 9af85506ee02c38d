//! Decoder and pretty-printer for the Erlang external term format.
//!
//! A byte buffer is decoded into a [`bertterm::BertTerm`] tree (atoms are
//! interned into a [`symtable::Symtable`], float payloads into a float table),
//! and the tree is rendered as indented text by [`bertterm::PrettyPrinter`].

pub mod bertterm;
pub mod error;
pub mod floatlit;
pub mod laws;
pub mod numtext;
pub mod parser;
pub mod symtable;
