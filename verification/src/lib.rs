//! A small, strict parser for a restricted markup language: nested tags with
//! attributes and runs of text, turned into a tree of nodes.
//!
//! The parser is ASCII-oriented. Delimiters and identifiers are ASCII bytes;
//! any other content is carried through as the UTF-8 text it was.

pub mod html;
