//! Extraction of human-readable text from markup-bearing component sources.
//!
//! The crate models a parsed source file as a tree of markup nodes, collects
//! every text leaf of that tree in document order, normalizes each leaf, and
//! renders the collected sequence as a JSON artifact.  A pattern-based
//! fallback extractor locates fragment bodies and heading tags directly in
//! raw source text without parsing.

pub mod fragment;
pub mod headings;
pub mod json;
pub mod pipeline;
pub mod markup;
pub mod text;
