//! Decoding of CoNLL-U text into sentences of annotated words.
pub mod attrs;
pub mod document;
pub mod fields;
pub mod text;

pub use attrs::{parse_attrs, parse_deps};
pub use document::{parse_conllu, parse_head, push_line, ConlluError, Word};
pub use text::{Text, MAX_TEXT_CHARS};
