//! A frequency-weighted n-ary prefix code between two word alphabets,
//! and the transliteration of text through it in both directions.

pub mod model;
pub mod words;
pub mod mapping;
pub mod codec;
pub mod builder;
pub mod laws;

pub use mapping::Mapping;
pub use model::{FromSymbol, Node, ToSymbol, Token, TokenView};
