pub mod normalizer;
pub mod runs;
pub mod token;
pub mod tokenizer;
pub mod word_delimiter;

pub use normalizer::{canonical_query, Normalizer};
pub use token::{RawToken, Token};
pub use tokenizer::SimpleTokenizer;
pub use word_delimiter::{expand_word_delimiters, DelimitedToken, WordDelimiterTokenizer};
