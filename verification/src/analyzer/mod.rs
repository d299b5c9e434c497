pub mod analyzer;
pub mod char_filter;
pub mod error;
pub mod token_filter;
pub mod tokenizer;
