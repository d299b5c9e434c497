use vstd::prelude::*;

verus! {

/// The second stage of an analyzer: it cuts a text into tokens, in the
/// order in which they stand in the text.
pub trait Tokenizer {
    fn tokenize<'a>(&self, text: &'a str) -> Vec<&'a str>;
}

} // verus!
