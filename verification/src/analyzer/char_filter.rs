use vstd::prelude::*;

verus! {

/// The first stage of an analyzer: it normalizes a text before the text is
/// cut into tokens.
pub trait CharFilter {
    fn filter<'a>(&self, text: &'a str) -> &'a str;
}

/// The filter that leaves every text as it is.
#[derive(Debug)]
pub struct BasicCharFilter {}

impl BasicCharFilter {
    pub fn new() -> Self {
        BasicCharFilter {  }
    }
}

impl CharFilter for BasicCharFilter {
    fn filter<'a>(&self, text: &'a str) -> (r: &'a str)
        ensures
            r == text,
    {
        text
    }
}

} // verus!
