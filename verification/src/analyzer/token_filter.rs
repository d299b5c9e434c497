#[allow(unused_imports)]
use crate::store::term;
use crate::store::order::{place, Place};
use vstd::prelude::*;

verus! {

/// The last stage of an analyzer: it drops or rewrites single tokens.
pub trait TokenFilter {
    fn filter<'a>(&self, token: &'a str) -> Option<&'a str>;
}

/// The filter that drops the one stop word it knows, where it is asked to.
#[derive(Debug)]
pub struct BasicTokenFilter {
    filter_stop_words: bool,
}

/// The stop word of `BasicTokenFilter`.
pub const STOP_WORD: &'static str = "的";

impl BasicTokenFilter {
    pub closed spec fn filters_stop_words(&self) -> bool {
        self.filter_stop_words
    }

    pub fn new(filter_stop_words: bool) -> (filter: Self)
        ensures
            filter.filters_stop_words() == filter_stop_words,
    {
        BasicTokenFilter { filter_stop_words }
    }

    pub fn is_stop_word(&self, token: &str) -> (r: bool)
        ensures
            r == (token@ == STOP_WORD@),
    {
        let same = place(token.as_bytes(), STOP_WORD.as_bytes());
        proof {
            if term::term_key(token@) == term::term_key(STOP_WORD@) {
                term::lemma_term_key(token@, STOP_WORD@);
            }
        }
        same == Place::Same
    }
}

impl TokenFilter for BasicTokenFilter {
    fn filter<'a>(&self, token: &'a str) -> (r: Option<&'a str>)
        ensures
            r == if self.filters_stop_words() && token@ == STOP_WORD@ {
                None
            } else {
                Some(token)
            },
    {
        if self.filter_stop_words && self.is_stop_word(token) {
            return None;
        }
        Some(token)
    }
}

} // verus!
