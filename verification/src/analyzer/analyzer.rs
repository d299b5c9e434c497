use crate::analyzer::char_filter::CharFilter;
use crate::analyzer::error::Error;
use crate::analyzer::token_filter::TokenFilter;
use crate::analyzer::tokenizer::Tokenizer;
use vstd::prelude::*;

verus! {

/// The texts of the terms of `terms`.
pub open spec fn texts(terms: Seq<&str>) -> Seq<Seq<char>> {
    Seq::new(terms.len(), |i: int| terms[i]@)
}

/// How often `term` stands in `terms`.
pub open spec fn occurrences(terms: Seq<Seq<char>>, term: Seq<char>) -> nat
    decreases terms.len(),
{
    if terms.len() == 0 {
        0
    } else {
        occurrences(terms.drop_last(), term) + if terms.last() == term {
            1nat
        } else {
            0nat
        }
    }
}

/// The tokens that a token filter let through: what it gave for each
/// token that it did not drop, in the order of the tokens.
pub open spec fn passed(kept: Seq<Option<&str>>) -> Seq<&str>
    decreases kept.len(),
{
    if kept.len() == 0 {
        Seq::empty()
    } else {
        match kept.last() {
            Some(token) => passed(kept.drop_last()).push(token),
            None => passed(kept.drop_last()),
        }
    }
}

/// Turns a text into terms: a character filter, then a tokenizer, then a
/// token filter.
#[derive(Debug)]
pub struct Analyzer<C: CharFilter, T: TokenFilter, I: Tokenizer> {
    char_filter: C,
    token_filter: T,
    tokenizer: I,
}

impl<C, T, I> Analyzer<C, T, I> where C: CharFilter, T: TokenFilter, I: Tokenizer {
    pub closed spec fn spec_char_filter(&self) -> C {
        self.char_filter
    }

    pub closed spec fn spec_token_filter(&self) -> T {
        self.token_filter
    }

    pub closed spec fn spec_tokenizer(&self) -> I {
        self.tokenizer
    }

    pub fn new(char_filter: C, token_filter: T, tokenizer: I) -> (analyzer: Self)
        ensures
            analyzer.spec_char_filter() == char_filter,
            analyzer.spec_token_filter() == token_filter,
            analyzer.spec_tokenizer() == tokenizer,
    {
        Analyzer { char_filter, token_filter, tokenizer }
    }

    /// What the token filter can make of `tokens`: `kept` holds for each
    /// token, in the order of the tokens, what the filter gave for it.
    pub open spec fn filters(&self, tokens: Seq<&str>, kept: Seq<Option<&str>>) -> bool {
        &&& kept.len() == tokens.len()
        &&& forall|i: int|
            0 <= i < tokens.len() ==> call_ensures(
                T::filter,
                (&self.spec_token_filter(), tokens[i]),
                #[trigger] kept[i],
            )
    }

    /// What the stages can make of `text`: the character filter gave
    /// `filtered` for `text`, the tokenizer cut it into `tokens`, and the
    /// token filter made `kept` of them.
    pub open spec fn stages(
        &self,
        text: &str,
        filtered: &str,
        tokens: Vec<&str>,
        kept: Seq<Option<&str>>,
    ) -> bool {
        &&& call_ensures(C::filter, (&self.spec_char_filter(), text), filtered)
        &&& call_ensures(I::tokenize, (&self.spec_tokenizer(), filtered), tokens)
        &&& self.filters(tokens@, kept)
    }

    /// The terms of `text`: the tokens of the filtered text that the token
    /// filter lets through, each as the token filter gives it, in the
    /// order of the tokens. What the three stages do is theirs to say; the
    /// analysis itself never fails.
    pub fn analyze<'a>(&self, text: &'a str) -> (r: Result<Vec<&'a str>, Error>)
        ensures
            r matches Ok(terms) && exists|
                filtered: &str,
                tokens: Vec<&str>,
                kept: Seq<Option<&str>>,
            | #[trigger]
                self.stages(text, filtered, tokens, kept) && terms@ == passed(kept),
    {
        let filtered = self.char_filter.filter(text);
        let found = self.tokenizer.tokenize(filtered);
        let mut tokens: Vec<&'a str> = Vec::new();
        let ghost mut kept: Seq<Option<&str>> = Seq::empty();
        let mut i: usize = 0;
        assert(passed(kept) =~= tokens@);
        while i < found.len()
            invariant
                i <= found@.len(),
                kept.len() == i,
                self.filters(found@.take(i as int), kept),
                tokens@ == passed(kept),
            decreases found@.len() - i,
        {
            let ghost before = kept;
            let one = self.token_filter.filter(found[i]);
            proof {
                kept = kept.push(one);
                assert(kept.drop_last() =~= before);
            }
            match one {
                None => (),
                Some(t) => {
                    tokens.push(t);
                },
            }
            i += 1;
        }
        assert(found@.take(found@.len() as int) =~= found@);
        assert(self.stages(text, filtered, found, kept));
        Ok(tokens)
    }
}

} // verus!
