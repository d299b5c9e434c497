use vstd::prelude::*;

verus! {

/// A document to index: an identifier and two fields of text.
#[derive(Debug, Clone, Copy)]
pub struct Document<'a> {
    pub id: u32,
    pub title: &'a str,
    pub content: &'a str,
}

} // verus!
