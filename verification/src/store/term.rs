#[allow(unused_imports)]
use crate::store::{order, posting};
use crate::store::document::Document;
use crate::store::order::{place, Place};
use crate::store::posting::{BuildingPostingData, BuildingPostingMap};
use vstd::prelude::*;

verus! {

/// The postings of a term after one more occurrence in a document was
/// counted: the document's data if the term was counted in it before, else
/// the data of a fresh posting, with one more occurrence in the title or
/// in the content.
pub open spec fn counted(
    postings: Map<u32, BuildingPostingData>,
    doc: &Document,
    is_title: bool,
) -> Map<u32, BuildingPostingData> {
    let found = if postings.contains_key(doc.id) {
        postings[doc.id]
    } else {
        BuildingPostingData::fresh(doc)
    };
    postings.insert(doc.id, found.bumped(is_title))
}

/// What the build keeps of one term: its postings.
#[derive(Debug)]
pub struct BuildingTermData {
    posting_map: BuildingPostingMap,
}

impl View for BuildingTermData {
    type V = Map<u32, BuildingPostingData>;

    open spec fn view(&self) -> Map<u32, BuildingPostingData> {
        self.spec_posting_map()@
    }
}

impl BuildingTermData {
    pub closed spec fn spec_posting_map(&self) -> BuildingPostingMap {
        self.posting_map
    }

    /// The postings in the order in which they are written: by ascending
    /// identifier.
    pub open spec fn entries(&self) -> Seq<(u32, BuildingPostingData)> {
        posting::entries_of(self@)
    }

    /// The postings are finitely many, so that they can be listed by
    /// ascending identifier.
    pub open spec fn wf(&self) -> bool {
        posting::lists_entries(self.entries(), self@)
    }

    pub fn new() -> (data: Self)
        ensures
            data.wf(),
            data@ == Map::<u32, BuildingPostingData>::empty(),
            data.entries() == Seq::<(u32, BuildingPostingData)>::empty(),
    {
        let data = BuildingTermData { posting_map: BuildingPostingMap::new() };
        proof {
            let none = Seq::<(u32, BuildingPostingData)>::empty();
            assert(posting::entries_map(none) =~= data@);
            posting::lemma_entries_of(none, data@);
        }
        data
    }

    /// Counts one more occurrence of the term in the title or in the
    /// content of `doc`. The norms of a document are taken when the term
    /// is first counted in it.
    pub fn add_posting(&mut self, doc: &Document, is_title: bool)
        requires
            old(self).wf(),
        ensures
            final(self).wf(),
            final(self)@ == counted(old(self)@, doc, is_title),
            final(self).entries().len() == old(self).entries().len() + if old(self)@.contains_key(
                doc.id,
            ) {
                0int
            } else {
                1int
            },
    {
        broadcast use vstd::std_specs::btree::group_btree_axioms;

        let mut d = match self.posting_map.get(&doc.id) {
            None => BuildingPostingData::new(doc),
            Some(found) => *found,
        };
        d.add_tf(is_title);
        self.posting_map.insert(doc.id, d);
        proof {
            posting::lemma_put(old(self).entries(), doc.id, d);
            posting::lemma_entries_of(posting::put(old(self).entries(), doc.id, d), self@);
        }
    }

    pub fn get_posting_map(&self) -> (map: &BuildingPostingMap)
        ensures
            *map == self.spec_posting_map(),
            map@ == self@,
    {
        &self.posting_map
    }
}

/// The bytes by which terms are ordered and found in the term index.
pub open spec fn term_key(term: Seq<char>) -> Seq<u8> {
    vstd::utf8::encode_utf8(term)
}

/// Terms with the same bytes are the same term.
pub proof fn lemma_term_key(a: Seq<char>, b: Seq<char>)
    requires
        term_key(a) == term_key(b),
    ensures
        a == b,
{
    vstd::utf8::encode_utf8_decode_utf8(a);
    vstd::utf8::encode_utf8_decode_utf8(b);
}

/// The bytes of the terms of `terms` grow strictly in lexicographic order
/// from each term to the next.
pub open spec fn terms_increase(terms: Seq<Seq<char>>) -> bool {
    forall|i: int, j: int|
        0 <= i < j < terms.len() ==> order::less(
            term_key(terms[i]),
            term_key(terms[j]),
        )
}

/// Terms whose bytes grow strictly are all different.
pub proof fn lemma_terms_differ(terms: Seq<Seq<char>>, i: int, j: int)
    requires
        terms_increase(terms),
        0 <= i < terms.len(),
        0 <= j < terms.len(),
        i != j,
    ensures
        terms[i] != terms[j],
{
    order::lemma_irreflexive(term_key(terms[i]));
    if i < j {
        assert(order::less(term_key(terms[i]), term_key(terms[j])));
    } else {
        assert(order::less(term_key(terms[j]), term_key(terms[i])));
    }
}

/// `term` is one of `terms`.
pub open spec fn has_term(terms: Seq<Seq<char>>, term: Seq<char>) -> bool {
    exists|i: int| 0 <= i < terms.len() && (#[trigger] terms[i]) == term
}

/// Where `term` stands in `terms`, if it is one of them.
pub open spec fn term_position(terms: Seq<Seq<char>>, term: Seq<char>) -> int {
    choose|i: int| 0 <= i < terms.len() && (#[trigger] terms[i]) == term
}

/// The mapping from each term of `terms` to the postings beside it.
pub open spec fn dictionary_map(
    terms: Seq<Seq<char>>,
    lists: Seq<Seq<(u32, BuildingPostingData)>>,
) -> Map<Seq<char>, Map<u32, BuildingPostingData>> {
    Map::new(
        |t: Seq<char>| has_term(terms, t),
        |t: Seq<char>| posting::entries_map(lists[term_position(terms, t)]),
    )
}

/// Where the terms grow strictly, each stands at one place only and is
/// mapped to the postings beside it.
pub proof fn lemma_dictionary_map(
    terms: Seq<Seq<char>>,
    lists: Seq<Seq<(u32, BuildingPostingData)>>,
    i: int,
)
    requires
        terms_increase(terms),
        0 <= i < terms.len(),
    ensures
        has_term(terms, terms[i]),
        term_position(terms, terms[i]) == i,
        dictionary_map(terms, lists).contains_key(terms[i]),
        dictionary_map(terms, lists)[terms[i]] == posting::entries_map(lists[i]),
{
    let t = terms[i];
    let c = term_position(terms, t);
    assert(terms[i] == t);
    if c != i {
        lemma_terms_differ(terms, c, i);
    }
}

/// The dictionary after one more occurrence of `term` in a document was
/// counted.
pub open spec fn dictionary_counted(
    dict: Map<Seq<char>, Map<u32, BuildingPostingData>>,
    term: Seq<char>,
    doc: &Document,
    is_title: bool,
) -> Map<Seq<char>, Map<u32, BuildingPostingData>> {
    let postings = if dict.contains_key(term) {
        dict[term]
    } else {
        Map::<u32, BuildingPostingData>::empty()
    };
    dict.insert(term, counted(postings, doc, is_title))
}

/// The terms of an index while it is built, each with its postings, in the
/// lexicographic order of the terms' bytes.
#[derive(Debug)]
pub struct BuildingTermDictionary {
    entries: Vec<(String, BuildingTermData)>,
}

impl View for BuildingTermDictionary {
    type V = Map<Seq<char>, Map<u32, BuildingPostingData>>;

    open spec fn view(&self) -> Map<Seq<char>, Map<u32, BuildingPostingData>> {
        dictionary_map(self.terms(), self.lists())
    }
}

impl BuildingTermDictionary {
    /// The terms in the order in which they are written.
    pub closed spec fn terms(&self) -> Seq<Seq<char>> {
        Seq::new(self.entries@.len(), |i: int| self.entries@[i].0@)
    }

    /// The postings of each term, in the order of the terms.
    pub closed spec fn lists(&self) -> Seq<Seq<(u32, BuildingPostingData)>> {
        Seq::new(self.entries@.len(), |i: int| self.entries@[i].1.entries())
    }

    /// The terms are held in strictly ascending order, and so are the
    /// postings of each term, of which there is at least one.
    pub open spec fn wf(&self) -> bool {
        &&& self.terms().len() == self.lists().len()
        &&& terms_increase(self.terms())
        &&& forall|i: int|
            0 <= i < self.lists().len() ==> posting::keys_increase(
                #[trigger] self.lists()[i],
            )
        &&& forall|i: int| 0 <= i < self.lists().len() ==> (#[trigger] self.lists()[i]).len() > 0
        &&& self.listed()
    }

    /// The postings of each term are finitely many, so that `lists` holds
    /// each of them.
    pub closed spec fn listed(&self) -> bool {
        forall|i: int| 0 <= i < self.entries@.len() ==> (#[trigger] self.entries@[i]).1.wf()
    }

    pub fn new() -> (dict: Self)
        ensures
            dict.wf(),
            dict.terms().len() == 0,
            dict@ == Map::<Seq<char>, Map<u32, BuildingPostingData>>::empty(),
    {
        let dict = BuildingTermDictionary { entries: Vec::new() };
        assert(dict@ =~= Map::<Seq<char>, Map<u32, BuildingPostingData>>::empty());
        dict
    }

    /// Number of terms.
    pub fn len(&self) -> (n: usize)
        ensures
            n == self.terms().len(),
            n == self.lists().len(),
    {
        self.entries.len()
    }

    /// The term at `index` in ascending order.
    pub fn term(&self, index: usize) -> (t: &str)
        requires
            index < self.terms().len(),
        ensures
            t@ == self.terms()[index as int],
    {
        self.entries[index].0.as_str()
    }

    /// The postings of the term at `index`.
    pub fn postings(&self, index: usize) -> (map: &BuildingPostingMap)
        requires
            index < self.lists().len(),
        ensures
            posting::entries_of(map@) == self.lists()[index as int],
    {
        self.entries[index].1.get_posting_map()
    }

    /// No term has more than `base` postings, but for one more where it
    /// has a posting of document `doc_id`.
    pub open spec fn within(&self, doc_id: u32, base: nat) -> bool {
        forall|i: int|
            0 <= i < self.lists().len() ==> (#[trigger] self.lists()[i]).len() <= base
                + if posting::entries_map(self.lists()[i]).contains_key(doc_id) {
                1int
            } else {
                0int
            }
    }

    /// Counts one more occurrence of `term` in the title or in the content
    /// of `doc`. A term that was not held yet comes in at its place in the
    /// order of the terms.
    pub fn add(&mut self, term: &str, doc: &Document, is_title: bool)
        requires
            old(self).wf(),
        ensures
            final(self).wf(),
            final(self)@ == dictionary_counted(old(self)@, term@, doc, is_title),
            forall|base: nat|
                old(self).within(doc.id, base) ==> #[trigger] final(self).within(doc.id, base),
    {
        let ghost terms = self.terms();
        let ghost lists = self.lists();
        let (at, found) = self.search(term);
        if found {
            assert(self.entries@[at as int].1.wf());
            self.entries[at].1.add_posting(doc, is_title);
        } else {
            let mut d = BuildingTermData::new();
            d.add_posting(doc, is_title);
            self.entries.insert(at, (term.to_owned(), d));
        }
        proof {
            let terms2 = self.terms();
            let lists2 = self.lists();
            let list = lists2[at as int];
            let prior = if found {
                lists[at as int]
            } else {
                Seq::<(u32, BuildingPostingData)>::empty()
            };
            assert(posting::entries_map(prior) =~= if old(self)@.contains_key(term@) {
                old(self)@[term@]
            } else {
                Map::<u32, BuildingPostingData>::empty()
            }) by {
                if found {
                    lemma_dictionary_map(terms, lists, at as int);
                }
            }
            assert(posting::entries_map(list) == counted(
                posting::entries_map(prior),
                doc,
                is_title,
            ));
            if found {
                assert(terms2 =~= terms);
                assert(lists2 =~= lists.update(at as int, list));
            } else {
                assert(terms2 =~= terms.insert(at as int, term@));
                assert(lists2 =~= lists.insert(at as int, list));
                assert forall|i: int, j: int| 0 <= i < j < terms2.len() implies order::less(
                    term_key(terms2[i]),
                    term_key(terms2[j]),
                ) by {
                    let bi = if i < at { i } else { i - 1 };
                    let bj = if j < at { j } else { j - 1 };
                    if i != at {
                        assert(terms2[i] == terms[bi]);
                    }
                    if j != at {
                        assert(terms2[j] == terms[bj]);
                    }
                }
            }
            assert(self.wf());
            let goal = dictionary_counted(old(self)@, term@, doc, is_title);
            assert(terms2[at as int] == term@);
            lemma_dictionary_map(terms2, lists2, at as int);
            assert forall|t: Seq<char>| #[trigger]
                self@.contains_key(t) <==> goal.contains_key(t) by {
                if self@.contains_key(t) {
                    let c = term_position(terms2, t);
                    if c != at {
                        let b = if found || c < at { c } else { c - 1 };
                        assert(terms[b] == t);
                    }
                }
                if old(self)@.contains_key(t) {
                    let c = term_position(terms, t);
                    let a = if found || c < at { c } else { c + 1 };
                    assert(terms2[a] == t);
                }
            }
            assert forall|t: Seq<char>| #[trigger] self@.contains_key(t) implies self@[t]
                == goal[t] by {
                let c = term_position(terms2, t);
                lemma_dictionary_map(terms2, lists2, c);
                if c != at {
                    let b = if found || c < at { c } else { c - 1 };
                    assert(terms[b] == t);
                    assert(lists[b] == lists2[c]);
                    lemma_dictionary_map(terms, lists, b);
                    lemma_terms_differ(terms2, c, at as int);
                }
            }
            assert(self@ =~= goal);
            assert forall|base: nat| old(self).within(doc.id, base) implies #[trigger] self.within(
                doc.id,
                base,
            ) by {
                assert forall|i: int| 0 <= i < lists2.len() implies (#[trigger] lists2[i]).len()
                    <= base + if posting::entries_map(lists2[i]).contains_key(
                    doc.id,
                ) {
                    1int
                } else {
                    0int
                } by {
                    if i != at {
                        let b = if found || i < at { i } else { i - 1 };
                        assert(lists2[i] == lists[b]);
                    } else if found {
                        assert(lists[at as int].len() <= base + if posting::entries_map(
                            lists[at as int],
                        ).contains_key(doc.id) {
                            1int
                        } else {
                            0int
                        });
                    }
                }
            }
        }
    }

    /// Where `term` stands among the terms, or would stand, and whether it
    /// is there.
    fn search(&self, term: &str) -> (r: (usize, bool))
        requires
            self.wf(),
        ensures
            r.0 <= self.terms().len(),
            forall|x: int|
                0 <= x < r.0 ==> order::less(
                    term_key(#[trigger] self.terms()[x]),
                    term_key(term@),
                ),
            forall|x: int|
                r.0 <= x < self.terms().len() && !(x == r.0 && r.1) ==> order::less(
                    term_key(term@),
                    term_key(#[trigger] self.terms()[x]),
                ),
            r.1 == (r.0 < self.terms().len() && self.terms()[r.0 as int] == term@),
            r.1 == self@.contains_key(term@),
    {
        let key = term.as_bytes();
        let mut lo: usize = 0;
        let mut hi: usize = self.entries.len();
        let mut found = false;
        while lo < hi && !found
            invariant
                self.wf(),
                key@ == term_key(term@),
                lo <= hi <= self.entries@.len(),
                found ==> lo < self.entries@.len() && self.terms()[lo as int] == term@,
                forall|x: int|
                    0 <= x < lo ==> order::less(
                        term_key(#[trigger] self.terms()[x]),
                        key@,
                    ),
                forall|x: int|
                    hi <= x < self.terms().len() ==> order::less(
                        key@,
                        term_key(#[trigger] self.terms()[x]),
                    ),
                found ==> hi == lo + 1,
            decreases hi - lo + if found { 0int } else { 1int },
        {
            let mid = lo + (hi - lo) / 2;
            let there = self.entries[mid].0.as_str().as_bytes();
            assert(there@ == term_key(self.terms()[mid as int]));
            match place(there, key) {
                Place::Before => {
                    proof {
                        assert forall|x: int| 0 <= x < mid + 1 implies order::less(
                            term_key(#[trigger] self.terms()[x]),
                            key@,
                        ) by {
                            if x < mid {
                                order::lemma_transitive(
                                    term_key(self.terms()[x]),
                                    there@,
                                    key@,
                                );
                            }
                        }
                    }
                    lo = mid + 1;
                },
                Place::After => {
                    proof {
                        assert forall|x: int| mid <= x < self.terms().len() implies order::less(
                            key@,
                            term_key(#[trigger] self.terms()[x]),
                        ) by {
                            if mid < x {
                                order::lemma_transitive(
                                    key@,
                                    there@,
                                    term_key(self.terms()[x]),
                                );
                            }
                        }
                    }
                    hi = mid;
                },
                Place::Same => {
                    proof {
                        lemma_term_key(self.terms()[mid as int], term@);
                        assert forall|x: int| 0 <= x < mid implies order::less(
                            term_key(#[trigger] self.terms()[x]),
                            key@,
                        ) by {}
                        assert forall|x: int| mid + 1 <= x < self.terms().len() implies order::less(
                            key@,
                            term_key(#[trigger] self.terms()[x]),
                        ) by {}
                    }
                    lo = mid;
                    hi = mid + 1;
                    found = true;
                },
            }
        }
        proof {
            if found {
                lemma_dictionary_map(self.terms(), self.lists(), lo as int);
            } else {
                if self@.contains_key(term@) {
                    let c = term_position(self.terms(), term@);
                    order::lemma_irreflexive(key@);
                }
                if lo < self.terms().len() && self.terms()[lo as int] == term@ {
                    order::lemma_irreflexive(key@);
                }
            }
        }
        (lo, found)
    }
}

} // verus!
