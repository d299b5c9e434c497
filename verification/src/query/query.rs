#[allow(unused_imports)]
use crate::analyzer::analyzer;
#[allow(unused_imports)]
use crate::query::{plan, rank, score};
#[allow(unused_imports)]
use crate::store::{bytes, layout, path, posting, term, term_index};
use crate::analyzer::analyzer::Analyzer;
use crate::analyzer::char_filter::CharFilter;
use crate::analyzer::token_filter::TokenFilter;
use crate::analyzer::tokenizer::Tokenizer;
use crate::query::score::TfIdfTermPriorityCalculator;
use crate::store::builder::Builder;
use crate::store::bytes::{read_u32, read_u64};
use crate::store::constants::{
    TERM_DICT_FILE_SUFFIX, TERM_DICT_MAGIC_NUMBER, TERM_INDEX_FILE_SUFFIX,
    TERM_INDEX_MAGIC_NUMBER, VERSION,
};
use crate::store::error::Error;
use crate::store::term_index::{index_get, index_search, open_index, verify_index};
use crate::store::order::{place, Place};
use crate::store::path::{entry_path, file_name};
use crate::store::posting::{RawPosting, RawPostingList};
use fst::automaton::Levenshtein;
use std::path::PathBuf;
use vstd::prelude::*;
use vstd::string::StrSliceExecFns;

verus! {

/// Where an index is read from, and how much a match in the title and a
/// match in the content count.
#[derive(Debug)]
pub struct Config<'a> {
    store_dir: PathBuf,
    identifier: &'a str,
    boost_title: u8,
    boost_content: u8,
}

impl<'a> Config<'a> {
    pub closed spec fn spec_store_dir(&self) -> PathBuf {
        self.store_dir
    }

    pub closed spec fn spec_identifier(&self) -> &'a str {
        self.identifier
    }

    pub closed spec fn spec_boost_title(&self) -> u8 {
        self.boost_title
    }

    pub closed spec fn spec_boost_content(&self) -> u8 {
        self.boost_content
    }

    pub fn new(
        store_dir: PathBuf,
        identifier: &'a str,
        boost_title: u8,
        boost_content: u8,
    ) -> (config: Self)
        ensures
            config.spec_store_dir() == store_dir,
            config.spec_identifier() == identifier,
            config.boost_title() == boost_title,
            config.boost_content() == boost_content,
    {
        Config { store_dir, identifier, boost_title, boost_content }
    }

    #[verifier::when_used_as_spec(spec_boost_title)]
    pub fn boost_title(&self) -> (b: u8)
        ensures
            b == self.spec_boost_title(),
    {
        self.boost_title
    }

    #[verifier::when_used_as_spec(spec_boost_content)]
    pub fn boost_content(&self) -> (b: u8)
        ensures
            b == self.spec_boost_content(),
    {
        self.boost_content
    }

    /// The name of the file of the index that has the suffix `suffix`.
    pub fn file_name(&self, suffix: &str) -> (name: String)
        ensures
            name@ == self.spec_identifier()@ + suffix@,
    {
        file_name(self.identifier, suffix)
    }

    /// The path of the file of the index that has the suffix `suffix`: the
    /// file named `file_name(suffix)` in the directory of the store. The
    /// contract says what was joined; how the platform writes the path is
    /// not stated.
    pub fn build_file_path(&self, suffix: &str) -> (file: PathBuf)
        ensures
            path::joins(self.spec_store_dir(), self.spec_identifier()@ + suffix@, file),
    {
        let name = self.file_name(suffix);
        entry_path(&self.store_dir, name.as_str())
    }

    /// The path of the term index; of the path the contract says only what
    /// was joined.
    pub fn term_index_path(&self) -> (file: PathBuf)
        ensures
            path::joins(
                self.spec_store_dir(),
                self.spec_identifier()@ + TERM_INDEX_FILE_SUFFIX@,
                file,
            ),
    {
        self.build_file_path(TERM_INDEX_FILE_SUFFIX)
    }

    /// The path of the term dictionary; of the path the contract says only
    /// what was joined.
    pub fn term_dict_path(&self) -> (file: PathBuf)
        ensures
            path::joins(
                self.spec_store_dir(),
                self.spec_identifier()@ + TERM_DICT_FILE_SUFFIX@,
                file,
            ),
    {
        self.build_file_path(TERM_DICT_FILE_SUFFIX)
    }
}

/// Checks the first nine bytes of a file against a magic number and the
/// version.
fn check_header(file: &[u8], magic: u64) -> (r: Result<usize, Error>)
    ensures
        r == layout::header_check(file@, magic),
{
    if file.len() < 8 {
        return Err(Error::Io);
    }
    if read_u64(file) != magic {
        return Err(Error::Incompatible);
    }
    if file.len() < 9 {
        return Err(Error::Io);
    }
    if file[8] != VERSION {
        return Err(Error::Incompatible);
    }
    Ok((64 + 8) / 8)
}

/// Checks that `file` starts as a term index does and returns the length
/// of the header.
pub fn check_term_index(file: &[u8]) -> (r: Result<usize, Error>)
    ensures
        r == layout::header_check(file@, TERM_INDEX_MAGIC_NUMBER),
        file@.len() >= 9 && file@.take(9) != layout::header(TERM_INDEX_MAGIC_NUMBER)
            ==> r == Err::<usize, Error>(Error::Incompatible),
{
    proof {
        if file@.len() >= 9 && file@.take(9) != layout::header(
            TERM_INDEX_MAGIC_NUMBER,
        ) {
            layout::lemma_header_refused(file@, TERM_INDEX_MAGIC_NUMBER);
        }
    }
    check_header(file, TERM_INDEX_MAGIC_NUMBER)
}

/// Checks that `file` starts as a term dictionary does and returns the
/// length of what was checked.
pub fn check_term_dict(file: &[u8]) -> (r: Result<usize, Error>)
    ensures
        r == layout::header_check(file@, TERM_DICT_MAGIC_NUMBER),
        file@.len() >= 9 && file@.take(9) != layout::header(TERM_DICT_MAGIC_NUMBER)
            ==> r == Err::<usize, Error>(Error::Incompatible),
{
    proof {
        if file@.len() >= 9 && file@.take(9) != layout::header(
            TERM_DICT_MAGIC_NUMBER,
        ) {
            layout::lemma_header_refused(file@, TERM_DICT_MAGIC_NUMBER);
        }
    }
    check_header(file, TERM_DICT_MAGIC_NUMBER)
}

/// What opening the two files of an index gives: the number of documents
/// of the index, or the first fault that is found. The term index is
/// looked at first.
pub open spec fn opened(index: Seq<u8>, dict: Seq<u8>) -> Result<u32, Error> {
    let index_checked = layout::header_check(index, TERM_INDEX_MAGIC_NUMBER);
    let dict_checked = layout::header_check(dict, TERM_DICT_MAGIC_NUMBER);
    if index_checked is Err {
        Err(index_checked->Err_0)
    } else if !term_index::image_opens(index.skip(9))
        || !term_index::image_checks(index.skip(9)) {
        Err(Error::FstError)
    } else if dict_checked is Err {
        Err(dict_checked->Err_0)
    } else if dict.len() < 13 {
        Err(Error::Io)
    } else {
        Ok(bytes::le_u32(dict.skip(9)) as u32)
    }
}

/// The number of edits by which a key of the term index may differ from
/// a term of a query to match it: none for a term of four characters or
/// fewer, one for a longer term.
pub fn automaton_distance(word: &str) -> (distance: u32)
    ensures
        distance == if word@.len() > 4 {
            1u32
        } else {
            0u32
        },
{
    if word.unicode_len() > 4 {
        1
    } else {
        0
    }
}

/// Whether two texts are the same.
pub fn same_text(a: &str, b: &str) -> (r: bool)
    ensures
        r == (a@ == b@),
{
    let same = place(a.as_bytes(), b.as_bytes());
    proof {
        if term::term_key(a@) == term::term_key(b@) {
            term::lemma_term_key(a@, b@);
        }
    }
    same == Place::Same
}

/// Where the first match of `found` with the term `word` stands, or the
/// length of `found` if there is none.
pub open spec fn exact_position(word: Seq<char>, found: Seq<(String, u64)>) -> int
    decreases found.len(),
{
    if found.len() == 0 {
        0
    } else if found[0].0@ == word {
        0
    } else {
        1 + exact_position(word, found.drop_first())
    }
}

/// The place in the term dictionary that is picked among the matches of
/// a term: that of the match with the term itself if there is one, else
/// that of the last match, and none where nothing matched.
pub open spec fn picked(word: Seq<char>, found: Seq<(String, u64)>) -> Option<u64> {
    if exact_position(word, found) < found.len() {
        Some(found[exact_position(word, found)].1)
    } else if found.len() > 0 {
        Some(found.last().1)
    } else {
        None
    }
}

/// The position of the first exact match is a position of `found` or its
/// length, no match before it is exact, and the match at it is.
pub proof fn lemma_exact_position(word: Seq<char>, found: Seq<(String, u64)>)
    ensures
        0 <= exact_position(word, found) <= found.len(),
        forall|i: int| 0 <= i < exact_position(word, found) ==> (#[trigger] found[i]).0@ != word,
        exact_position(word, found) < found.len() ==> found[exact_position(word, found)].0@
            == word,
    decreases found.len(),
{
    if found.len() > 0 && found[0].0@ != word {
        let rest = found.drop_first();
        lemma_exact_position(word, rest);
        assert forall|i: int| 0 <= i < exact_position(word, found) implies (#[trigger] found[i]).0@
            != word by {
            if i > 0 {
                assert(found[i] == rest[i - 1]);
            }
        }
    }
}

/// Picks among the matches of a term the place in the term dictionary
/// that is read for the term.
pub fn pick_match(word: &str, found: &Vec<(String, u64)>) -> (r: Option<u64>)
    ensures
        r == picked(word@, found@),
{
    let n = found.len();
    let mut i: usize = 0;
    proof {
        lemma_exact_position(word@, found@);
    }
    while i < n
        invariant
            i <= n,
            n == found@.len(),
            i <= exact_position(word@, found@) <= n,
            exact_position(word@, found@) < n ==> found@[exact_position(word@, found@)].0@
                == word@,
        decreases n - i,
    {
        if same_text(found[i].0.as_str(), word) {
            proof {
                lemma_exact_position(word@, found@);
            }
            return Some(found[i].1);
        }
        i += 1;
    }
    if n > 0 {
        Some(found[n - 1].1)
    } else {
        None
    }
}


/// Answers queries from the two files of an index.
#[derive(Debug)]
pub struct Query<'a, C, T, I> where C: CharFilter, T: TokenFilter, I: Tokenizer {
    analyzer: Analyzer<C, T, I>,
    config: Config<'a>,
    term_index: fst::Map<&'a [u8]>,
    term_dict: &'a [u8],
    doc_num: u32,
    term_priority_calculator: TfIdfTermPriorityCalculator,
}

impl<'a, C, T, I> Query<'a, C, T, I> where C: CharFilter, T: TokenFilter, I: Tokenizer {
    /// The image of the term index.
    pub closed spec fn image(&self) -> Seq<u8> {
        term_index::index_image(self.term_index)
    }

    /// The keys of the term index, each with the place of its posting list
    /// in the term dictionary.
    pub open spec fn entries(&self) -> Map<Seq<u8>, u64> {
        term_index::image_entries(self.image())
    }

    /// The bytes of the term dictionary.
    pub closed spec fn dict(&self) -> Seq<u8> {
        self.term_dict@
    }

    pub closed spec fn spec_doc_num(&self) -> u32 {
        self.doc_num
    }

    pub closed spec fn spec_config(&self) -> Config<'a> {
        self.config
    }

    /// The analyzer of the queries.
    pub closed spec fn analyzer(&self) -> Analyzer<C, T, I> {
        self.analyzer
    }

    pub closed spec fn spec_calculator(&self) -> TfIdfTermPriorityCalculator {
        self.term_priority_calculator
    }

    /// The image of the term index is one that a builder wrote. Opening
    /// cannot tell this of the bytes it is given: it holds of the files
    /// that `Builder::finish` gives.
    pub open spec fn wf(&self) -> bool {
        term_index::image_built(self.image())
    }

    /// Opens an index on the bytes of its two files: `index` holds the
    /// term index, `dict` the term dictionary. The headers of both are
    /// checked, and the image of the term index against its checksum, so
    /// that an image without a checksum or with a wrong one is refused
    /// with `FstError`. A checksum does not show that a builder wrote the
    /// image: the index is well formed only where the caller knows that.
    pub fn new(
        analyzer: Analyzer<C, T, I>,
        config: Config<'a>,
        index: &'a [u8],
        dict: &'a [u8],
    ) -> (r: Result<Self, Error>)
        ensures
            match r {
                Ok(query) => {
                    &&& opened(index@, dict@) == Ok::<u32, Error>(query.doc_num())
                    &&& term_index::image_built(index@.skip(9)) ==> query.wf()
                    &&& query.image() == index@.skip(9)
                    &&& query.dict() == dict@
                    &&& query.calculator().total_doc_num() == query.doc_num()
                    &&& query.calculator().boost_title() == config.boost_title()
                    &&& query.calculator().boost_content() == config.boost_content()
                    &&& query.analyzer() == analyzer
                    &&& query.spec_config() == config
                },
                Err(e) => opened(index@, dict@) == Err::<u32, Error>(e),
            },
    {
        let index_offset = match check_term_index(index) {
            Ok(offset) => offset,
            Err(e) => {
                return Err(e);
            },
        };
        let image = &index[index_offset..index.len()];
        assert(image@ =~= index@.skip(9));
        let fst = match open_index(image) {
            Some(fst) => fst,
            None => {
                return Err(Error::FstError);
            },
        };
        if !verify_index(&fst) {
            return Err(Error::FstError);
        }
        match check_term_dict(dict) {
            Ok(_) => {},
            Err(e) => {
                return Err(e);
            },
        }
        if dict.len() < 13 {
            return Err(Error::Io);
        }
        let doc_num = read_u32(&dict[9..dict.len()]);
        assert(dict@.subrange(9, dict@.len() as int) =~= dict@.skip(9));
        let term_priority_calculator = TfIdfTermPriorityCalculator::new(
            doc_num,
            config.boost_title(),
            config.boost_content(),
        );
        Ok(
            Query {
                analyzer,
                config,
                term_index: fst,
                term_dict: dict,
                doc_num,
                term_priority_calculator,
            },
        )
    }

    /// Number of documents of the index.
    #[verifier::when_used_as_spec(spec_doc_num)]
    pub fn doc_num(&self) -> (n: u32)
        ensures
            n == self.spec_doc_num(),
    {
        self.doc_num
    }

    /// The weights by which the fields of a document count.
    #[verifier::when_used_as_spec(spec_calculator)]
    pub fn calculator(&self) -> (calculator: TfIdfTermPriorityCalculator)
        ensures
            calculator == self.spec_calculator(),
    {
        self.term_priority_calculator
    }

    /// Where the index is read from.
    pub fn config(&self) -> (config: &Config<'a>)
        ensures
            *config == self.spec_config(),
    {
        &self.config
    }

    /// Opens the posting list that starts at byte `offset` of the term
    /// dictionary.
    pub fn find_posting_list(&self, offset: u64) -> (r: Result<RawPostingList<'a>, Error>)
        ensures
            match r {
                Ok(list) => list.wf() && posting::block_at(
                    self.dict(),
                    offset as int,
                ) == Ok::<Seq<RawPosting>, Error>(list@),
                Err(e) => posting::block_at(self.dict(), offset as int) == Err::<
                    Seq<RawPosting>,
                    Error,
                >(e),
            },
    {
        RawPostingList::new(self.term_dict, offset)
    }
}


/// What a scorer is told of a query: for each merged term, in the order of
/// the merges, the number of documents that hold the term and the
/// compressed frequency of the term in the query, and the norm of the
/// query's length.
#[derive(Debug)]
pub struct QueryVector {
    pub df: Vec<u32>,
    pub tf: Vec<u8>,
    pub norm: u8,
}

/// What the steps of a query came to.
pub struct Trace<'s> {
    /// What each term of the query resolved to, in the order in which the
    /// terms are first seen: the postings of the term, if it has any.
    pub results: Seq<Option<Seq<RawPosting>>>,
    /// The terms with postings, by ascending length of their posting
    /// lists; each stands for its place among the terms with postings.
    pub order: Seq<usize>,
    /// What the scorer was told of the query.
    pub vector: QueryVector,
    /// The working set after all lists were united.
    pub postings: Seq<posting::Posting>,
    /// The key that the scorer gave for each posting of the working set.
    pub keys: Seq<u64>,
    /// The postings of the working set by descending key.
    pub ranks: Seq<usize>,
    /// The terms of the query with their counts.
    pub counts: Seq<plan::QueryTerm<'s>>,
}

/// The terms with postings among `results`: each with its place among all
/// terms, in their order.
pub open spec fn hits(results: Seq<Option<Seq<RawPosting>>>) -> Seq<(int, Seq<RawPosting>)>
    decreases results.len(),
{
    if results.len() == 0 {
        Seq::empty()
    } else {
        let before = hits(results.drop_last());
        match results.last() {
            Some(postings) => before.push((results.len() - 1, postings)),
            None => before,
        }
    }
}

/// The lengths of the posting lists of `found`.
pub open spec fn lengths(found: Seq<(int, Seq<RawPosting>)>) -> Seq<u64> {
    Seq::new(found.len(), |i: int| found[i].1.len() as u64)
}

/// The posting lists of `found` in the order `order`.
pub open spec fn arranged(found: Seq<(int, Seq<RawPosting>)>, order: Seq<usize>) -> Seq<
    Seq<RawPosting>,
> {
    Seq::new(order.len(), |k: int| found[order[k] as int].1)
}

/// The documents of `postings` in the order `ranks`.
pub open spec fn ranked(postings: Seq<posting::Posting>, ranks: Seq<usize>) -> Seq<
    u32,
> {
    Seq::new(ranks.len(), |i: int| postings[ranks[i] as int]@.doc_id)
}

/// What a posting list holds, or that there is none.
pub open spec fn list_view(r: Result<Option<RawPostingList>, Error>) -> Result<
    Option<Seq<RawPosting>>,
    Error,
> {
    match r {
        Ok(Some(list)) => Ok(Some(list@)),
        Ok(None) => Ok(None),
        Err(e) => Err(e),
    }
}

impl<'a, C, T, I> Query<'a, C, T, I> where C: CharFilter, T: TokenFilter, I: Tokenizer {
    /// What reading the posting list at `place` gives, where a term has a
    /// place in the term dictionary.
    pub open spec fn located(&self, place: Option<u64>) -> Result<Option<Seq<RawPosting>>, Error> {
        match place {
            None => Ok(None),
            Some(offset) => match posting::block_at(self.dict(), offset as int) {
                Ok(postings) => Ok(Some(postings)),
                Err(e) => Err(e),
            },
        }
    }

    /// What the term `word` resolves to once the choice between an exact
    /// lookup and an automaton is made. Without an automaton the term
    /// itself is looked up. With one, the term itself is taken if the
    /// automaton accepts it, else the last of the keys that it accepts;
    /// the search fails if it meets a key that is not UTF-8.
    pub open spec fn resolves_with(
        &self,
        choice: Option<Levenshtein>,
        word: Seq<char>,
        r: Result<Option<Seq<RawPosting>>, Error>,
    ) -> bool {
        match choice {
            None => r == self.located(
                if self.entries().contains_key(term::term_key(word)) {
                    Some(self.entries()[term::term_key(word)])
                } else {
                    None
                },
            ),
            Some(automaton) => {
                ||| exists|found: Seq<(String, u64)>|
                    term_index::lists_matches(self.entries(), automaton, found) && r
                        == self.located(picked(word, found))
                ||| (r == Err::<Option<Seq<RawPosting>>, Error>(Error::FstError) && exists|
                    k: Seq<u8>,
                |
                    self.entries().contains_key(k)
                        && #[trigger] term_index::automaton_accepts(automaton, k)
                        && !vstd::utf8::valid_utf8(k))
            },
        }
    }

    /// What the term `word` can resolve to: what it resolves to with a
    /// choice that `aut_builder` can make for it.
    pub open spec fn resolves<F: Fn(&str) -> Option<Levenshtein>>(
        &self,
        aut_builder: &F,
        word: &str,
        r: Result<Option<Seq<RawPosting>>, Error>,
    ) -> bool {
        exists|choice: Option<Levenshtein>|
            call_ensures(*aut_builder, (word,), choice) && self.resolves_with(choice, word@, r)
    }

    /// Finds the posting list of one term of a query. `aut_builder` says
    /// for the term whether it is looked up itself or matched by an
    /// automaton.
    pub fn query_term_postings<F: Fn(&str) -> Option<Levenshtein>>(
        &self,
        word: &str,
        aut_builder: &F,
    ) -> (r: Result<Option<RawPostingList<'a>>, Error>)
        requires
            self.wf(),
            call_requires(*aut_builder, (word,)),
        ensures
            self.resolves(aut_builder, word, list_view(r)),
            r matches Ok(Some(list)) ==> list.wf(),
    {
        let choice = aut_builder(word);
        let ghost chosen = choice;
        let place = match choice {
            None => index_get(&self.term_index, word.as_bytes()),
            Some(automaton) => {
                match index_search(&self.term_index, automaton) {
                    Some(found) => {
                        let place = pick_match(word, &found);
                        proof {
                            assert(term_index::lists_matches(
                                self.entries(),
                                automaton,
                                found@,
                            ));
                        }
                        place
                    },
                    None => {
                        proof {
                            assert(self.resolves_with(
                                chosen,
                                word@,
                                Err::<Option<Seq<RawPosting>>, Error>(Error::FstError),
                            ));
                        }
                        return Err(Error::FstError);
                    },
                }
            },
        };
        let r = match place {
            None => Ok(None),
            Some(offset) => match self.find_posting_list(offset) {
                Ok(list) => Ok(Some(list)),
                Err(e) => Err(e),
            },
        };
        proof {
            assert(list_view(r) == self.located(place));
            assert(self.resolves_with(chosen, word@, list_view(r)));
        }
        r
    }
}


impl<'a, C, T, I> Query<'a, C, T, I> where C: CharFilter, T: TokenFilter, I: Tokenizer {
    /// The steps of `trace` are those of a query for the terms `terms`, in
    /// a sentence of `sentence_len` characters, that shows the documents
    /// `ids`. Each term is counted and resolved once, in the order in
    /// which the terms are first seen. The posting lists that were found
    /// are united by ascending length, lists of equal length in the order
    /// of their terms. The scorer gives a key for each document of the
    /// working set; the documents are ranked by descending key, documents
    /// with equal keys by ascending identifier, and `ids` is the page
    /// `range` of the ranking.
    pub open spec fn follows<F: Fn(&str) -> Option<Levenshtein>, S: Fn(
        &QueryVector,
        &posting::Posting,
    ) -> u64>(
        &self,
        trace: Trace,
        terms: Seq<&str>,
        sentence_len: usize,
        aut_builder: &F,
        score: &S,
        range: core::ops::Range<usize>,
        ids: Seq<u32>,
    ) -> bool {
        let found = hits(trace.results);
        let lists = arranged(found, trace.order);
        &&& plan::counts_of(analyzer::texts(terms), trace.counts)
        &&& trace.results.len() == trace.counts.len()
        &&& forall|i: int|
            0 <= i < trace.counts.len() ==> self.resolves(
                aut_builder,
                (#[trigger] trace.counts[i]).text,
                Ok(trace.results[i]),
            )
        &&& rank::is_ascending_order(lengths(found), trace.order)
        &&& trace.vector.norm == score::field_norm_of(sentence_len as int)
        &&& trace.vector.df@.len() == lists.len()
        &&& trace.vector.tf@.len() == lists.len()
        &&& forall|k: int|
            0 <= k < lists.len() ==> {
                &&& (#[trigger] trace.vector.df@[k]) == lists[k].len()
                &&& trace.vector.tf@[k] == score::tf_of(
                    trace.counts[found[trace.order[k] as int].0].count,
                )
            }
        &&& posting::views(trace.postings) == plan::merged(
            lists,
            lists.len(),
        )
        &&& trace.keys.len() == trace.postings.len()
        &&& forall|i: int|
            0 <= i < trace.postings.len() ==> call_ensures(
                *score,
                (&trace.vector, &trace.postings[i]),
                #[trigger] trace.keys[i],
            )
        &&& rank::is_descending_order(trace.keys, trace.ranks)
        &&& ids == ranked(trace.postings, trace.ranks).subrange(
            rank::page_of(trace.ranks.len() as int, range).0,
            rank::page_of(trace.ranks.len() as int, range).1,
        )
    }

    /// The query for the terms `terms` fails with `e`: each term is
    /// counted and resolved once, in the order in which the terms are
    /// first seen, `results` holds what the terms resolved to before the
    /// fault, and either the next term does not resolve and `e` is its
    /// fault, or all terms resolved, more of them have postings than a
    /// working set can count, and `e` is `OutOfRange`.
    pub open spec fn fails<F: Fn(&str) -> Option<Levenshtein>>(
        &self,
        counts: Seq<plan::QueryTerm>,
        results: Seq<Option<Seq<RawPosting>>>,
        terms: Seq<&str>,
        aut_builder: &F,
        e: Error,
    ) -> bool {
        &&& plan::counts_of(analyzer::texts(terms), counts)
        &&& results.len() <= counts.len()
        &&& forall|x: int|
            0 <= x < results.len() ==> self.resolves(
                aut_builder,
                (#[trigger] counts[x]).text,
                Ok(results[x]),
            )
        &&& if results.len() < counts.len() {
            self.resolves(aut_builder, counts[results.len() as int].text, Err(e))
        } else {
            e == Error::OutOfRange && hits(results).len() >= u32::MAX
        }
    }

    /// What a query for the terms `terms` can give: the documents that the
    /// steps of a query show, or the fault of the first term that does not
    /// resolve, or `OutOfRange` where more terms have postings than a
    /// working set can count.
    pub open spec fn answers<F: Fn(&str) -> Option<Levenshtein>, S: Fn(
        &QueryVector,
        &posting::Posting,
    ) -> u64>(
        &self,
        terms: Seq<&str>,
        sentence_len: usize,
        aut_builder: &F,
        score: &S,
        range: core::ops::Range<usize>,
        r: Result<Seq<u32>, Error>,
    ) -> bool {
        &&& r is Ok ==> exists|trace: Trace| #[trigger]
            self.follows(trace, terms, sentence_len, aut_builder, score, range, r->Ok_0)
        &&& r is Err ==> exists|
            counts: Seq<plan::QueryTerm>,
            results: Seq<Option<Seq<RawPosting>>>,
        | #[trigger]
            self.fails(counts, results, terms, aut_builder, r->Err_0)
    }
}

/// The documents of a result.
pub open spec fn shown(r: Result<Vec<u32>, Error>) -> Result<Seq<u32>, Error> {
    match r {
        Ok(ids) => Ok(ids@),
        Err(e) => Err(e),
    }
}


/// The terms with postings as specifications speak of them.
pub open spec fn found_view(found: Seq<(usize, RawPostingList)>) -> Seq<(int, Seq<RawPosting>)> {
    Seq::new(found.len(), |i: int| (found[i].0 as int, found[i].1@))
}

impl<'a, C, T, I> Query<'a, C, T, I> where C: CharFilter, T: TokenFilter, I: Tokenizer {
    /// Answers a query: the documents that hold terms of `sentence`, or
    /// terms that `aut_builder` lets match them, ranked by the keys that
    /// `score` gives them, best first; of the ranking the page `range` is
    /// shown. Which terms a sentence holds is the analyzer's to say;
    /// `query_terms` says what happens with them.
    pub fn query<F: Fn(&str) -> Option<Levenshtein>, S: Fn(
        &QueryVector,
        &posting::Posting,
    ) -> u64>(
        &self,
        sentence: &str,
        aut_builder: &F,
        score: &S,
        range: core::ops::Range<usize>,
    ) -> (r: Result<Vec<u32>, Error>)
        requires
            self.wf(),
            forall|word: &str| call_requires(*aut_builder, (word,)),
            forall|vector: &QueryVector, posting: &posting::Posting|
                call_requires(*score, (vector, posting)),
        ensures
            exists|terms: Vec<&str>|
                call_ensures(
                    Analyzer::<C, T, I>::analyze,
                    (&self.analyzer(), sentence),
                    Ok(terms),
                ) && #[trigger] self.answers(
                    terms@,
                    sentence@.len() as usize,
                    aut_builder,
                    score,
                    range,
                    shown(r),
                ),
    {
        let terms = self.analyzer.analyze(sentence).unwrap();
        let sentence_len = sentence.unicode_len();
        let r = self.query_terms(&terms, sentence_len, aut_builder, score, range);
        proof {
            assert(self.answers(
                terms@,
                sentence@.len() as usize,
                aut_builder,
                score,
                range,
                shown(r),
            ));
        }
        r
    }

    /// Answers a query for the terms `terms` of a sentence of
    /// `sentence_len` characters.
    pub fn query_terms<F: Fn(&str) -> Option<Levenshtein>, S: Fn(
        &QueryVector,
        &posting::Posting,
    ) -> u64>(
        &self,
        terms: &Vec<&str>,
        sentence_len: usize,
        aut_builder: &F,
        score: &S,
        range: core::ops::Range<usize>,
    ) -> (r: Result<Vec<u32>, Error>)
        requires
            self.wf(),
            forall|word: &str| call_requires(*aut_builder, (word,)),
            forall|vector: &QueryVector, posting: &posting::Posting|
                call_requires(*score, (vector, posting)),
        ensures
            self.answers(terms@, sentence_len, aut_builder, score, range, shown(r)),
    {
        let counts = plan::count_terms(terms);
        let mut found: Vec<(usize, RawPostingList<'a>)> = Vec::new();
        let ghost mut results: Seq<Option<Seq<RawPosting>>> = Seq::empty();
        let mut i: usize = 0;
        assert(found_view(found@) =~= hits(results));
        while i < counts.len()
            invariant
                self.wf(),
                forall|word: &str| call_requires(*aut_builder, (word,)),
                plan::counts_of(analyzer::texts(terms@), counts@),
                i <= counts@.len(),
                results.len() == i,
                found@.len() <= i,
                forall|x: int|
                    0 <= x < i ==> self.resolves(
                        aut_builder,
                        (#[trigger] counts@[x]).text,
                        Ok(results[x]),
                    ),
                found_view(found@) == hits(results),
                forall|x: int| 0 <= x < found@.len() ==> (#[trigger] found@[x]).1.wf(),
                forall|x: int| 0 <= x < found@.len() ==> (#[trigger] found@[x]).0 < counts@.len(),
            decreases counts@.len() - i,
        {
            let ghost before = results;
            let ghost seen = found_view(found@);
            match self.query_term_postings(counts[i].text, aut_builder) {
                Err(e) => {
                    proof {
                        assert(self.resolves(
                            aut_builder,
                            counts@[i as int].text,
                            Err::<Option<Seq<RawPosting>>, Error>(e),
                        ));
                        assert(self.fails(counts@, results, terms@, aut_builder, e));
                        let failed = Err::<Seq<u32>, Error>(e);
                        assert(self.fails(counts@, results, terms@, aut_builder, failed->Err_0));
                        assert(self.answers(
                            terms@,
                            sentence_len,
                            aut_builder,
                            score,
                            range,
                            failed,
                        ));
                    }
                    return Err(e);
                },
                Ok(None) => {
                    proof {
                        results = results.push(None);
                        assert(results.drop_last() =~= before);
                    }
                },
                Ok(Some(list)) => {
                    found.push((i, list));
                    proof {
                        results = results.push(Some(list@));
                        assert(results.drop_last() =~= before);
                        assert(found_view(found@) =~= seen.push((i as int, list@)));
                    }
                },
            }
            i += 1;
        }
        if found.len() >= u32::MAX as usize {
            proof {
                assert(hits(results).len() == found@.len());
                let failed = Err::<Seq<u32>, Error>(Error::OutOfRange);
                assert(self.fails(counts@, results, terms@, aut_builder, failed->Err_0));
                assert(self.answers(terms@, sentence_len, aut_builder, score, range, failed));
            }
            return Err(Error::OutOfRange);
        }
        let ghost hit = found_view(found@);
        let n = found.len();
        let mut lens: Vec<u64> = Vec::new();
        let mut i: usize = 0;
        while i < n
            invariant
                i <= n,
                n == found@.len(),
                hit == found_view(found@),
                forall|x: int| 0 <= x < found@.len() ==> (#[trigger] found@[x]).1.wf(),
                lens@.len() == i,
                forall|x: int| 0 <= x < i ==> #[trigger] lens@[x] == lengths(hit)[x],
            decreases n - i,
        {
            lens.push(found[i].1.len() as u64);
            i += 1;
        }
        assert(lens@ =~= lengths(hit));
        let order = rank::ascending_order(&lens);
        let ghost lists_spec = arranged(hit, order@);
        let mut lists: Vec<RawPostingList<'a>> = Vec::new();
        let mut df: Vec<u32> = Vec::new();
        let mut tf: Vec<u8> = Vec::new();
        let mut k: usize = 0;
        while k < n
            invariant
                k <= n,
                n == found@.len(),
                n == order@.len(),
                hit == found_view(found@),
                lists_spec == arranged(hit, order@),
                rank::is_ascending_order(lengths(hit), order@),
                forall|x: int| 0 <= x < found@.len() ==> (#[trigger] found@[x]).1.wf(),
                forall|x: int| 0 <= x < found@.len() ==> (#[trigger] found@[x]).0 < counts@.len(),
                lists@.len() == k,
                df@.len() == k,
                tf@.len() == k,
                forall|x: int| 0 <= x < k ==> (#[trigger] lists@[x]).wf(),
                forall|x: int| 0 <= x < k ==> (#[trigger] lists@[x])@ == lists_spec[x],
                forall|x: int| 0 <= x < k ==> (#[trigger] df@[x]) == lists_spec[x].len(),
                forall|x: int|
                    0 <= x < k ==> (#[trigger] tf@[x]) == score::tf_of(
                        counts@[hit[order@[x] as int].0].count,
                    ),
            decreases n - k,
        {
            let at = order[k];
            let term = found[at].0;
            let list = found[at].1;
            lists.push(list);
            df.push(list.len());
            tf.push(score::calc_tf(counts[term].count));
            k += 1;
        }
        assert(plan::list_views(lists@) =~= lists_spec);
        let merger = plan::merge_lists(&lists);
        let vector = QueryVector { df, tf, norm: score::field_norm(sentence_len) };
        let postings = merger.get_postings();
        let mut keys: Vec<u64> = Vec::new();
        let mut i: usize = 0;
        while i < postings.len()
            invariant
                i <= postings@.len(),
                keys@.len() == i,
                forall|v: &QueryVector, p: &posting::Posting|
                    call_requires(*score, (v, p)),
                forall|x: int|
                    0 <= x < i ==> call_ensures(
                        *score,
                        (&vector, &postings@[x]),
                        #[trigger] keys@[x],
                    ),
            decreases postings@.len() - i,
        {
            let key = score(&vector, &postings[i]);
            keys.push(key);
            i += 1;
        }
        let ranks = rank::descending_order(&keys);
        let mut ids: Vec<u32> = Vec::new();
        let mut i: usize = 0;
        while i < ranks.len()
            invariant
                i <= ranks@.len(),
                rank::is_descending_order(keys@, ranks@),
                keys@.len() == postings@.len(),
                ids@.len() == i,
                forall|x: int| 0 <= x < i ==> #[trigger] ids@[x] == ranked(postings@, ranks@)[x],
            decreases ranks@.len() - i,
        {
            ids.push(postings[ranks[i]].get_doc_id());
            i += 1;
        }
        assert(ids@ =~= ranked(postings@, ranks@));
        let page = rank::page(&ids, range);
        proof {
            let trace = Trace {
                results,
                order: order@,
                vector,
                postings: postings@,
                keys: keys@,
                ranks: ranks@,
                counts: counts@,
            };
            let shown = Ok::<Seq<u32>, Error>(page@);
            assert(self.follows(
                trace,
                terms@,
                sentence_len,
                aut_builder,
                score,
                range,
                shown->Ok_0,
            ));
            assert(self.answers(terms@, sentence_len, aut_builder, score, range, shown));
        }
        Ok(page)
    }
}


/// The two files that were written for an index open, and the index that
/// they open has the number of documents that was written.
pub proof fn lemma_written_files_open(
    image: Seq<u8>,
    doc_num: u32,
    lists: Seq<Seq<(u32, posting::BuildingPostingData)>>,
)
    requires
        term_index::image_opens(image),
        term_index::image_checks(image),
    ensures
        (layout::header(TERM_INDEX_MAGIC_NUMBER) + image).skip(9) == image,
        opened(
            layout::header(TERM_INDEX_MAGIC_NUMBER) + image,
            layout::dict_bytes(doc_num, lists),
        ) == Ok::<u32, Error>(doc_num),
{
    let index = layout::header(TERM_INDEX_MAGIC_NUMBER) + image;
    let dict = layout::dict_bytes(doc_num, lists);
    layout::lemma_header_accepted(TERM_INDEX_MAGIC_NUMBER, image);
    assert(index.skip(9) =~= image);
    let rest = bytes::u32_le(doc_num) + layout::blocks(lists);
    assert(dict =~= layout::header(TERM_DICT_MAGIC_NUMBER) + rest);
    layout::lemma_header_accepted(TERM_DICT_MAGIC_NUMBER, rest);
    bytes::lemma_u32_round_trip(doc_num);
    let count = bytes::u32_le(doc_num);
    let tail = dict.skip(9);
    assert(tail[0] == count[0] && tail[1] == count[1] && tail[2] == count[2] && tail[3]
        == count[3]);
}

/// After a build, a dictionary file whose first byte was changed does not
/// open: the term index is taken, and the dictionary is incompatible.
pub proof fn lemma_changed_dictionary(image: Seq<u8>, dict: Seq<u8>, changed: Seq<u8>)
    requires
        term_index::image_opens(image),
        term_index::image_checks(image),
        dict.len() >= 9,
        dict.take(9) == layout::header(TERM_DICT_MAGIC_NUMBER),
        changed.len() == dict.len(),
        changed[0] != dict[0],
    ensures
        opened(layout::header(TERM_INDEX_MAGIC_NUMBER) + image, changed) == Err::<u32, Error>(
            Error::Incompatible,
        ),
{
    let index = layout::header(TERM_INDEX_MAGIC_NUMBER) + image;
    layout::lemma_header_accepted(TERM_INDEX_MAGIC_NUMBER, image);
    assert(index.skip(9) =~= image);
    assert(changed.take(9)[0] != dict.take(9)[0]);
    layout::lemma_header_refused(changed, TERM_DICT_MAGIC_NUMBER);
}

/// A file of nine bytes or more that does not start with the magic number
/// and the version of a term dictionary does not open as one, whatever the
/// term index holds that the check of the term index lets through.
pub proof fn lemma_foreign_dictionary(index: Seq<u8>, dict: Seq<u8>)
    requires
        dict.len() >= 9,
        dict.take(9) != layout::header(TERM_DICT_MAGIC_NUMBER),
        layout::header_check(index, TERM_INDEX_MAGIC_NUMBER) is Ok,
        term_index::image_opens(index.skip(9)),
        term_index::image_checks(index.skip(9)),
    ensures
        opened(index, dict) == Err::<u32, Error>(Error::Incompatible),
{
    layout::lemma_header_refused(dict, TERM_DICT_MAGIC_NUMBER);
}

/// A file of nine bytes or more that does not start with the magic number
/// and the version of a term index does not open as one.
pub proof fn lemma_foreign_index(index: Seq<u8>, dict: Seq<u8>)
    requires
        index.len() >= 9,
        index.take(9) != layout::header(TERM_INDEX_MAGIC_NUMBER),
    ensures
        opened(index, dict) == Err::<u32, Error>(Error::Incompatible),
{
    layout::lemma_header_refused(index, TERM_INDEX_MAGIC_NUMBER);
}

impl<'a, C, T, I> Query<'a, C, T, I> where C: CharFilter, T: TokenFilter, I: Tokenizer {
    /// A query on the files that were written for a dictionary finds for
    /// each term of the dictionary, looked up itself, the postings of the
    /// term: one for each document that was counted for it, by strictly
    /// ascending identifier, with the compressed frequencies and the
    /// norms that were counted. For any other term it finds nothing.
    pub proof fn lemma_round_trip(
        &self,
        doc_num: u32,
        terms: Seq<Seq<char>>,
        lists: Seq<Seq<(u32, posting::BuildingPostingData)>>,
    )
        requires
            terms.len() == lists.len(),
            term::terms_increase(terms),
            forall|i: int|
                0 <= i < lists.len() ==> posting::keys_increase(#[trigger] lists[i]),
            forall|i: int| 0 <= i < lists.len() ==> 0 < (#[trigger] lists[i]).len() <= u32::MAX,
            layout::dict_bytes(doc_num, lists).len() <= u64::MAX,
            self.dict() == layout::dict_bytes(doc_num, lists),
            self.entries() == term_index::pairs_map(
                layout::term_offsets(terms, lists),
            ),
        ensures
            forall|i: int|
                0 <= i < terms.len() ==> {
                    &&& self.resolves_with(
                        None,
                        #[trigger] terms[i],
                        Ok(Some(posting::records_of(lists[i]))),
                    )
                    &&& posting::records_of(lists[i]).len() > 0
                    &&& posting::ids_increase(
                        posting::records_of(lists[i]),
                    )
                },
            forall|term: Seq<char>|
                !term::has_term(terms, term) ==> #[trigger] self.resolves_with(
                    None,
                    term,
                    Ok(None),
                ),
    {
        let pairs = layout::term_offsets(terms, lists);
        assert(term_index::pairs_increase(pairs));
        assert forall|i: int| 0 <= i < terms.len() implies {
            &&& self.resolves_with(
                None,
                #[trigger] terms[i],
                Ok(Some(posting::records_of(lists[i]))),
            )
            &&& posting::records_of(lists[i]).len() > 0
            &&& posting::ids_increase(posting::records_of(lists[i]))
        } by {
            term_index::lemma_pairs_map(pairs, i);
            layout::lemma_blocks_split(lists, i);
            layout::lemma_dictionary_round_trip(doc_num, lists, i);
            layout::lemma_records_increase(lists[i]);
            let key = term::term_key(terms[i]);
            assert(pairs[i].0 == key);
            let offset = layout::block_offset(lists, i);
            assert(0 <= offset <= u64::MAX);
            assert(self.entries()[key] == offset as u64);
        }
        assert forall|term: Seq<char>| !term::has_term(terms, term) implies #[trigger]
            self.resolves_with(None, term, Ok(None)) by {
            let key = term::term_key(term);
            if term_index::has_key(pairs, key) {
                let x = term_index::key_position(pairs, key);
                assert(pairs[x].0 == key);
                term::lemma_term_key(terms[x], term);
                assert(terms[x] == term);
            }
        }
    }
}

/// The index that `query` reads is the one that `builder` holds: its
/// dictionary is the file that the builder writes, and its term index
/// maps each term of the builder to the place of the term's posting list.
pub open spec fn reads_index_of<
    C: CharFilter,
    T: TokenFilter,
    I: Tokenizer,
    C1: CharFilter,
    T1: TokenFilter,
    I1: Tokenizer,
    C2: CharFilter,
    T2: TokenFilter,
    I2: Tokenizer,
>(query: Query<C, T, I>, builder: Builder<C1, T1, I1, C2, T2, I2>) -> bool {
    let terms = builder.dictionary().terms();
    let lists = builder.dictionary().lists();
    &&& query.wf()
    &&& query.doc_num() == builder.doc_num()
    &&& query.dict() == layout::dict_bytes(builder.doc_num(), lists)
    &&& query.entries() == term_index::pairs_map(layout::term_offsets(terms, lists))
}

/// Answers a query from the index that a builder holds: writes the two
/// files of the index, opens them, and asks. The files of a builder always
/// open, so that the answer is that of a query on them.
pub fn query_built<
    C: CharFilter,
    T: TokenFilter,
    I: Tokenizer,
    C1: CharFilter,
    T1: TokenFilter,
    I1: Tokenizer,
    C2: CharFilter,
    T2: TokenFilter,
    I2: Tokenizer,
    F: Fn(&str) -> Option<Levenshtein>,
    S: Fn(&QueryVector, &posting::Posting) -> u64,
>(
    builder: &Builder<C1, T1, I1, C2, T2, I2>,
    analyzer: Analyzer<C, T, I>,
    config: Config,
    sentence: &str,
    aut_builder: &F,
    score: &S,
    range: core::ops::Range<usize>,
) -> (r: Result<Vec<u32>, Error>)
    requires
        builder.wf(),
        forall|word: &str| call_requires(*aut_builder, (word,)),
        forall|vector: &QueryVector, entry: &posting::Posting|
            call_requires(*score, (vector, entry)),
    ensures
        exists|query: Query<C, T, I>, terms: Vec<&str>|
            reads_index_of(query, *builder) && query.analyzer() == analyzer
                && query.spec_config().boost_title() == config.boost_title()
                && query.spec_config().boost_content() == config.boost_content() && call_ensures(
                Analyzer::<C, T, I>::analyze,
                (&query.analyzer(), sentence),
                Ok(terms),
            ) && #[trigger] query.answers(
                terms@,
                sentence@.len() as usize,
                aut_builder,
                score,
                range,
                shown(r),
            ),
{
    let files = builder.finish().unwrap();
    proof {
        lemma_written_files_open(
            files.term_index@.skip(9),
            builder.doc_num(),
            builder.dictionary().lists(),
        );
    }
    let query = Query::new(
        analyzer,
        config,
        files.term_index.as_slice(),
        files.term_dict.as_slice(),
    ).unwrap();
    let r = query.query(sentence, aut_builder, score, range);
    proof {
        assert(reads_index_of(query, *builder));
    }
    r
}

} // verus!
