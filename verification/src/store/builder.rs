#[allow(unused_imports)]
use crate::analyzer::analyzer;
#[allow(unused_imports)]
use crate::store::{bytes, layout, order, path, posting, term, term_index};
use crate::analyzer::analyzer::Analyzer;
use crate::analyzer::char_filter::CharFilter;
use crate::analyzer::token_filter::TokenFilter;
use crate::analyzer::tokenizer::Tokenizer;
use crate::store::bytes::{write_u32, write_u64};
use crate::store::constants::{
    TERM_DICT_FILE_SUFFIX, TERM_DICT_MAGIC_NUMBER, TERM_INDEX_FILE_SUFFIX,
    TERM_INDEX_MAGIC_NUMBER, VERSION,
};
use crate::store::document::Document;
use crate::store::error::Error;
use crate::store::term_index::{index_builder, index_finish, index_insert};
use crate::store::path::{entry_path, file_name};
use crate::store::posting::{BuildingPostingData, BuildingPostingMap, PostingListBuilder};
use crate::store::term::BuildingTermDictionary;
use std::path::PathBuf;
use vstd::prelude::*;

verus! {

/// Where an index is written.
#[derive(Debug)]
pub struct Config<'a> {
    store_dir: PathBuf,
    identifier: &'a str,
}

impl<'a> Config<'a> {
    pub closed spec fn spec_store_dir(&self) -> PathBuf {
        self.store_dir
    }

    pub closed spec fn spec_identifier(&self) -> &'a str {
        self.identifier
    }

    pub fn new(store_dir: PathBuf, identifier: &'a str) -> (config: Self)
        ensures
            config.spec_store_dir() == store_dir,
            config.spec_identifier() == identifier,
    {
        Config { store_dir, identifier }
    }

    /// The name of the file of the index that has the suffix `suffix`.
    pub fn file_name(&self, suffix: &str) -> (name: String)
        ensures
            name@ == self.spec_identifier()@ + suffix@,
    {
        file_name(self.identifier, suffix)
    }

    /// The path of the file of the index that has the suffix `suffix`: the
    /// file named `file_name(suffix)` in the directory of the store. The
    /// contract says what was joined; how the platform writes the path is
    /// not stated.
    pub fn build_file_path(&self, suffix: &str) -> (file: PathBuf)
        ensures
            path::joins(self.spec_store_dir(), self.spec_identifier()@ + suffix@, file),
    {
        let name = self.file_name(suffix);
        entry_path(&self.store_dir, name.as_str())
    }

    /// The path of the term index; of the path the contract says only what
    /// was joined.
    pub fn term_index_path(&self) -> (file: PathBuf)
        ensures
            path::joins(
                self.spec_store_dir(),
                self.spec_identifier()@ + TERM_INDEX_FILE_SUFFIX@,
                file,
            ),
    {
        self.build_file_path(TERM_INDEX_FILE_SUFFIX)
    }

    /// The path of the term dictionary; of the path the contract says only
    /// what was joined.
    pub fn term_dict_path(&self) -> (file: PathBuf)
        ensures
            path::joins(
                self.spec_store_dir(),
                self.spec_identifier()@ + TERM_DICT_FILE_SUFFIX@,
                file,
            ),
    {
        self.build_file_path(TERM_DICT_FILE_SUFFIX)
    }
}

/// The two files of an index.
#[derive(Debug)]
pub struct IndexFiles {
    /// The term index: its header, then the image of the index.
    pub term_index: Vec<u8>,
    /// The term dictionary: its header, then the posting lists.
    pub term_dict: Vec<u8>,
}

/// The dictionary after one occurrence of each term of `terms` in a
/// document was counted, in the order of `terms`.
pub open spec fn terms_counted(
    dict: Map<Seq<char>, Map<u32, BuildingPostingData>>,
    terms: Seq<Seq<char>>,
    doc: &Document,
    is_title: bool,
) -> Map<Seq<char>, Map<u32, BuildingPostingData>>
    decreases terms.len(),
{
    if terms.len() == 0 {
        dict
    } else {
        term::dictionary_counted(
            terms_counted(dict, terms.drop_last(), doc, is_title),
            terms.last(),
            doc,
            is_title,
        )
    }
}

/// The dictionary after a document with the terms `title` in its title and
/// the terms `content` in its content was added.
pub open spec fn document_counted(
    dict: Map<Seq<char>, Map<u32, BuildingPostingData>>,
    doc: &Document,
    title: Seq<Seq<char>>,
    content: Seq<Seq<char>>,
) -> Map<Seq<char>, Map<u32, BuildingPostingData>> {
    terms_counted(terms_counted(dict, title, doc, true), content, doc, false)
}

/// Builds an index: it takes documents one by one and then writes the two
/// files.
#[derive(Debug)]
pub struct Builder<'a, C, T, I, C2, T2, I2> where
    C: CharFilter,
    T: TokenFilter,
    I: Tokenizer,
    C2: CharFilter,
    T2: TokenFilter,
    I2: Tokenizer,
 {
    title_analyzer: Analyzer<C, T, I>,
    content_analyzer: Analyzer<C2, T2, I2>,
    config: Config<'a>,
    dict: BuildingTermDictionary,
    doc_num: u32,
}

impl<'a, C, T, I, C2, T2, I2> Builder<'a, C, T, I, C2, T2, I2> where
    C: CharFilter,
    T: TokenFilter,
    I: Tokenizer,
    C2: CharFilter,
    T2: TokenFilter,
    I2: Tokenizer,
 {
    /// The terms and their postings.
    pub closed spec fn dictionary(&self) -> BuildingTermDictionary {
        self.dict
    }

    pub closed spec fn spec_doc_num(&self) -> u32 {
        self.doc_num
    }

    pub closed spec fn spec_config(&self) -> Config<'a> {
        self.config
    }

    /// The analyzer of the titles.
    pub closed spec fn title_analyzer(&self) -> Analyzer<C, T, I> {
        self.title_analyzer
    }

    /// The analyzer of the contents.
    pub closed spec fn content_analyzer(&self) -> Analyzer<C2, T2, I2> {
        self.content_analyzer
    }

    /// The dictionary is well formed, and no term has more postings than
    /// documents were added.
    pub open spec fn wf(&self) -> bool {
        &&& self.dictionary().wf()
        &&& forall|i: int|
            0 <= i < self.dictionary().lists().len() ==> (
            #[trigger] self.dictionary().lists()[i]).len() <= self.doc_num()
    }

    pub fn new(
        title_analyzer: Analyzer<C, T, I>,
        content_analyzer: Analyzer<C2, T2, I2>,
        config: Config<'a>,
    ) -> (builder: Self)
        ensures
            builder.wf(),
            builder.doc_num() == 0,
            builder.dictionary()@ == Map::<Seq<char>, Map<u32, BuildingPostingData>>::empty(),
            builder.title_analyzer() == title_analyzer,
            builder.content_analyzer() == content_analyzer,
            builder.spec_config() == config,
    {
        Builder {
            title_analyzer,
            content_analyzer,
            config,
            dict: BuildingTermDictionary::new(),
            doc_num: 0,
        }
    }

    /// Number of documents that were added.
    #[verifier::when_used_as_spec(spec_doc_num)]
    pub fn doc_num(&self) -> (n: u32)
        ensures
            n == self.spec_doc_num(),
    {
        self.doc_num
    }

    /// Where the index is written.
    pub fn config(&self) -> (config: &Config<'a>)
        ensures
            *config == self.spec_config(),
    {
        &self.config
    }

    /// `title` and `content` are what the two analyzers can give for the
    /// title and the content of `doc`.
    pub open spec fn analyzes(&self, doc: &Document, title: Vec<&str>, content: Vec<&str>) -> bool {
        &&& call_ensures(
            Analyzer::<C, T, I>::analyze,
            (&self.title_analyzer(), doc.title),
            Ok(title),
        )
        &&& call_ensures(
            Analyzer::<C2, T2, I2>::analyze,
            (&self.content_analyzer(), doc.content),
            Ok(content),
        )
    }

    /// Adds a document: it counts as one more document, and each term
    /// that the analyzers find in its title and in its content counts as
    /// one more occurrence. Which terms these are is the analyzers' to
    /// say; `add_terms` says what happens with them.
    pub fn add_document(&mut self, doc: Document) -> (r: Result<(), Error>)
        requires
            old(self).wf(),
            old(self).doc_num() < u32::MAX,
        ensures
            r is Ok,
            final(self).wf(),
            final(self).doc_num() == old(self).doc_num() + 1,
            final(self).title_analyzer() == old(self).title_analyzer(),
            final(self).content_analyzer() == old(self).content_analyzer(),
            exists|title: Vec<&str>, content: Vec<&str>| #[trigger]
                old(self).analyzes(&doc, title, content) && final(self).dictionary()@
                    == document_counted(
                    old(self).dictionary()@,
                    &doc,
                    analyzer::texts(title@),
                    analyzer::texts(content@),
                ),
    {
        let title = self.title_analyzer.analyze(doc.title).unwrap();
        let content = self.content_analyzer.analyze(doc.content).unwrap();
        self.add_terms(&doc, &title, &content);
        assert(old(self).analyzes(&doc, title, content));
        Ok(())
    }

    /// Adds a document whose title holds the terms `title` and whose
    /// content holds the terms `content`.
    pub fn add_terms(&mut self, doc: &Document, title: &Vec<&str>, content: &Vec<&str>)
        requires
            old(self).wf(),
            old(self).doc_num() < u32::MAX,
        ensures
            final(self).wf(),
            final(self).doc_num() == old(self).doc_num() + 1,
            final(self).title_analyzer() == old(self).title_analyzer(),
            final(self).content_analyzer() == old(self).content_analyzer(),
            final(self).dictionary()@ == document_counted(
                old(self).dictionary()@,
                doc,
                analyzer::texts(title@),
                analyzer::texts(content@),
            ),
    {
        let ghost base = self.doc_num as nat;
        self.doc_num += 1;
        self.add_field(doc, title, true, Ghost(base));
        self.add_field(doc, content, false, Ghost(base));
    }

    /// Counts one occurrence of each term of `terms` in one field of `doc`.
    fn add_field(
        &mut self,
        doc: &Document,
        terms: &Vec<&str>,
        is_title: bool,
        Ghost(base): Ghost<nat>,
    )
        requires
            old(self).dict.wf(),
            old(self).dict.within(doc.id, base),
        ensures
            final(self).dict.wf(),
            final(self).dict.within(doc.id, base),
            final(self).doc_num == old(self).doc_num,
            final(self).title_analyzer == old(self).title_analyzer,
            final(self).content_analyzer == old(self).content_analyzer,
            final(self).dict@ == terms_counted(
                old(self).dict@,
                analyzer::texts(terms@),
                doc,
                is_title,
            ),
    {
        let ghost all = analyzer::texts(terms@);
        let mut i: usize = 0;
        assert(all.take(0) =~= Seq::<Seq<char>>::empty());
        while i < terms.len()
            invariant
                i <= terms@.len(),
                all == analyzer::texts(terms@),
                self.dict.wf(),
                self.dict.within(doc.id, base),
                self.doc_num == old(self).doc_num,
                self.title_analyzer == old(self).title_analyzer,
                self.content_analyzer == old(self).content_analyzer,
                self.dict@ == terms_counted(old(self).dict@, all.take(i as int), doc, is_title),
            decreases terms@.len() - i,
        {
            proof {
                assert(all.take(i + 1).drop_last() =~= all.take(i as int));
                assert(all.take(i + 1).last() == terms@[i as int]@);
            }
            self.add_term(terms[i], doc, is_title);
            i += 1;
        }
        assert(all.take(terms@.len() as int) =~= all);
    }

    /// Counts one more occurrence of `term` in the title or in the content
    /// of `doc`.
    fn add_term(&mut self, term: &str, doc: &Document, is_title: bool) -> (r: Result<(), Error>)
        requires
            old(self).dict.wf(),
        ensures
            r is Ok,
            final(self).dict.wf(),
            final(self).doc_num == old(self).doc_num,
            final(self).title_analyzer == old(self).title_analyzer,
            final(self).content_analyzer == old(self).content_analyzer,
            final(self).dict@ == term::dictionary_counted(
                old(self).dict@,
                term@,
                doc,
                is_title,
            ),
            forall|base: nat|
                old(self).dict.within(doc.id, base) ==> #[trigger] final(self).dict.within(
                    doc.id,
                    base,
                ),
    {
        self.dict.add(term, doc, is_title);
        Ok(())
    }

    /// Writes the two files of the index. The term dictionary holds its
    /// header and then the posting list of each term, in the order of the
    /// terms. The term index holds its header and then the image of an
    /// index that maps the bytes of each term to the place where the
    /// term's posting list starts in the term dictionary.
    pub fn finish(&self) -> (r: Result<IndexFiles, Error>)
        requires
            self.wf(),
        ensures
            r matches Ok(files) && {
                let terms = self.dictionary().terms();
                let lists = self.dictionary().lists();
                let image = files.term_index@.skip(9);
                &&& files.term_dict@ == layout::dict_bytes(self.doc_num(), lists)
                &&& files.term_index@ == layout::header(TERM_INDEX_MAGIC_NUMBER) + image
                &&& files.term_index@.len() == 9 + image.len()
                &&& term_index::image_built(image)
                &&& term_index::image_opens(image)
                &&& term_index::image_checks(image)
                &&& term_index::image_entries(image) == term_index::pairs_map(
                    layout::term_offsets(terms, lists),
                )
            },
    {
        let ghost terms = self.dict.terms();
        let ghost lists = self.dict.lists();
        let ghost pairs = layout::term_offsets(terms, lists);
        let mut index_writer: Vec<u8> = Vec::new();
        let mut dict_writer: Vec<u8> = Vec::new();
        self.write_index_header(&mut index_writer);
        self.write_dict_header(&mut dict_writer);
        let mut fst_builder = index_builder();
        let n = self.dict.len();
        let mut i: usize = 0;
        assert(layout::blocks(lists.take(0)) =~= Seq::<u8>::empty());
        assert(dict_writer@ =~= layout::dict_header(self.doc_num)
            + layout::blocks(lists.take(0)));
        assert(term_index::builder_entries(fst_builder) =~= pairs.take(0));
        proof {
            bytes::lemma_u64_round_trip(TERM_DICT_MAGIC_NUMBER);
            bytes::lemma_u32_round_trip(self.doc_num);
        }
        while i < n
            invariant
                self.wf(),
                i <= n,
                n == terms.len(),
                n == lists.len(),
                terms == self.dict.terms(),
                lists == self.dict.lists(),
                pairs == layout::term_offsets(terms, lists),
                layout::dict_header(self.doc_num).len() == 13,
                term_index::builder_entries(fst_builder) == pairs.take(i as int),
                dict_writer@ == layout::dict_header(self.doc_num)
                    + layout::blocks(lists.take(i as int)),
            decreases n - i,
        {
            let dict_offset = dict_writer.len() as u64;
            let key = self.dict.term(i).as_bytes();
            proof {
                assert(dict_offset == layout::block_offset(lists, i as int));
                assert(pairs[i as int] == (key@, dict_offset));
                if i > 0 {
                    assert(pairs.take(i as int).last() == pairs[i - 1]);
                    assert(order::less(
                        term::term_key(terms[i - 1]),
                        term::term_key(terms[i as int]),
                    ));
                }
            }
            if !index_insert(&mut fst_builder, key, dict_offset) {
                return Err(Error::FstError);
            }
            self.write_dict(&mut dict_writer, self.dict.postings(i));
            proof {
                assert(pairs.take(i + 1) =~= pairs.take(i as int).push(pairs[i as int]));
                layout::lemma_blocks_step(lists, i as int);
                assert(dict_writer@ =~= layout::dict_header(self.doc_num)
                    + layout::blocks(lists.take(i + 1)));
            }
            i += 1;
        }
        assert(pairs.take(n as int) =~= pairs);
        assert(lists.take(n as int) =~= lists);
        let mut image = match index_finish(fst_builder) {
            Some(image) => image,
            None => {
                return Err(Error::FstError);
            },
        };
        let ghost head = index_writer@;
        let ghost tail = image@;
        index_writer.append(&mut image);
        proof {
            bytes::lemma_u64_round_trip(TERM_INDEX_MAGIC_NUMBER);
            assert(head.len() == 9);
            assert(index_writer@.skip(9) =~= tail);
        }
        Ok(IndexFiles { term_index: index_writer, term_dict: dict_writer })
    }

    /// Appends the header of a term index.
    fn write_index_header(&self, writer: &mut Vec<u8>) -> (r: u64)
        ensures
            r == 9,
            final(writer)@ == old(writer)@ + layout::header(TERM_INDEX_MAGIC_NUMBER),
    {
        write_u64(writer, TERM_INDEX_MAGIC_NUMBER);
        writer.push(VERSION);
        assert(writer@ =~= old(writer)@ + layout::header(TERM_INDEX_MAGIC_NUMBER));
        (64 + 8) / 8
    }

    /// Appends the header of a term dictionary.
    fn write_dict_header(&self, writer: &mut Vec<u8>) -> (r: u64)
        ensures
            r == 13,
            final(writer)@ == old(writer)@ + layout::dict_header(self.doc_num),
    {
        write_u64(writer, TERM_DICT_MAGIC_NUMBER);
        writer.push(VERSION);
        write_u32(writer, self.doc_num);
        assert(writer@ =~= old(writer)@ + layout::dict_header(self.doc_num));
        (64 + 8 + 32) / 8
    }

    /// Appends the posting list of one term and returns the number of
    /// bytes that it takes.
    fn write_dict(&self, writer: &mut Vec<u8>, data: &BuildingPostingMap) -> (len: u64)
        requires
            posting::entries_of(data@).len() <= u32::MAX,
        ensures
            len == 4 + 8 * posting::entries_of(data@).len(),
            final(writer)@ == old(writer)@ + posting::posting_block(
                posting::records_of(posting::entries_of(data@)),
            ),
    {
        let mut buffer: Vec<u8> = Vec::new();
        core::mem::swap(writer, &mut buffer);
        let mut builder = PostingListBuilder::new(buffer, data);
        let len = builder.finish().unwrap();
        *writer = builder.into_inner();
        len
    }
}


/// What counting the terms of one field of a document does to a term of
/// the dictionary. A term that does not stand in the field is left as it
/// was. A term that stands in it `n` times is held afterwards; in the
/// document it has `n` occurrences more in that field than before, a
/// document in which it was not counted before starting as a fresh
/// posting, and its postings for other documents are as they were.
pub proof fn lemma_terms_counted(
    dict: Map<Seq<char>, Map<u32, BuildingPostingData>>,
    terms: Seq<Seq<char>>,
    doc: &Document,
    is_title: bool,
    term: Seq<char>,
)
    ensures
        ({
            let after = terms_counted(dict, terms, doc, is_title);
            let n = analyzer::occurrences(terms, term);
            let prior = if dict.contains_key(term) {
                dict[term]
            } else {
                Map::<u32, BuildingPostingData>::empty()
            };
            let start = if prior.contains_key(doc.id) {
                prior[doc.id]
            } else {
                BuildingPostingData::fresh(doc)
            };
            &&& n == 0 ==> after.contains_key(term) == dict.contains_key(term)
            &&& n == 0 && dict.contains_key(term) ==> after[term] == dict[term]
            &&& n > 0 ==> after.contains_key(term)
            &&& n > 0 ==> after[term] == prior.insert(
                doc.id,
                posting::bumped_times(start, is_title, n),
            )
        }),
    decreases terms.len(),
{
    if terms.len() > 0 {
        let front = terms.drop_last();
        let last = terms.last();
        let mid = terms_counted(dict, front, doc, is_title);
        lemma_terms_counted(dict, front, doc, is_title, term);
        let after = terms_counted(dict, terms, doc, is_title);
        let prior = if dict.contains_key(term) {
            dict[term]
        } else {
            Map::<u32, BuildingPostingData>::empty()
        };
        let start = if prior.contains_key(doc.id) {
            prior[doc.id]
        } else {
            BuildingPostingData::fresh(doc)
        };
        let m = analyzer::occurrences(front, term);
        if last == term {
            let held = if mid.contains_key(term) {
                mid[term]
            } else {
                Map::<u32, BuildingPostingData>::empty()
            };
            assert(after[term] == term::counted(held, doc, is_title));
            if m == 0 {
                assert(held == prior);
                assert(posting::bumped_times(start, is_title, 0) == start);
                assert(posting::bumped_times(start, is_title, 1) == start.bumped(
                    is_title,
                ));
            } else {
                let b = posting::bumped_times(start, is_title, m);
                assert(held == prior.insert(doc.id, b));
                assert(after[term] =~= prior.insert(doc.id, b.bumped(is_title)));
            }
        }
    }
}

} // verus!
