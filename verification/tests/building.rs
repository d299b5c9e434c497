use raiden_search::analyzer::analyzer::Analyzer;
use raiden_search::analyzer::char_filter::{BasicCharFilter, CharFilter};
use raiden_search::analyzer::token_filter::BasicTokenFilter;
use raiden_search::analyzer::tokenizer::Tokenizer;
use raiden_search::store::builder::{Builder, Config};
use raiden_search::store::constants::{TERM_DICT_MAGIC_NUMBER, TERM_INDEX_MAGIC_NUMBER, VERSION};
use raiden_search::store::document::Document;
use std::path::PathBuf;

struct Spaces;

impl Tokenizer for Spaces {
    fn tokenize<'a>(&self, text: &'a str) -> Vec<&'a str> {
        text.split_whitespace().collect()
    }
}

struct FirstWord;

impl CharFilter for FirstWord {
    fn filter<'a>(&self, text: &'a str) -> &'a str {
        text.split(',').next().unwrap_or("")
    }
}

fn analyzer(stop_words: bool) -> Analyzer<BasicCharFilter, BasicTokenFilter, Spaces> {
    Analyzer::new(BasicCharFilter::new(), BasicTokenFilter::new(stop_words), Spaces)
}

#[test]
fn analyzer_runs_filter_tokenizer_and_token_filter() {
    let analyzer = Analyzer::new(FirstWord, BasicTokenFilter::new(true), Spaces);
    assert_eq!(analyzer.analyze("猫 的 cat 的, dog").unwrap(), vec!["猫", "cat"]);
    assert_eq!(analyzer.analyze("").unwrap(), Vec::<&str>::new());
    assert_eq!(BasicCharFilter::new().filter(" a b "), " a b ");
}

#[test]
fn dictionary_file_holds_header_and_blocks() {
    let mut builder = Builder::new(
        analyzer(false),
        analyzer(false),
        Config::new(PathBuf::from("store"), "test"),
    );
    builder
        .add_document(Document { id: 2, title: "b a", content: "a" })
        .unwrap();
    builder
        .add_document(Document { id: 1, title: "a", content: "" })
        .unwrap();
    assert_eq!(builder.doc_num(), 2);
    let files = builder.finish().unwrap();
    let mut expected = TERM_DICT_MAGIC_NUMBER.to_le_bytes().to_vec();
    expected.push(VERSION);
    expected.extend_from_slice(&[2, 0, 0, 0]);
    // "a": documents 1 and 2
    expected.extend_from_slice(&[2, 0, 0, 0]);
    expected.extend_from_slice(&[1, 0, 0, 0, 8, 0, 255, 0]);
    expected.extend_from_slice(&[2, 0, 0, 0, 8, 8, 147, 255]);
    // "b": document 2
    expected.extend_from_slice(&[1, 0, 0, 0]);
    expected.extend_from_slice(&[2, 0, 0, 0, 8, 0, 147, 255]);
    assert_eq!(files.term_dict, expected);
    let mut head = TERM_INDEX_MAGIC_NUMBER.to_le_bytes().to_vec();
    head.push(VERSION);
    assert_eq!(files.term_index[..9].to_vec(), head);
    let index = fst::Map::new(&files.term_index[9..]).unwrap();
    assert_eq!(index.len(), 2);
    assert_eq!(index.get("a"), Some(13));
    assert_eq!(index.get("b"), Some(33));
    assert_eq!(index.get("c"), None);
}

#[test]
fn documents_without_terms_count_as_documents() {
    let mut builder = Builder::new(
        analyzer(true),
        analyzer(true),
        Config::new(PathBuf::from("store"), "test"),
    );
    builder
        .add_document(Document { id: 1, title: "", content: "的 的" })
        .unwrap();
    builder
        .add_document(Document { id: 2, title: " ", content: "" })
        .unwrap();
    assert_eq!(builder.doc_num(), 2);
    let files = builder.finish().unwrap();
    assert_eq!(files.term_dict.len(), 13);
    assert_eq!(files.term_dict[9..].to_vec(), vec![2, 0, 0, 0]);
    let index = fst::Map::new(&files.term_index[9..]).unwrap();
    assert_eq!(index.len(), 0);
}

#[test]
fn given_terms_are_counted_as_the_analyzers_terms_are() {
    let config = || Config::new(PathBuf::from("store"), "test");
    let mut analyzed = Builder::new(analyzer(false), analyzer(false), config());
    let mut given = Builder::new(analyzer(false), analyzer(false), config());
    let doc = Document { id: 8, title: "x y x", content: "z x" };
    analyzed.add_document(doc).unwrap();
    given.add_terms(&doc, &vec!["x", "y", "x"], &vec!["z", "x"]);
    let (a, b) = (analyzed.finish().unwrap(), given.finish().unwrap());
    assert_eq!(a.term_dict, b.term_dict);
    assert_eq!(a.term_index, b.term_index);
    // "x": twice in the title, once in the content
    assert_eq!(a.term_dict[13..25].to_vec(), vec![1, 0, 0, 0, 8, 0, 0, 0, 11, 8, 114, 147]);
}
