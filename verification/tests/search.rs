use fst::automaton::Levenshtein;
use raiden_search::analyzer::analyzer::Analyzer;
use raiden_search::analyzer::char_filter::BasicCharFilter;
use raiden_search::analyzer::token_filter::BasicTokenFilter;
use raiden_search::analyzer::tokenizer::Tokenizer;
use raiden_search::query::query::{query_built, Config as QueryConfig, Query, QueryVector};
use raiden_search::query::score::TfIdfTermPriorityCalculator;
use raiden_search::store::builder::{Builder, Config as BuildConfig, IndexFiles};
use raiden_search::store::document::Document;
use raiden_search::store::error::Error;
use raiden_search::store::posting::Posting;
use std::path::PathBuf;

struct Spaces;

impl Tokenizer for Spaces {
    fn tokenize<'a>(&self, text: &'a str) -> Vec<&'a str> {
        text.split_whitespace().collect()
    }
}

fn analyzer() -> Analyzer<BasicCharFilter, BasicTokenFilter, Spaces> {
    Analyzer::new(BasicCharFilter::new(), BasicTokenFilter::new(false), Spaces)
}

fn build(docs: &[(u32, &str, &str)]) -> IndexFiles {
    let mut builder = Builder::new(
        analyzer(),
        analyzer(),
        BuildConfig::new(PathBuf::from("store"), "test"),
    );
    for (id, title, content) in docs {
        builder
            .add_document(Document { id: *id, title, content })
            .unwrap();
    }
    builder.finish().unwrap()
}

fn pets() -> IndexFiles {
    build(&[
        (1, "cat", "a cat sat"),
        (2, "dog", "a dog ran"),
        (3, "cat and dog", "cats chase dogs"),
    ])
}

fn idf(df: u32, total: u32) -> f64 {
    1f64 + f64::ln(total as f64 / (df as f64 + 1f64))
}

fn cosine(a: &[f64], b: &[f64]) -> f64 {
    let (mut product, mut sum_a, mut sum_b) = (0f64, 0f64, 0f64);
    for i in 0..a.len() {
        product += a[i] * b[i];
        sum_a += a[i] * a[i];
        sum_b += b[i] * b[i];
    }
    if sum_a == 0f64 || sum_b == 0f64 {
        return 0f64;
    }
    product / (sum_a.sqrt() * sum_b.sqrt())
}

fn key_of(calculator: TfIdfTermPriorityCalculator, vector: &QueryVector, posting: &Posting) -> u64 {
    let total = calculator.total_doc_num();
    let infos = posting.get_term_priority_info();
    let mut q = Vec::new();
    let mut d = Vec::new();
    for i in 0..infos.len() {
        let tf = vector.tf[i];
        let w = idf(vector.df[i], total);
        q.push(w * calculator.weight(tf, tf, vector.norm, vector.norm) as f64);
        d.push(
            w * calculator.weight(infos[i].tf.0, infos[i].tf.1, infos[i].norm.0, infos[i].norm.1)
                as f64,
        );
    }
    let c = cosine(&q, &d);
    if c > 0f64 {
        c.to_bits()
    } else {
        0
    }
}

fn ask(
    files: &IndexFiles,
    sentence: &str,
    distance: Option<u32>,
    range: std::ops::Range<usize>,
) -> Result<Vec<u32>, Error> {
    let query = Query::new(
        analyzer(),
        QueryConfig::new(PathBuf::from("store"), "test", 3, 1),
        &files.term_index,
        &files.term_dict,
    )?;
    let calculator = query.calculator();
    query.query(
        sentence,
        &|w: &str| match distance {
            None => None,
            Some(d) => Levenshtein::new(w, d).ok(),
        },
        &|vector: &QueryVector, posting: &Posting| key_of(calculator, vector, posting),
        range,
    )
}

#[test]
fn single_term_exact_match() {
    let found = ask(&pets(), "cat", None, 0..10).unwrap();
    assert_eq!(found, vec![1, 3]);
}

#[test]
fn unknown_term_finds_nothing() {
    let found = ask(&pets(), "zzz", None, 0..10).unwrap();
    assert_eq!(found, Vec::<u32>::new());
}

#[test]
fn empty_sentence_finds_nothing() {
    let found = ask(&pets(), "", None, 0..10).unwrap();
    assert_eq!(found, Vec::<u32>::new());
}

#[test]
fn two_terms_are_united() {
    let found = ask(&pets(), "cat dog", None, 0..10).unwrap();
    assert_eq!(found.len(), 3);
    assert_eq!(found[0], 3);
    let mut sorted = found.clone();
    sorted.sort();
    assert_eq!(sorted, vec![1, 2, 3]);
}

#[test]
fn page_skips_the_top_result() {
    let all = ask(&pets(), "cat dog", None, 0..10).unwrap();
    let page = ask(&pets(), "cat dog", None, 1..3).unwrap();
    assert_eq!(page, all[1..3].to_vec());
}

#[test]
fn page_is_clipped_to_the_results() {
    let all = ask(&pets(), "cat dog", None, 0..10).unwrap();
    assert_eq!(ask(&pets(), "cat dog", None, 2..100).unwrap(), all[2..].to_vec());
    assert_eq!(ask(&pets(), "cat dog", None, 3..100).unwrap(), Vec::<u32>::new());
    assert_eq!(ask(&pets(), "cat dog", None, 2..1).unwrap(), Vec::<u32>::new());
}

#[test]
fn repeated_term_is_merged_once() {
    let found = ask(&pets(), "cat cat cat", None, 0..10).unwrap();
    assert_eq!(found, vec![1, 3]);
}

#[test]
fn fuzzy_match_within_one_edit() {
    let files = build(&[(1, "神里", "...")]);
    assert_eq!(ask(&files, "神乐", Some(1), 0..10).unwrap(), vec![1]);
    assert_eq!(ask(&files, "神乐", Some(0), 0..10).unwrap(), Vec::<u32>::new());
    assert_eq!(ask(&files, "神乐", None, 0..10).unwrap(), Vec::<u32>::new());
    assert_eq!(ask(&files, "神里", Some(0), 0..10).unwrap(), vec![1]);
    assert_eq!(ask(&files, "神里", None, 0..10).unwrap(), vec![1]);
}

#[test]
fn fuzzy_match_of_plain_letters() {
    let files = build(&[(7, "search", "engine"), (9, "starch", "engine")]);
    assert_eq!(ask(&files, "serch", Some(1), 0..10).unwrap(), vec![7]);
    assert_eq!(ask(&files, "serch", Some(0), 0..10).unwrap(), Vec::<u32>::new());
    assert_eq!(ask(&files, "engines", Some(1), 0..10).unwrap(), vec![7, 9]);
}

#[test]
fn exact_term_wins_over_other_matches() {
    let files = build(&[(1, "cat", "x"), (2, "cot", "x"), (3, "cut", "x")]);
    assert_eq!(ask(&files, "cot", Some(1), 0..10).unwrap(), vec![2]);
}

#[test]
fn last_match_is_taken_without_an_exact_one() {
    let files = build(&[(1, "cat", "x"), (3, "cut", "x")]);
    assert_eq!(ask(&files, "cot", Some(1), 0..10).unwrap(), vec![3]);
}

#[test]
fn corrupt_dictionary_is_incompatible() {
    let mut files = pets();
    files.term_dict[0] ^= 0xff;
    assert_eq!(ask(&files, "cat", None, 0..10), Err(Error::Incompatible));
}

#[test]
fn corrupt_index_header_is_incompatible() {
    let mut files = pets();
    files.term_index[8] = files.term_index[8].wrapping_add(1);
    assert_eq!(ask(&files, "cat", None, 0..10), Err(Error::Incompatible));
}

#[test]
fn corrupt_index_image_is_refused() {
    let mut files = pets();
    let last = files.term_index.len() - 1;
    files.term_index[last] ^= 0xff;
    assert_eq!(ask(&files, "cat", None, 0..10), Err(Error::FstError));
}

#[test]
fn truncated_files_do_not_open() {
    let files = pets();
    let cut = IndexFiles {
        term_index: files.term_index[..5].to_vec(),
        term_dict: files.term_dict.clone(),
    };
    assert_eq!(ask(&cut, "cat", None, 0..10), Err(Error::Io));
    let cut = IndexFiles {
        term_index: files.term_index.clone(),
        term_dict: files.term_dict[..11].to_vec(),
    };
    assert_eq!(ask(&cut, "cat", None, 0..10), Err(Error::Io));
}

#[test]
fn every_term_resolves_to_its_documents() {
    let files = pets();
    let query = Query::new(
        analyzer(),
        QueryConfig::new(PathBuf::from("store"), "test", 3, 1),
        &files.term_index,
        &files.term_dict,
    )
    .unwrap();
    assert_eq!(query.doc_num(), 3);
    let none = |_: &str| -> Option<Levenshtein> { None };
    let expect: [(&str, Vec<(u32, (u8, u8))>); 5] = [
        ("cat", vec![(1, (8, 8)), (3, (8, 0))]),
        ("dog", vec![(2, (8, 8)), (3, (8, 0))]),
        ("a", vec![(1, (0, 8)), (2, (0, 8))]),
        ("and", vec![(3, (8, 0))]),
        ("cats", vec![(3, (0, 8))]),
    ];
    for (term, postings) in expect.iter() {
        let list = query.query_term_postings(term, &none).unwrap().unwrap();
        assert_eq!(list.len() as usize, postings.len());
        for (i, (id, tf)) in postings.iter().enumerate() {
            assert_eq!(list.get_doc_id(i as u32), Ok(*id));
            assert_eq!(list.get_tf(i as u32), Ok(*tf));
        }
        assert_eq!(list.get_doc_id(postings.len() as u32), Err(Error::OutOfRange));
    }
    assert!(query.query_term_postings("bird", &none).unwrap().is_none());
}

#[test]
fn written_posting_lists_are_sorted() {
    let files = build(&[(9, "a b", "c"), (3, "b", "a"), (7, "a", "a b c"), (1, "c", "")]);
    let query = Query::new(
        analyzer(),
        QueryConfig::new(PathBuf::from("store"), "test", 3, 1),
        &files.term_index,
        &files.term_dict,
    )
    .unwrap();
    let none = |_: &str| -> Option<Levenshtein> { None };
    for (term, ids) in [("a", vec![3u32, 7, 9]), ("b", vec![3, 7, 9]), ("c", vec![1, 7, 9])] {
        let list = query.query_term_postings(term, &none).unwrap().unwrap();
        assert!(list.is_sorted());
        let found: Vec<u32> = (0..list.len()).map(|i| list.get_doc_id(i).unwrap()).collect();
        assert_eq!(found, ids);
    }
}

#[test]
fn higher_title_score_ranks_first() {
    let files = build(&[(1, "x filler filler filler", "cat"), (2, "cat", "x")]);
    let found = ask(&files, "cat x", None, 0..10).unwrap();
    assert_eq!(found.len(), 2);
    let calculator = TfIdfTermPriorityCalculator::new(2, 3, 1);
    let low = idf(2, 2) * calculator.weight(8, 0, 53, 147) as f64;
    let high = idf(2, 2) * calculator.weight(8, 0, 147, 255) as f64;
    assert!(low < high);
}

#[test]
fn builder_answers_as_its_files_do() {
    let docs = [
        (1, "cat", "a cat sat"),
        (2, "dog", "a dog ran"),
        (3, "cat and dog", "cats chase dogs"),
    ];
    let mut builder = Builder::new(
        analyzer(),
        analyzer(),
        BuildConfig::new(PathBuf::from("store"), "test"),
    );
    for (id, title, content) in docs {
        builder
            .add_document(Document { id, title, content })
            .unwrap();
    }
    let calculator = TfIdfTermPriorityCalculator::new(builder.doc_num(), 3, 1);
    let none = |_: &str| -> Option<Levenshtein> { None };
    let scorer = |vector: &QueryVector, posting: &Posting| key_of(calculator, vector, posting);
    for sentence in ["cat", "cat dog", "zzz", "a cats"] {
        let direct = query_built(
            &builder,
            analyzer(),
            QueryConfig::new(PathBuf::from("store"), "test", 3, 1),
            sentence,
            &none,
            &scorer,
            0..10,
        );
        assert_eq!(direct, ask(&pets(), sentence, None, 0..10));
    }
    let found = query_built(
        &builder,
        analyzer(),
        QueryConfig::new(PathBuf::from("store"), "test", 3, 1),
        "cat dog",
        &none,
        &scorer,
        0..1,
    );
    assert_eq!(found, Ok(vec![3]));
}

#[test]
fn first_term_that_fails_gives_the_error() {
    let mut files = build(&[(1, "a", "b")]);
    // the posting list of "a" says that it is empty, that of "b" is cut off
    assert_eq!(files.term_dict.len(), 13 + 12 + 12);
    files.term_dict[13] = 0;
    files.term_dict.truncate(13 + 12 + 2);
    assert_eq!(ask(&files, "a b", None, 0..10), Err(Error::OutOfRange));
    assert_eq!(ask(&files, "b a", None, 0..10), Err(Error::Io));
    assert_eq!(ask(&files, "zzz a", None, 0..10), Err(Error::OutOfRange));
    assert_eq!(ask(&files, "zzz", None, 0..10), Ok(Vec::new()));
}
