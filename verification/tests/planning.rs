use raiden_search::analyzer::token_filter::{BasicTokenFilter, TokenFilter};
use raiden_search::query::plan::{count_terms, merge_lists, QueryTerm};
use raiden_search::query::query::{
    automaton_distance, check_term_dict, check_term_index, pick_match, same_text,
    Config as QueryConfig,
};
use raiden_search::query::rank::{ascending_order, descending_order, page};
use raiden_search::query::score::{calc_norm, TfIdfTermPriorityCalculator};
use raiden_search::store::builder::Config as BuildConfig;
use raiden_search::store::bytes::{write_u32, write_u64};
use raiden_search::store::constants::{
    TERM_DICT_FILE_SUFFIX, TERM_DICT_MAGIC_NUMBER, TERM_INDEX_FILE_SUFFIX,
    TERM_INDEX_MAGIC_NUMBER, VERSION,
};
use raiden_search::store::document::Document;
use raiden_search::store::error::Error;
use raiden_search::store::order::{place, Place};
use raiden_search::store::posting::RawPostingList;
use raiden_search::store::term::BuildingTermDictionary;
use std::path::PathBuf;

fn counts(terms: &[&str]) -> Vec<(String, u16)> {
    count_terms(&terms.to_vec())
        .iter()
        .map(|t: &QueryTerm| (t.text.to_string(), t.count))
        .collect()
}

#[test]
fn terms_are_counted_in_the_order_of_first_sight() {
    assert_eq!(
        counts(&["cat", "dog", "cat", "bird", "dog", "cat"]),
        vec![("cat".to_string(), 3), ("dog".to_string(), 2), ("bird".to_string(), 1)]
    );
    assert_eq!(counts(&[]), Vec::<(String, u16)>::new());
}

#[test]
fn term_count_stops_at_the_limit() {
    let mut terms = vec!["x"; 70_000];
    terms.push("y");
    assert_eq!(counts(&terms), vec![("x".to_string(), 65535), ("y".to_string(), 1)]);
}

#[test]
fn exact_match_is_picked_before_the_last() {
    let found = vec![("cat".to_string(), 10u64), ("cot".to_string(), 20), ("cut".to_string(), 30)];
    assert_eq!(pick_match("cot", &found), Some(20));
    assert_eq!(pick_match("cat", &found), Some(10));
    assert_eq!(pick_match("cit", &found), Some(30));
    assert_eq!(pick_match("cit", &Vec::new()), None);
}

#[test]
fn texts_are_compared_by_their_characters() {
    assert!(same_text("神里", "神里"));
    assert!(!same_text("神里", "神理"));
    assert!(!same_text("cat", "cats"));
    assert!(same_text("", ""));
}

#[test]
fn byte_strings_are_ordered_lexicographically() {
    assert_eq!(place(b"abc", b"abd"), Place::Before);
    assert_eq!(place(b"abd", b"abc"), Place::After);
    assert_eq!(place(b"ab", b"abc"), Place::Before);
    assert_eq!(place(b"abc", b"ab"), Place::After);
    assert_eq!(place(b"abc", b"abc"), Place::Same);
    assert_eq!(place(b"", b""), Place::Same);
    assert_eq!(place(b"", b"a"), Place::Before);
    assert_eq!(place(&[0xff], &[0x00, 0x01]), Place::After);
}

#[test]
fn order_is_stable_among_equal_keys() {
    let keys = vec![5u64, 1, 5, 0, 1, 9];
    assert_eq!(ascending_order(&keys), vec![3, 1, 4, 0, 2, 5]);
    assert_eq!(descending_order(&keys), vec![5, 0, 2, 1, 4, 3]);
    assert_eq!(ascending_order(&Vec::new()), Vec::<usize>::new());
    assert_eq!(descending_order(&vec![u64::MAX, 0, u64::MAX]), vec![0, 2, 1]);
}

#[test]
fn page_is_cut_from_the_ranking() {
    let ranked = vec![10u32, 20, 30, 40];
    assert_eq!(page(&ranked, 0..10), vec![10, 20, 30, 40]);
    assert_eq!(page(&ranked, 1..3), vec![20, 30]);
    assert_eq!(page(&ranked, 3..4), vec![40]);
    assert_eq!(page(&ranked, 4..9), Vec::<u32>::new());
    assert_eq!(page(&ranked, 2..2), Vec::<u32>::new());
    assert_eq!(page(&ranked, 3..1), Vec::<u32>::new());
    assert_eq!(page(&Vec::new(), 0..5), Vec::<u32>::new());
}

#[test]
fn lists_are_merged_one_after_the_other() {
    let first = [1u8, 0, 0, 0, 7, 0, 0, 0, 1, 2, 3, 4];
    let second = [2u8, 0, 0, 0, 3, 0, 0, 0, 5, 6, 7, 8, 7, 0, 0, 0, 9, 9, 9, 9];
    let lists = vec![
        RawPostingList::new(&first, 0).unwrap(),
        RawPostingList::new(&second, 0).unwrap(),
    ];
    let merger = merge_lists(&lists);
    assert_eq!(merger.merged_num(), 2);
    let ids: Vec<u32> = merger.get_postings().iter().map(|p| p.get_doc_id()).collect();
    assert_eq!(ids, vec![3, 7]);
    let seven = merger.get_postings()[1].get_term_priority_info();
    assert_eq!((seven[0].tf, seven[0].norm), ((1, 2), (3, 4)));
    assert_eq!((seven[1].tf, seven[1].norm), ((9, 9), (9, 9)));
    let three = merger.get_postings()[0].get_term_priority_info();
    assert_eq!((three[0].tf, three[0].norm), ((0, 0), (0, 0)));
    assert_eq!(merge_lists(&Vec::new()).len(), 0);
}

#[test]
fn numbers_are_written_least_significant_byte_first() {
    let mut out = vec![9u8];
    write_u32(&mut out, 0x0A0B0C0D);
    write_u64(&mut out, 0x0102030405060708);
    assert_eq!(out, vec![9, 0x0D, 0x0C, 0x0B, 0x0A, 8, 7, 6, 5, 4, 3, 2, 1]);
}

fn header(magic: u64, version: u8) -> Vec<u8> {
    let mut file = magic.to_le_bytes().to_vec();
    file.push(version);
    file
}

#[test]
fn header_of_the_right_kind_is_accepted() {
    let mut file = header(TERM_INDEX_MAGIC_NUMBER, VERSION);
    assert_eq!(check_term_index(&file), Ok(9));
    file.extend_from_slice(&[1, 2, 3]);
    assert_eq!(check_term_index(&file), Ok(9));
    assert_eq!(check_term_dict(&header(TERM_DICT_MAGIC_NUMBER, VERSION)), Ok(9));
}

#[test]
fn foreign_header_is_incompatible() {
    assert_ne!(TERM_INDEX_MAGIC_NUMBER, TERM_DICT_MAGIC_NUMBER);
    let index = header(TERM_INDEX_MAGIC_NUMBER, VERSION);
    let dict = header(TERM_DICT_MAGIC_NUMBER, VERSION);
    assert_eq!(check_term_index(&dict), Err(Error::Incompatible));
    assert_eq!(check_term_dict(&index), Err(Error::Incompatible));
    assert_eq!(
        check_term_index(&header(TERM_INDEX_MAGIC_NUMBER, VERSION + 1)),
        Err(Error::Incompatible)
    );
    assert_eq!(check_term_dict(&header(TERM_DICT_MAGIC_NUMBER, 0)), Err(Error::Incompatible));
    for i in 0..9 {
        let mut file = header(TERM_DICT_MAGIC_NUMBER, VERSION);
        file[i] ^= 1;
        assert_eq!(check_term_dict(&file), Err(Error::Incompatible));
    }
    assert_eq!(check_term_index(&[0u8; 8]), Err(Error::Incompatible));
}

#[test]
fn short_header_is_an_io_error() {
    let file = header(TERM_INDEX_MAGIC_NUMBER, VERSION);
    assert_eq!(check_term_index(&file[..8]), Err(Error::Io));
    assert_eq!(check_term_index(&file[..3]), Err(Error::Io));
    assert_eq!(check_term_index(&[]), Err(Error::Io));
}

#[test]
fn files_are_named_by_identifier_and_suffix() {
    let build = BuildConfig::new(PathBuf::from("store"), "test");
    assert_eq!(build.file_name(TERM_INDEX_FILE_SUFFIX), "test.term_index");
    assert_eq!(build.file_name(TERM_DICT_FILE_SUFFIX), "test.term_dict");
    assert_eq!(build.term_index_path(), PathBuf::from("store").join("test.term_index"));
    assert_eq!(build.build_file_path(".x"), PathBuf::from("store").join("test.x"));
    let query = QueryConfig::new(PathBuf::from("/var/store"), "main", 3, 1);
    assert_eq!(query.term_dict_path(), PathBuf::from("/var/store/main.term_dict"));
    assert_eq!((query.boost_title(), query.boost_content()), (3, 1));
    assert_ne!(TERM_INDEX_FILE_SUFFIX, TERM_DICT_FILE_SUFFIX);
}

#[test]
fn weight_is_the_boosted_sum_over_the_fields() {
    let calculator = TfIdfTermPriorityCalculator::new(100, 3, 1);
    assert_eq!(calculator.total_doc_num(), 100);
    assert_eq!(calculator.weight(8, 16, 255, 57), 8 * 255 * 3 + 16 * 57);
    assert_eq!(calculator.weight(0, 0, 255, 255), 0);
    let full = TfIdfTermPriorityCalculator::new(1, 255, 255);
    assert_eq!(full.weight(255, 255, 255, 255), 2 * 255 * 255 * 255);
}

#[test]
fn weight_grows_with_the_title() {
    let calculator = TfIdfTermPriorityCalculator::new(100, 1, 7);
    assert!(calculator.weight(8, 16, 100, 57) < calculator.weight(9, 16, 90, 57));
    let unboosted = TfIdfTermPriorityCalculator::new(100, 0, 7);
    assert_eq!(unboosted.weight(8, 16, 100, 57), unboosted.weight(9, 16, 90, 57));
}

#[test]
fn norm_is_the_same_for_the_same_length() {
    for len in [1usize, 2, 3, 10, 255, 65025, 65026, usize::MAX] {
        assert_eq!(calc_norm(len), calc_norm(len));
    }
    assert_eq!(calc_norm(1), 255);
    assert_eq!(calc_norm(2), 180);
    assert_eq!(calc_norm(4), 127);
    assert_eq!(calc_norm(65025), 1);
    assert_eq!(calc_norm(65026), 0);
    assert_eq!(calc_norm(usize::MAX), 0);
}

#[test]
fn stop_word_is_dropped_where_asked() {
    let dropping = BasicTokenFilter::new(true);
    let keeping = BasicTokenFilter::new(false);
    assert!(dropping.is_stop_word("的"));
    assert!(!dropping.is_stop_word("的的"));
    assert_eq!(dropping.filter("的"), None);
    assert_eq!(dropping.filter("cat"), Some("cat"));
    assert_eq!(keeping.filter("的"), Some("的"));
}

#[test]
fn dictionary_holds_terms_in_byte_order() {
    let doc = Document { id: 3, title: "t", content: "c" };
    let other = Document { id: 1, title: "t", content: "c" };
    let mut dict = BuildingTermDictionary::new();
    for term in ["dog", "cat", "神里", "cats", "cat", "", "Cat"] {
        dict.add(term, &doc, true);
    }
    dict.add("cat", &other, false);
    let terms: Vec<&str> = (0..dict.len()).map(|i| dict.term(i)).collect();
    assert_eq!(terms, vec!["", "Cat", "cat", "cats", "dog", "神里"]);
    let cat = dict.postings(2);
    let counted: Vec<(u32, u16, u16)> = cat
        .iter()
        .map(|(id, data)| (*id, data.freq_title(), data.freq_content()))
        .collect();
    assert_eq!(counted, vec![(1, 0, 1), (3, 2, 0)]);
}

#[test]
fn longer_terms_may_differ_by_one_edit() {
    assert_eq!(automaton_distance(""), 0);
    assert_eq!(automaton_distance("神里"), 0);
    assert_eq!(automaton_distance("cats"), 0);
    assert_eq!(automaton_distance("神里绫华人"), 1);
    assert_eq!(automaton_distance("catch"), 1);
}
