use raiden_search::query::score::{calc_tf, field_norm};
use raiden_search::store::document::Document;
use raiden_search::store::error::Error;
use raiden_search::store::posting::{
    BuildingPostingData, BuildingPostingMap, PostingListBuilder, PostingListMerger,
    RawPostingList, TermPriorityInfo,
};
use raiden_search::store::term::BuildingTermData;

fn block(postings: &[(u32, (u8, u8), (u8, u8))]) -> Vec<u8> {
    let mut bytes = (postings.len() as u32).to_le_bytes().to_vec();
    for (id, tf, norm) in postings {
        bytes.extend_from_slice(&id.to_le_bytes());
        bytes.extend_from_slice(&[tf.0, tf.1, norm.0, norm.1]);
    }
    bytes
}

fn contents(merger: &PostingListMerger) -> Vec<(u32, Vec<TermPriorityInfo>)> {
    merger
        .get_postings()
        .iter()
        .map(|p| (p.get_doc_id(), p.get_term_priority_info().clone()))
        .collect()
}

fn info(tf: (u8, u8), norm: (u8, u8)) -> TermPriorityInfo {
    TermPriorityInfo::new(tf, norm)
}

fn zero() -> TermPriorityInfo {
    TermPriorityInfo::not_exist()
}

#[test]
fn fresh_posting_data_takes_the_norms_of_the_fields() {
    let doc = Document { id: 5, title: "猫咪", content: "a cat sat on the mat" };
    let data = BuildingPostingData::new(&doc);
    assert_eq!(data.freq_title(), 0);
    assert_eq!(data.freq_content(), 0);
    assert_eq!(data.norm_title(), 180);
    assert_eq!(data.norm_content(), 57);
}

#[test]
fn empty_field_has_norm_zero() {
    let doc = Document { id: 5, title: "", content: "x" };
    let data = BuildingPostingData::new(&doc);
    assert_eq!(data.norm_title(), 0);
    assert_eq!(data.norm_content(), 255);
    assert_eq!(field_norm(0), 0);
}

#[test]
fn frequencies_count_up_and_stop_at_the_limit() {
    let doc = Document { id: 1, title: "t", content: "c" };
    let mut data = BuildingPostingData::new(&doc);
    data.add_tf(true);
    data.add_tf(false);
    data.add_tf(false);
    assert_eq!((data.freq_title(), data.freq_content()), (1, 2));
    for _ in 0..70_000 {
        data.add_tf(true);
    }
    assert_eq!((data.freq_title(), data.freq_content()), (65535, 2));
    assert_eq!(data.norm_title(), 255);
}

#[test]
fn term_data_counts_by_document() {
    let first = Document { id: 9, title: "cat", content: "a cat" };
    let second = Document { id: 4, title: "cat cat", content: "" };
    let mut data = BuildingTermData::new();
    data.add_posting(&first, true);
    data.add_posting(&first, false);
    data.add_posting(&second, true);
    data.add_posting(&second, true);
    let map = data.get_posting_map();
    assert_eq!(map.len(), 2);
    let counted = map[&4];
    assert_eq!((counted.freq_title(), counted.freq_content()), (2, 0));
    assert_eq!((counted.norm_title(), counted.norm_content()), (96, 0));
    let counted = map[&9];
    assert_eq!((counted.freq_title(), counted.freq_content()), (1, 1));
    assert_eq!(map.keys().copied().collect::<Vec<u32>>(), vec![4, 9]);
    assert_eq!(map.get(&5), None);
}

#[test]
fn posting_map_keeps_ascending_identifiers() {
    let doc = Document { id: 0, title: "t", content: "c" };
    let data = BuildingPostingData::new(&doc);
    let mut map = BuildingPostingMap::new();
    for id in [7u32, 3, 9, 3, 1, 8] {
        map.insert(id, data);
    }
    let ids: Vec<u32> = map.keys().copied().collect();
    assert_eq!(ids, vec![1, 3, 7, 8, 9]);
}

#[test]
fn writer_emits_count_and_records() {
    let first = Document { id: 0x01020304, title: "cat", content: "a cat" };
    let second = Document { id: 2, title: "cat cat", content: "" };
    let mut data = BuildingTermData::new();
    data.add_posting(&first, true);
    data.add_posting(&first, false);
    for _ in 0..4 {
        data.add_posting(&second, true);
    }
    let mut builder = PostingListBuilder::new(vec![0xAA], data.get_posting_map());
    assert_eq!(builder.finish(), Ok(20));
    let bytes = builder.into_inner();
    assert_eq!(
        bytes,
        vec![
            0xAA, 2, 0, 0, 0, 2, 0, 0, 0, 16, 0, 96, 0, 4, 3, 2, 1, 8, 8, 147, 114
        ]
    );
    assert_eq!(calc_tf(4), 16);
}

#[test]
fn writer_of_no_postings_emits_the_count_only() {
    let map = BuildingPostingMap::new();
    let mut builder = PostingListBuilder::new(Vec::new(), &map);
    assert_eq!(builder.finish(), Ok(4));
    assert_eq!(builder.into_inner(), vec![0, 0, 0, 0]);
}

#[test]
fn reader_decodes_what_the_writer_wrote() {
    let first = Document { id: 300, title: "cat", content: "a cat" };
    let second = Document { id: 70000, title: "cat cat", content: "" };
    let mut data = BuildingTermData::new();
    data.add_posting(&first, true);
    data.add_posting(&second, true);
    data.add_posting(&second, true);
    let mut builder = PostingListBuilder::new(vec![1, 2, 3], data.get_posting_map());
    builder.finish().unwrap();
    let mut bytes = builder.into_inner();
    bytes.extend_from_slice(&[9, 9]);
    let list = RawPostingList::new(&bytes, 3).unwrap();
    assert_eq!(list.len(), 2);
    assert_eq!(list.get_doc_id(0), Ok(300));
    assert_eq!(list.get_tf(0), Ok((8, 0)));
    assert_eq!(list.get_norm(0), Ok((147, 114)));
    assert_eq!(list.get_doc_id(1), Ok(70000));
    assert_eq!(list.get_tf(1), Ok((11, 0)));
    assert_eq!(list.get_norm(1), Ok((96, 0)));
}

#[test]
fn reader_refuses_indexes_beyond_the_list() {
    let bytes = block(&[(1, (1, 2), (3, 4)), (5, (6, 7), (8, 9))]);
    let list = RawPostingList::new(&bytes, 0).unwrap();
    assert_eq!(list.get_doc_id(2), Err(Error::OutOfRange));
    assert_eq!(list.get_tf(2), Err(Error::OutOfRange));
    assert_eq!(list.get_norm(u32::MAX), Err(Error::OutOfRange));
    assert_eq!(list.get_norm(1), Ok((8, 9)));
}

#[test]
fn reader_refuses_empty_and_truncated_blocks() {
    assert_eq!(RawPostingList::new(&[0, 0, 0, 0], 0).err(), Some(Error::OutOfRange));
    let mut bytes = block(&[(1, (1, 2), (3, 4)), (5, (6, 7), (8, 9))]);
    bytes.pop();
    assert_eq!(RawPostingList::new(&bytes, 0).err(), Some(Error::OutOfRange));
    assert_eq!(RawPostingList::new(&[0xff, 0xff, 0xff, 0xff], 0).err(), Some(Error::OutOfRange));
    assert_eq!(RawPostingList::new(&[1, 0, 0], 0).err(), Some(Error::Io));
    let one = [1, 0, 0, 0, 1, 2, 3, 4, 5, 6, 7, 8];
    assert_eq!(RawPostingList::new(&one, 9).err(), Some(Error::Io));
    assert_eq!(RawPostingList::new(&[1, 0, 0, 0], u64::MAX).err(), Some(Error::Io));
    assert!(RawPostingList::new(&[1, 0, 0, 0, 1, 2, 3, 4, 5, 6, 7, 8], 0).is_ok());
}

#[test]
fn union_with_the_empty_set_gives_the_list() {
    let bytes = block(&[(2, (1, 1), (2, 2)), (4, (3, 3), (4, 4)), (9, (5, 5), (6, 6))]);
    let list = RawPostingList::new(&bytes, 0).unwrap();
    let mut merger = PostingListMerger::new();
    assert_eq!(merger.union(&list), Ok(()));
    assert_eq!(merger.len(), 3);
    assert_eq!(merger.merged_num(), 1);
    assert_eq!(
        contents(&merger),
        vec![
            (2, vec![info((1, 1), (2, 2))]),
            (4, vec![info((3, 3), (4, 4))]),
            (9, vec![info((5, 5), (6, 6))]),
        ]
    );
}

#[test]
fn union_marks_what_each_side_lacks() {
    let first = block(&[(2, (1, 1), (2, 2)), (4, (3, 3), (4, 4)), (9, (5, 5), (6, 6))]);
    let second = block(&[(1, (7, 7), (8, 8)), (4, (9, 9), (10, 10)), (12, (11, 11), (12, 12))]);
    let mut merger = PostingListMerger::new();
    merger.union(&RawPostingList::new(&first, 0).unwrap()).unwrap();
    merger.union(&RawPostingList::new(&second, 0).unwrap()).unwrap();
    assert_eq!(merger.merged_num(), 2);
    assert_eq!(
        contents(&merger),
        vec![
            (1, vec![zero(), info((7, 7), (8, 8))]),
            (2, vec![info((1, 1), (2, 2)), zero()]),
            (4, vec![info((3, 3), (4, 4)), info((9, 9), (10, 10))]),
            (9, vec![info((5, 5), (6, 6)), zero()]),
            (12, vec![zero(), info((11, 11), (12, 12))]),
        ]
    );
}

#[test]
fn union_twice_repeats_the_entry() {
    let first = block(&[(2, (1, 1), (2, 2)), (9, (5, 5), (6, 6))]);
    let second = block(&[(1, (7, 7), (8, 8)), (9, (9, 9), (10, 10))]);
    let list = RawPostingList::new(&second, 0).unwrap();
    let mut merger = PostingListMerger::new();
    merger.union(&RawPostingList::new(&first, 0).unwrap()).unwrap();
    merger.union(&list).unwrap();
    let once = contents(&merger);
    merger.union(&list).unwrap();
    let twice = contents(&merger);
    assert_eq!(once.len(), twice.len());
    for (a, b) in once.iter().zip(twice.iter()) {
        assert_eq!(a.0, b.0);
        let mut repeated = a.1.clone();
        repeated.push(a.1[a.1.len() - 1]);
        assert_eq!(b.1, repeated);
    }
    assert_eq!(twice[1], (2, vec![info((1, 1), (2, 2)), zero(), zero()]));
}

fn intersected(
    set: &[u8],
    list: &[u8],
    how: fn(&mut PostingListMerger, &RawPostingList) -> Result<(), Error>,
) -> Vec<(u32, Vec<TermPriorityInfo>)> {
    let mut merger = PostingListMerger::new();
    merger.union(&RawPostingList::new(set, 0).unwrap()).unwrap();
    how(&mut merger, &RawPostingList::new(list, 0).unwrap()).unwrap();
    assert_eq!(merger.merged_num(), 2);
    contents(&merger)
}

#[test]
fn intersection_keeps_the_documents_of_both() {
    let first = block(&[
        (2, (1, 1), (2, 2)),
        (4, (3, 3), (4, 4)),
        (9, (5, 5), (6, 6)),
        (11, (1, 0), (0, 1)),
    ]);
    let second = block(&[
        (1, (7, 7), (8, 8)),
        (4, (9, 9), (10, 10)),
        (11, (11, 11), (12, 12)),
        (12, (1, 1), (1, 1)),
    ]);
    let expected = vec![
        (4, vec![info((3, 3), (4, 4)), info((9, 9), (10, 10))]),
        (11, vec![info((1, 0), (0, 1)), info((11, 11), (12, 12))]),
    ];
    assert_eq!(intersected(&first, &second, PostingListMerger::intersection_by_stitch), expected);
    assert_eq!(intersected(&first, &second, PostingListMerger::intersection_by_search), expected);
    assert_eq!(intersected(&first, &second, PostingListMerger::intersection), expected);
}

#[test]
fn intersection_strategies_agree_for_any_size_ratio() {
    let long: Vec<(u32, (u8, u8), (u8, u8))> = (0..400u32)
        .map(|i| (i * 3, ((i % 251) as u8, 1), (2, (i % 7) as u8)))
        .collect();
    let long = block(&long);
    for set in [
        vec![(0u32, (1u8, 1u8), (1u8, 1u8))],
        vec![(1, (1, 1), (1, 1)), (3, (2, 2), (2, 2)), (1197, (3, 3), (3, 3))],
        vec![(5, (1, 1), (1, 1)), (2000, (2, 2), (2, 2))],
        (0..700u32).map(|i| (i * 2, (1, 1), (1, 1))).collect(),
    ] {
        let set = block(&set);
        let stitched = intersected(&set, &long, PostingListMerger::intersection_by_stitch);
        let searched = intersected(&set, &long, PostingListMerger::intersection_by_search);
        let chosen = intersected(&set, &long, PostingListMerger::intersection);
        assert_eq!(stitched, searched);
        assert_eq!(stitched, chosen);
        for (id, infos) in stitched.iter() {
            assert_eq!(id % 3, 0);
            assert_eq!(infos[1], info((((id / 3) % 251) as u8, 1), (2, ((id / 3) % 7) as u8)));
        }
    }
    let set = block(&[(1, (1, 1), (1, 1)), (3, (2, 2), (2, 2)), (1197, (3, 3), (3, 3))]);
    let ids: Vec<u32> = intersected(&set, &long, PostingListMerger::intersection)
        .iter()
        .map(|p| p.0)
        .collect();
    assert_eq!(ids, vec![3, 1197]);
}

#[test]
fn intersection_with_the_empty_set_is_empty() {
    let list = block(&[(1, (7, 7), (8, 8))]);
    let list = RawPostingList::new(&list, 0).unwrap();
    let mut merger = PostingListMerger::new();
    merger.intersection(&list).unwrap();
    assert_eq!(merger.len(), 0);
    assert_eq!(merger.merged_num(), 1);
    merger.union(&list).unwrap();
    assert_eq!(contents(&merger), vec![(1, vec![zero(), info((7, 7), (8, 8))])]);
}

#[test]
fn sortedness_of_a_list_is_told() {
    let sorted = block(&[(1, (0, 0), (0, 0)), (2, (0, 0), (0, 0)), (9, (0, 0), (0, 0))]);
    let repeated = block(&[(1, (0, 0), (0, 0)), (2, (0, 0), (0, 0)), (2, (0, 0), (0, 0))]);
    let falling = block(&[(5, (0, 0), (0, 0)), (4, (0, 0), (0, 0))]);
    let single = block(&[(5, (0, 0), (0, 0))]);
    assert!(RawPostingList::new(&sorted, 0).unwrap().is_sorted());
    assert!(!RawPostingList::new(&repeated, 0).unwrap().is_sorted());
    assert!(!RawPostingList::new(&falling, 0).unwrap().is_sorted());
    assert!(RawPostingList::new(&single, 0).unwrap().is_sorted());
}
