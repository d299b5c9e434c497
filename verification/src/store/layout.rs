#[allow(unused_imports)]
use crate::store::{bytes, constants, posting, term};
use crate::store::error::Error;
use crate::store::posting::BuildingPostingData;
use vstd::prelude::*;

verus! {

/// The nine bytes that open a file: the magic number in little-endian
/// order, then the version.
pub open spec fn header(magic: u64) -> Seq<u8> {
    bytes::u64_le(magic).push(constants::VERSION)
}

/// The header of a term dictionary of `doc_num` documents.
pub open spec fn dict_header(doc_num: u32) -> Seq<u8> {
    header(constants::TERM_DICT_MAGIC_NUMBER) + bytes::u32_le(doc_num)
}

/// What checking the first nine bytes of a file against `magic` and the
/// version gives: the length of the header, `Incompatible` where the bytes
/// that are there differ from the expected ones, `Io` where the file ends
/// before a difference shows.
pub open spec fn header_check(file: Seq<u8>, magic: u64) -> Result<usize, Error> {
    if file.len() < 8 {
        Err(Error::Io)
    } else if bytes::le_u64(file) != magic {
        Err(Error::Incompatible)
    } else if file.len() < 9 {
        Err(Error::Io)
    } else if file[8] != constants::VERSION {
        Err(Error::Incompatible)
    } else {
        Ok(9usize)
    }
}

/// A file that starts with the header of `magic` passes the check.
pub proof fn lemma_header_accepted(magic: u64, rest: Seq<u8>)
    ensures
        header(magic).len() == 9,
        header_check(header(magic) + rest, magic) == Ok::<usize, Error>(9usize),
{
    let file = header(magic) + rest;
    bytes::lemma_u64_round_trip(magic);
    let m = bytes::u64_le(magic);
    assert forall|i: int| 0 <= i < 8 implies file[i] == m[i] by {}
    assert(file.skip(4)[0] == m.skip(4)[0] && file.skip(4)[1] == m.skip(4)[1] && file.skip(4)[2]
        == m.skip(4)[2] && file.skip(4)[3] == m.skip(4)[3]);
    assert(bytes::le_u64(file) == bytes::le_u64(m));
    assert(file[8] == constants::VERSION);
}

/// A file of nine bytes or more whose first nine bytes are not the magic
/// number and the version is incompatible.
pub proof fn lemma_header_refused(file: Seq<u8>, magic: u64)
    requires
        file.len() >= 9,
        file.take(9) != header(magic),
    ensures
        header_check(file, magic) == Err::<usize, Error>(Error::Incompatible),
{
    if bytes::le_u64(file) == magic && file[8] == constants::VERSION {
        bytes::lemma_u64_bytes(file, magic);
        assert(file.take(9) =~= header(magic));
    }
}

/// The posting lists of `lists`, one block after the other.
pub open spec fn blocks(lists: Seq<Seq<(u32, BuildingPostingData)>>) -> Seq<u8>
    decreases lists.len(),
{
    if lists.len() == 0 {
        Seq::empty()
    } else {
        blocks(lists.drop_last()) + posting::posting_block(
            posting::records_of(lists.last()),
        )
    }
}

/// The bytes of the term dictionary of `doc_num` documents whose terms
/// have the postings of `lists`, in the order of the terms.
pub open spec fn dict_bytes(doc_num: u32, lists: Seq<Seq<(u32, BuildingPostingData)>>) -> Seq<u8> {
    dict_header(doc_num) + blocks(lists)
}

/// Where the posting list of term `i` starts in the term dictionary.
pub open spec fn block_offset(lists: Seq<Seq<(u32, BuildingPostingData)>>, i: int) -> int {
    13 + blocks(lists.take(i)).len() as int
}

/// What the term index of a dictionary holds: the bytes of each term, and
/// where the term's posting list starts in the term dictionary.
pub open spec fn term_offsets(
    terms: Seq<Seq<char>>,
    lists: Seq<Seq<(u32, BuildingPostingData)>>,
) -> Seq<(Seq<u8>, u64)> {
    Seq::new(
        terms.len(),
        |i: int| (term::term_key(terms[i]), block_offset(lists, i) as u64),
    )
}

/// The blocks of the first `i + 1` lists are those of the first `i`, then
/// the block of list `i`.
pub proof fn lemma_blocks_step(lists: Seq<Seq<(u32, BuildingPostingData)>>, i: int)
    requires
        0 <= i < lists.len(),
    ensures
        blocks(lists.take(i + 1)) == blocks(lists.take(i)) + posting::posting_block(
            posting::records_of(lists[i]),
        ),
{
    assert(lists.take(i + 1).drop_last() =~= lists.take(i));
    assert(lists.take(i + 1).last() == lists[i]);
}

/// The blocks of all lists are those of the first `i`, then the block of
/// list `i`, then the blocks of the others.
pub proof fn lemma_blocks_split(lists: Seq<Seq<(u32, BuildingPostingData)>>, i: int)
    requires
        0 <= i < lists.len(),
    ensures
        exists|rest: Seq<u8>|
            blocks(lists) == blocks(lists.take(i)) + posting::posting_block(
                posting::records_of(lists[i]),
            ) + rest,
    decreases lists.len(),
{
    let block = posting::posting_block(posting::records_of(lists[i]));
    if i == lists.len() - 1 {
        assert(lists.take(i) =~= lists.drop_last());
        assert(blocks(lists) =~= blocks(lists.take(i)) + block + Seq::<u8>::empty());
    } else {
        let front = lists.drop_last();
        lemma_blocks_split(front, i);
        let rest = choose|rest: Seq<u8>|
            blocks(front) == blocks(front.take(i)) + posting::posting_block(
                posting::records_of(front[i]),
            ) + rest;
        assert(front.take(i) =~= lists.take(i));
        let last = posting::posting_block(
            posting::records_of(lists.last()),
        );
        assert(blocks(lists) =~= blocks(lists.take(i)) + block + (rest + last));
    }
}

/// A posting list that was written with at least one posting is read back
/// as it was written, whatever stands before and after it.
pub proof fn lemma_block_round_trip(
    before: Seq<u8>,
    ps: Seq<posting::RawPosting>,
    after: Seq<u8>,
)
    requires
        0 < ps.len() <= u32::MAX,
    ensures
        posting::block_at(
            before + posting::posting_block(ps) + after,
            before.len() as int,
        ) == Ok::<Seq<posting::RawPosting>, Error>(ps),
{
    let block = posting::posting_block(ps);
    let dict = before + block + after;
    let offset = before.len() as int;
    let n = ps.len() as int;
    posting::lemma_records_len(ps);
    bytes::lemma_u32_round_trip(n as u32);
    let count = bytes::u32_le(n as u32);
    let tail = dict.skip(offset);
    assert(tail[0] == count[0] && tail[1] == count[1] && tail[2] == count[2] && tail[3]
        == count[3]);
    assert(bytes::le_u32(tail) == n);
    let data = dict.subrange(offset + 4, offset + 4 + 8 * n);
    assert(data =~= posting::records_bytes(ps));
    posting::lemma_records_round_trip(ps, Seq::empty());
    assert(posting::records_bytes(ps) + Seq::<u8>::empty()
        =~= posting::records_bytes(ps));
}

/// The postings that are written for entries whose identifiers grow
/// strictly have identifiers that grow strictly.
pub proof fn lemma_records_increase(list: Seq<(u32, BuildingPostingData)>)
    requires
        posting::keys_increase(list),
    ensures
        posting::ids_increase(posting::records_of(list)),
{
}

/// In the term dictionary that was written for `lists`, the posting list
/// of each term is read back, at the place that the term index holds for
/// the term, as the postings of the term: one for each document, by
/// ascending identifier, with the compressed frequencies and the norms
/// that were counted.
pub proof fn lemma_dictionary_round_trip(
    doc_num: u32,
    lists: Seq<Seq<(u32, BuildingPostingData)>>,
    i: int,
)
    requires
        0 <= i < lists.len(),
        0 < lists[i].len() <= u32::MAX,
    ensures
        posting::block_at(dict_bytes(doc_num, lists), block_offset(lists, i)) == Ok::<
            Seq<posting::RawPosting>,
            Error,
        >(posting::records_of(lists[i])),
{
    lemma_blocks_split(lists, i);
    let ps = posting::records_of(lists[i]);
    let block = posting::posting_block(ps);
    let rest = choose|rest: Seq<u8>| blocks(lists) == blocks(lists.take(i)) + block + rest;
    let before = dict_header(doc_num) + blocks(lists.take(i));
    assert(dict_bytes(doc_num, lists) =~= before + block + rest);
    bytes::lemma_u64_round_trip(constants::TERM_DICT_MAGIC_NUMBER);
    bytes::lemma_u32_round_trip(doc_num);
    lemma_block_round_trip(before, ps, rest);
}

} // verus!
