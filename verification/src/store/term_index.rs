#[allow(unused_imports)]
use crate::store::{order, term};
use fst::automaton::Levenshtein;
use fst::IntoStreamer;
use vstd::prelude::*;

verus! {

#[verifier::external_type_specification]
#[verifier::external_body]
#[verifier::reject_recursive_types(D)]
pub struct ExTermIndexMap<D>(fst::Map<D>);

#[verifier::external_type_specification]
#[verifier::external_body]
#[verifier::reject_recursive_types(W)]
pub struct ExTermIndexBuilder<W>(fst::MapBuilder<W>);

#[verifier::external_type_specification]
#[verifier::external_body]
pub struct ExLevenshtein(Levenshtein);

/// The bytes that a term index reads: the image that it was opened on.
pub uninterp spec fn index_image(index: fst::Map<&[u8]>) -> Seq<u8>;

/// Whether `fst::Map::new` takes `image` for the image of a term index.
pub uninterp spec fn image_opens(image: Seq<u8>) -> bool;

/// Whether `fst::raw::Fst::verify` finds in `image` the checksum of what
/// `image` holds.
pub uninterp spec fn image_checks(image: Seq<u8>) -> bool;

/// Whether `image` is an image that a builder of term indexes wrote:
/// what `fst::MapBuilder::into_inner` gave. Only such an image is read
/// without fault; `fst::Map::new` and the checksum do not tell.
pub uninterp spec fn image_built(image: Seq<u8>) -> bool;

/// The keys of the term index that the built image `image` holds, each
/// with its value.
pub uninterp spec fn image_entries(image: Seq<u8>) -> Map<Seq<u8>, u64>;

/// Whether the automaton accepts `key`.
pub uninterp spec fn automaton_accepts(automaton: Levenshtein, key: Seq<u8>) -> bool;

/// The keys that were handed to a builder of a term index, each with its
/// value, in the order in which they came.
pub uninterp spec fn builder_entries(builder: fst::MapBuilder<Vec<u8>>) -> Seq<(Seq<u8>, u64)>;

/// The keys of `s` grow strictly in lexicographic order.
pub open spec fn pairs_increase(s: Seq<(Seq<u8>, u64)>) -> bool {
    forall|i: int, j: int|
        0 <= i < j < s.len() ==> order::less(s[i].0, s[j].0)
}

/// `key` is one of the keys of `s`.
pub open spec fn has_key(s: Seq<(Seq<u8>, u64)>, key: Seq<u8>) -> bool {
    exists|i: int| 0 <= i < s.len() && (#[trigger] s[i]).0 == key
}

/// Where `key` stands in `s`, if it is one of its keys.
pub open spec fn key_position(s: Seq<(Seq<u8>, u64)>, key: Seq<u8>) -> int {
    choose|i: int| 0 <= i < s.len() && (#[trigger] s[i]).0 == key
}

/// The mapping from each key of `s` to the value beside it.
pub open spec fn pairs_map(s: Seq<(Seq<u8>, u64)>) -> Map<Seq<u8>, u64> {
    Map::new(|k: Seq<u8>| has_key(s, k), |k: Seq<u8>| s[key_position(s, k)].1)
}

/// The terms of `found` are, in ascending order of their bytes, the keys of
/// `entries` that the automaton accepts, each with its value.
pub open spec fn lists_matches(
    entries: Map<Seq<u8>, u64>,
    automaton: Levenshtein,
    found: Seq<(String, u64)>,
) -> bool {
    &&& forall|i: int|
        0 <= i < found.len() ==> {
            let key = term::term_key((#[trigger] found[i]).0@);
            &&& entries.contains_key(key)
            &&& entries[key] == found[i].1
            &&& automaton_accepts(automaton, key)
        }
    &&& forall|k: Seq<u8>|
        entries.contains_key(k) && #[trigger] automaton_accepts(automaton, k) ==> exists|i: int|
            0 <= i < found.len() && term::term_key((#[trigger] found[i]).0@) == k
    &&& forall|i: int, j: int|
        0 <= i < j < found.len() ==> order::less(
            term::term_key(found[i].0@),
            term::term_key(found[j].0@),
        )
}

/// `fst::Map::new`: opens a term index on `data` without copying. The
/// function takes the image or refuses it, and a map that it gives reads
/// the bytes of `data`. `None` stands for its error.
#[verifier::external_body]
pub(crate) fn open_index<'a>(data: &'a [u8]) -> (r: Option<fst::Map<&'a [u8]>>)
    ensures
        r is Some <==> image_opens(data@),
        r matches Some(index) ==> index_image(index) == data@,
{
    fst::Map::new(data).ok()
}

/// `fst::raw::Fst::verify`: computes the checksum of the image of a term
/// index and compares it with the one that the image ends with. The
/// result says whether the function succeeded.
#[verifier::external_body]
pub(crate) fn verify_index(index: &fst::Map<&[u8]>) -> (r: bool)
    ensures
        r == image_checks(index_image(*index)),
{
    index.as_fst().verify().is_ok()
}

/// `fst::Map::get`: the value of `key`, if the term index holds the key.
/// The caller of `fst::Map::new` answers for the image: reading one that
/// no builder wrote may panic or give anything, so the precondition
/// admits built images only.
#[verifier::external_body]
pub(crate) fn index_get(index: &fst::Map<&[u8]>, key: &[u8]) -> (r: Option<u64>)
    requires
        image_built(index_image(*index)),
    ensures
        r == if image_entries(index_image(*index)).contains_key(key@) {
            Some(image_entries(index_image(*index))[key@])
        } else {
            None
        },
{
    index.get(key)
}

/// `fst::Map::search`, then `into_stream` and `into_str_vec`: the keys of
/// the term index that the automaton accepts, as strings, each with its
/// value, in lexicographic order of the keys. It fails if one of these
/// keys is not UTF-8, and only then; `None` stands for its error. The
/// precondition is that of `index_get`.
#[verifier::external_body]
pub(crate) fn index_search(index: &fst::Map<&[u8]>, automaton: Levenshtein) -> (r: Option<
    Vec<(String, u64)>,
>)
    requires
        image_built(index_image(*index)),
    ensures
        r matches Some(found) ==> lists_matches(
            image_entries(index_image(*index)),
            automaton,
            found@,
        ),
        r is None ==> exists|k: Seq<u8>|
            image_entries(index_image(*index)).contains_key(k) && #[trigger] automaton_accepts(
                automaton,
                k,
            ) && !vstd::utf8::valid_utf8(k),
{
    index.search(automaton).into_stream().into_str_vec().ok()
}

/// `fst::MapBuilder::memory`: a builder that writes the image of a term
/// index to memory. No key was handed to it yet.
#[verifier::external_body]
pub(crate) fn index_builder() -> (builder: fst::MapBuilder<Vec<u8>>)
    ensures
        builder_entries(builder).len() == 0,
{
    fst::MapBuilder::memory()
}

/// `fst::MapBuilder::insert`: hands one more key and its value to the
/// builder. The builder takes a key that comes after the last one it was
/// handed, and refuses any other. It fails on nothing else, since writing
/// to memory does not fail. The result says whether the function
/// succeeded.
#[verifier::external_body]
pub(crate) fn index_insert(
    builder: &mut fst::MapBuilder<Vec<u8>>,
    key: &[u8],
    value: u64,
) -> (r: bool)
    ensures
        r == (builder_entries(*old(builder)).len() == 0 || order::less(
            builder_entries(*old(builder)).last().0,
            key@,
        )),
        r ==> builder_entries(*final(builder)) == builder_entries(*old(builder)).push(
            (key@, value),
        ),
{
    builder.insert(key, value).is_ok()
}

/// `fst::MapBuilder::into_inner`: ends the construction and gives the
/// image, which is a built image by that. `fst::Map::new` takes this
/// image, the image ends with its checksum, and the term index that it
/// holds maps each key that was handed to the builder to its value. It
/// does not fail, since writing to memory does not fail; `None` stands
/// for its error.
#[verifier::external_body]
pub(crate) fn index_finish(builder: fst::MapBuilder<Vec<u8>>) -> (r: Option<Vec<u8>>)
    ensures
        r is Some,
        r matches Some(image) ==> image_built(image@),
        r matches Some(image) ==> image_opens(image@),
        r matches Some(image) ==> image_checks(image@),
        r matches Some(image) ==> image_entries(image@) == pairs_map(builder_entries(builder)),
{
    builder.into_inner().ok()
}

/// Where the keys grow strictly, each stands at one place only and is
/// mapped to the value beside it.
pub proof fn lemma_pairs_map(s: Seq<(Seq<u8>, u64)>, i: int)
    requires
        pairs_increase(s),
        0 <= i < s.len(),
    ensures
        has_key(s, s[i].0),
        key_position(s, s[i].0) == i,
        pairs_map(s).contains_key(s[i].0),
        pairs_map(s)[s[i].0] == s[i].1,
{
    let k = s[i].0;
    let c = key_position(s, k);
    assert(s[i].0 == k);
    order::lemma_irreflexive(k);
    if c < i {
        assert(order::less(s[c].0, s[i].0));
    }
    if i < c {
        assert(order::less(s[i].0, s[c].0));
    }
}

} // verus!
