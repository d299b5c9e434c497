#[allow(unused_imports)]
use crate::query::score;
#[allow(unused_imports)]
use crate::store::{bytes, merge};
use crate::query::score::{calc_tf, field_norm};
use crate::store::bytes::{read_u32, write_u32};
use crate::store::document::Document;
use crate::store::error::Error;
use std::collections::BTreeMap;
use vstd::prelude::*;
use vstd::string::StrSliceExecFns;

verus! {

/// Bytes of one posting on disk: the document's identifier in four bytes,
/// then the two term frequencies and the two norms in one byte each.
pub const POSTING_SIZE: u32 = 8;

/// How many times longer than the working set a posting list has to be for
/// an intersection to search the list instead of walking it.
pub const INTERSECTION_PERFORMANCE_TIPPING_SIZE_DIFF: u32 = 50;

/// What the build keeps of one term in one document. The norms are stored
/// with every posting, since no other record of the document is kept.
#[derive(Debug, Clone, Copy, PartialEq, Eq, Structural)]
pub struct BuildingPostingData {
    freq_content: u16,
    freq_title: u16,
    norm_content: u8,
    norm_title: u8,
}

impl BuildingPostingData {
    pub closed spec fn spec_freq_title(&self) -> u16 {
        self.freq_title
    }

    pub closed spec fn spec_freq_content(&self) -> u16 {
        self.freq_content
    }

    pub closed spec fn spec_norm_title(&self) -> u8 {
        self.norm_title
    }

    pub closed spec fn spec_norm_content(&self) -> u8 {
        self.norm_content
    }

    /// The data of a term that has not been counted yet in a document
    /// whose title has `title_len` characters and whose content has
    /// `content_len`.
    pub closed spec fn fresh_of(title_len: int, content_len: int) -> Self {
        BuildingPostingData {
            freq_title: 0,
            freq_content: 0,
            norm_title: score::field_norm_of(title_len) as u8,
            norm_content: score::field_norm_of(content_len) as u8,
        }
    }

    /// The data of a term that has not been counted yet in `doc`.
    pub open spec fn fresh(doc: &Document) -> Self {
        Self::fresh_of(doc.title@.len() as int, doc.content@.len() as int)
    }

    /// What `fresh_of` holds: both frequencies are zero, and the norms are
    /// those of the two fields.
    pub proof fn lemma_fresh_of(title_len: int, content_len: int)
        requires
            0 <= title_len,
            0 <= content_len,
        ensures
            Self::fresh_of(title_len, content_len).freq_title() == 0,
            Self::fresh_of(title_len, content_len).freq_content() == 0,
            Self::fresh_of(title_len, content_len).norm_title()
                == score::field_norm_of(title_len),
            Self::fresh_of(title_len, content_len).norm_content()
                == score::field_norm_of(content_len),
    {
        if title_len > 0 {
            score::lemma_norm_of(title_len);
        }
        if content_len > 0 {
            score::lemma_norm_of(content_len);
        }
    }

    /// The data of a term that has not been counted yet in `doc`: both
    /// frequencies are zero, the norms are those of the document's fields.
    pub fn new(doc: &Document) -> (data: Self)
        ensures
            data == Self::fresh(doc),
    {
        BuildingPostingData {
            freq_title: 0,
            freq_content: 0,
            norm_title: field_norm(doc.title.unicode_len()),
            norm_content: field_norm(doc.content.unicode_len()),
        }
    }

    /// Counts one more occurrence in the title or in the content. A
    /// frequency stays at 65535 once it has reached it.
    pub fn add_tf(&mut self, is_title: bool)
        ensures
            *final(self) == old(self).bumped(is_title),
    {
        if is_title {
            if self.freq_title < u16::MAX {
                self.freq_title += 1;
            }
        } else if self.freq_content < u16::MAX {
            self.freq_content += 1;
        }
    }

    /// The data after one more occurrence was counted.
    pub closed spec fn bumped(&self, is_title: bool) -> Self {
        if is_title {
            BuildingPostingData {
                freq_title: if self.freq_title < u16::MAX {
                    (self.freq_title + 1) as u16
                } else {
                    self.freq_title
                },
                ..*self
            }
        } else {
            BuildingPostingData {
                freq_content: if self.freq_content < u16::MAX {
                    (self.freq_content + 1) as u16
                } else {
                    self.freq_content
                },
                ..*self
            }
        }
    }

    /// What `bumped` changes: one frequency goes up by one unless it is at
    /// its limit, and nothing else moves.
    pub proof fn lemma_bumped(&self, is_title: bool)
        ensures
            self.bumped(is_title).norm_title() == self.norm_title(),
            self.bumped(is_title).norm_content() == self.norm_content(),
            self.bumped(is_title).freq_title() == if is_title && self.freq_title() < u16::MAX {
                self.freq_title() + 1
            } else {
                self.freq_title() as int
            },
            self.bumped(is_title).freq_content() == if !is_title && self.freq_content()
                < u16::MAX {
                self.freq_content() + 1
            } else {
                self.freq_content() as int
            },
    {
    }

    #[verifier::when_used_as_spec(spec_freq_title)]
    pub fn freq_title(&self) -> (f: u16)
        ensures
            f == self.spec_freq_title(),
    {
        self.freq_title
    }

    #[verifier::when_used_as_spec(spec_freq_content)]
    pub fn freq_content(&self) -> (f: u16)
        ensures
            f == self.spec_freq_content(),
    {
        self.freq_content
    }

    #[verifier::when_used_as_spec(spec_norm_title)]
    pub fn norm_title(&self) -> (n: u8)
        ensures
            n == self.spec_norm_title(),
    {
        self.norm_title
    }

    #[verifier::when_used_as_spec(spec_norm_content)]
    pub fn norm_content(&self) -> (n: u8)
        ensures
            n == self.spec_norm_content(),
    {
        self.norm_content
    }
}

/// What was counted after `n` more occurrences in the title or in the
/// content.
pub open spec fn bumped_times(
    data: BuildingPostingData,
    is_title: bool,
    n: nat,
) -> BuildingPostingData
    decreases n,
{
    if n == 0 {
        data
    } else {
        bumped_times(data, is_title, (n - 1) as nat).bumped(is_title)
    }
}

/// After `n` more occurrences in a field the frequency of the field is
/// higher by `n`, or 65535 where that would be more; the other frequency
/// and the norms are as they were.
pub proof fn lemma_bumped_times(data: BuildingPostingData, is_title: bool, n: nat)
    ensures
        bumped_times(data, is_title, n).norm_title() == data.norm_title(),
        bumped_times(data, is_title, n).norm_content() == data.norm_content(),
        bumped_times(data, is_title, n).freq_title() == if !is_title {
            data.freq_title() as int
        } else if data.freq_title() + n > 65535 {
            65535
        } else {
            data.freq_title() + n
        },
        bumped_times(data, is_title, n).freq_content() == if is_title {
            data.freq_content() as int
        } else if data.freq_content() + n > 65535 {
            65535
        } else {
            data.freq_content() + n
        },
    decreases n,
{
    if n > 0 {
        lemma_bumped_times(data, is_title, (n - 1) as nat);
        bumped_times(data, is_title, (n - 1) as nat).lemma_bumped(is_title);
    }
}

/// The keys of `s` grow strictly from each entry to the next.
pub open spec fn keys_increase(s: Seq<(u32, BuildingPostingData)>) -> bool {
    forall|i: int, j: int| 0 <= i < j < s.len() ==> s[i].0 < s[j].0
}

/// The mapping that the entries of `s` make, each key to the data beside it.
pub open spec fn entries_map(s: Seq<(u32, BuildingPostingData)>) -> Map<u32, BuildingPostingData> {
    Map::new(
        |k: u32| exists|i: int| 0 <= i < s.len() && (#[trigger] s[i]).0 == k,
        |k: u32| s[choose|i: int| 0 <= i < s.len() && (#[trigger] s[i]).0 == k].1,
    )
}

/// Where the keys grow strictly, each key is mapped to the data beside it.
pub proof fn lemma_entries_map(s: Seq<(u32, BuildingPostingData)>, i: int)
    requires
        keys_increase(s),
        0 <= i < s.len(),
    ensures
        entries_map(s).contains_key(s[i].0),
        entries_map(s)[s[i].0] == s[i].1,
{
    let k = s[i].0;
    let c = choose|x: int| 0 <= x < s.len() && (#[trigger] s[x]).0 == k;
    assert(s[i].0 == k);
    if c < i {
        assert(s[c].0 < s[i].0);
    }
    if i < c {
        assert(s[i].0 < s[c].0);
    }
}

/// The postings of one term while an index is built: for each document
/// that holds the term, what was counted of it.
pub type BuildingPostingMap = BTreeMap<u32, BuildingPostingData>;

/// `s` lists the postings of `m`, each once, by strictly ascending
/// identifier.
pub open spec fn lists_entries(
    s: Seq<(u32, BuildingPostingData)>,
    m: Map<u32, BuildingPostingData>,
) -> bool {
    keys_increase(s) && entries_map(s) == m
}

/// The postings of `m` by ascending identifier: the order in which they
/// are written.
pub open spec fn entries_of(m: Map<u32, BuildingPostingData>) -> Seq<(u32, BuildingPostingData)> {
    choose|s: Seq<(u32, BuildingPostingData)>| lists_entries(s, m)
}

/// Two lists of the same postings by strictly ascending identifier are
/// the same list.
pub proof fn lemma_one_listing(
    a: Seq<(u32, BuildingPostingData)>,
    b: Seq<(u32, BuildingPostingData)>,
)
    requires
        keys_increase(a),
        keys_increase(b),
        entries_map(a) == entries_map(b),
    ensures
        a == b,
    decreases a.len(),
{
    let m = entries_map(a);
    if a.len() == 0 {
        if b.len() > 0 {
            lemma_entries_map(b, 0);
            let i = choose|i: int| 0 <= i < a.len() && (#[trigger] a[i]).0 == b[0].0;
        }
        assert(a =~= b);
    } else if b.len() == 0 {
        lemma_entries_map(a, 0);
        let i = choose|i: int| 0 <= i < b.len() && (#[trigger] b[i]).0 == a[0].0;
    } else {
        let la = a.last();
        let lb = b.last();
        lemma_entries_map(a, a.len() - 1);
        lemma_entries_map(b, b.len() - 1);
        let j = choose|j: int| 0 <= j < b.len() && (#[trigger] b[j]).0 == la.0;
        let i = choose|i: int| 0 <= i < a.len() && (#[trigger] a[i]).0 == lb.0;
        assert(b[j].0 == la.0 && a[i].0 == lb.0);
        if j < b.len() - 1 {
            assert(b[j].0 < b[b.len() - 1].0);
        }
        if i < a.len() - 1 {
            assert(a[i].0 < a[a.len() - 1].0);
        }
        assert(la.0 == lb.0);
        assert(la == lb);
        let fa = a.drop_last();
        let fb = b.drop_last();
        assert forall|k: u32| #[trigger] entries_map(fa).contains_key(k) implies entries_map(
            fb,
        ).contains_key(k) && entries_map(fb)[k] == entries_map(fa)[k] by {
            let x = choose|x: int| 0 <= x < fa.len() && (#[trigger] fa[x]).0 == k;
            assert(a[x].0 == k);
            assert(a[x].0 < a[a.len() - 1].0);
            lemma_entries_map(a, x);
            lemma_entries_map(fa, x);
            let y = choose|y: int| 0 <= y < b.len() && (#[trigger] b[y]).0 == k;
            assert(b[y].0 == k);
            assert(fb[y].0 == k);
            lemma_entries_map(b, y);
            lemma_entries_map(fb, y);
        }
        assert forall|k: u32| #[trigger] entries_map(fb).contains_key(k) implies entries_map(
            fa,
        ).contains_key(k) by {
            let y = choose|y: int| 0 <= y < fb.len() && (#[trigger] fb[y]).0 == k;
            assert(b[y].0 == k);
            assert(b[y].0 < b[b.len() - 1].0);
            lemma_entries_map(b, y);
            let x = choose|x: int| 0 <= x < a.len() && (#[trigger] a[x]).0 == k;
            assert(a[x].0 == k);
            assert(fa[x].0 == k);
        }
        assert(entries_map(fa) =~= entries_map(fb));
        lemma_one_listing(fa, fb);
        assert(a =~= fa.push(la));
        assert(b =~= fb.push(lb));
    }
}

/// A list of the postings of `m` by strictly ascending identifier is the
/// list in which they are written.
pub proof fn lemma_entries_of(s: Seq<(u32, BuildingPostingData)>, m: Map<u32, BuildingPostingData>)
    requires
        lists_entries(s, m),
    ensures
        entries_of(m) == s,
        lists_entries(entries_of(m), m),
{
    lemma_one_listing(entries_of(m), s);
}

/// The list `s` after the posting of document `k` was set to `v`: the
/// posting takes the place of the one that `s` had for `k`, or comes in
/// where the order of the identifiers puts it.
pub open spec fn put(
    s: Seq<(u32, BuildingPostingData)>,
    k: u32,
    v: BuildingPostingData,
) -> Seq<(u32, BuildingPostingData)>
    decreases s.len(),
{
    if s.len() == 0 || s.last().0 < k {
        s.push((k, v))
    } else if s.last().0 == k {
        s.drop_last().push((k, v))
    } else {
        put(s.drop_last(), k, v).push(s.last())
    }
}

/// Setting a posting in a list by strictly ascending identifier gives such
/// a list again: that of the postings with the one of `k` set to `v`. It
/// is longer by one where `k` had no posting.
pub proof fn lemma_put(s: Seq<(u32, BuildingPostingData)>, k: u32, v: BuildingPostingData)
    requires
        keys_increase(s),
    ensures
        keys_increase(put(s, k, v)),
        entries_map(put(s, k, v)) == entries_map(s).insert(k, v),
        put(s, k, v).len() == s.len() + if entries_map(s).contains_key(k) {
            0int
        } else {
            1int
        },
    decreases s.len(),
{
    let r = put(s, k, v);
    let goal = entries_map(s).insert(k, v);
    if s.len() == 0 || s.last().0 < k {
        assert(!entries_map(s).contains_key(k)) by {
            if entries_map(s).contains_key(k) {
                let x = choose|x: int| 0 <= x < s.len() && (#[trigger] s[x]).0 == k;
                assert(s[x].0 <= s[s.len() - 1].0);
            }
        }
        assert forall|i: int, j: int| 0 <= i < j < r.len() implies r[i].0 < r[j].0 by {
            if j == s.len() {
                assert(s[i].0 <= s[s.len() - 1].0);
            }
        }
    } else if s.last().0 == k {
        lemma_entries_map(s, s.len() - 1);
        assert forall|i: int, j: int| 0 <= i < j < r.len() implies r[i].0 < r[j].0 by {
            assert(s[i].0 < s[j].0);
        }
    } else {
        let front = s.drop_last();
        let last = s.last();
        lemma_put(front, k, v);
        let rf = put(front, k, v);
        assert forall|x: int| 0 <= x < rf.len() implies (#[trigger] rf[x]).0 < last.0 by {
            lemma_entries_map(rf, x);
            if rf[x].0 != k {
                let y = choose|y: int| 0 <= y < front.len() && (#[trigger] front[y]).0 == rf[x].0;
                assert(s[y].0 < s[s.len() - 1].0);
            }
        }
        assert forall|i: int, j: int| 0 <= i < j < r.len() implies r[i].0 < r[j].0 by {
            if j < rf.len() {
                assert(rf[i].0 < rf[j].0);
            }
        }
        assert(entries_map(s).contains_key(k) == entries_map(front).contains_key(k)) by {
            if entries_map(s).contains_key(k) {
                let x = choose|x: int| 0 <= x < s.len() && (#[trigger] s[x]).0 == k;
                assert(front[x].0 == k);
            }
            if entries_map(front).contains_key(k) {
                let x = choose|x: int| 0 <= x < front.len() && (#[trigger] front[x]).0 == k;
                assert(s[x].0 == k);
            }
        }
    }
    assert forall|d: u32| #[trigger] entries_map(r).contains_key(d) <==> goal.contains_key(d) by {
        if entries_map(r).contains_key(d) {
            let x = choose|x: int| 0 <= x < r.len() && (#[trigger] r[x]).0 == d;
            lemma_position(s, k, v, x);
        }
        if entries_map(s).contains_key(d) && d != k {
            let y = choose|y: int| 0 <= y < s.len() && (#[trigger] s[y]).0 == d;
            lemma_kept(s, k, v, y);
        }
        if d == k {
            lemma_set(s, k, v);
        }
    }
    assert forall|d: u32| #[trigger] entries_map(r).contains_key(d) implies entries_map(r)[d]
        == goal[d] by {
        let x = choose|x: int| 0 <= x < r.len() && (#[trigger] r[x]).0 == d;
        lemma_entries_map(r, x);
        lemma_position(s, k, v, x);
        if d != k {
            let y = choose|y: int| 0 <= y < s.len() && s[y] == r[x];
            lemma_entries_map(s, y);
        }
    }
    assert(entries_map(r) =~= goal);
}

/// Each posting of `put(s, k, v)` is that of `k` with `v`, or a posting of
/// `s` for another document.
proof fn lemma_position(s: Seq<(u32, BuildingPostingData)>, k: u32, v: BuildingPostingData, x: int)
    requires
        keys_increase(s),
        0 <= x < put(s, k, v).len(),
    ensures
        put(s, k, v)[x] == (k, v) || (put(s, k, v)[x].0 != k && exists|y: int|
            0 <= y < s.len() && s[y] == #[trigger] put(s, k, v)[x]),
    decreases s.len(),
{
    let r = put(s, k, v);
    if s.len() == 0 || s.last().0 < k {
        if x < s.len() {
            assert(s[x] == r[x]);
            assert(s[x].0 <= s[s.len() - 1].0);
        }
    } else if s.last().0 == k {
        if x < s.len() - 1 {
            assert(s[x] == r[x]);
            assert(s[x].0 < s[s.len() - 1].0);
        }
    } else {
        let front = s.drop_last();
        if x < put(front, k, v).len() {
            lemma_position(front, k, v, x);
            if r[x] != (k, v) {
                let y = choose|y: int| 0 <= y < front.len() && front[y] == put(front, k, v)[x];
                assert(s[y] == r[x]);
            }
        } else {
            assert(s[s.len() - 1] == r[x]);
        }
    }
}

/// A posting of `s` for a document other than `k` is a posting of
/// `put(s, k, v)`.
proof fn lemma_kept(s: Seq<(u32, BuildingPostingData)>, k: u32, v: BuildingPostingData, y: int)
    requires
        0 <= y < s.len(),
        s[y].0 != k,
    ensures
        exists|x: int| 0 <= x < put(s, k, v).len() && (#[trigger] put(s, k, v)[x]) == s[y],
    decreases s.len(),
{
    let r = put(s, k, v);
    if s.len() == 0 || s.last().0 < k {
        assert(r[y] == s[y]);
    } else if s.last().0 == k {
        assert(r[y] == s[y]);
    } else {
        let front = s.drop_last();
        if y < front.len() {
            lemma_kept(front, k, v, y);
            let x = choose|x: int|
                0 <= x < put(front, k, v).len() && (#[trigger] put(front, k, v)[x]) == front[y];
            assert(r[x] == s[y]);
        } else {
            assert(r[r.len() - 1] == s[y]);
        }
    }
}

/// The posting of `k` with `v` is a posting of `put(s, k, v)`.
proof fn lemma_set(s: Seq<(u32, BuildingPostingData)>, k: u32, v: BuildingPostingData)
    ensures
        exists|x: int| 0 <= x < put(s, k, v).len() && (#[trigger] put(s, k, v)[x]) == (k, v),
    decreases s.len(),
{
    let r = put(s, k, v);
    if s.len() == 0 || s.last().0 < k {
        assert(r[r.len() - 1] == (k, v));
    } else if s.last().0 == k {
        assert(r[r.len() - 1] == (k, v));
    } else {
        let front = s.drop_last();
        lemma_set(front, k, v);
        let x = choose|x: int|
            0 <= x < put(front, k, v).len() && (#[trigger] put(front, k, v)[x]) == (k, v);
        assert(r[x] == (k, v));
    }
}

/// Keys that a map of the standard library holds in ascending order grow
/// strictly.
pub proof fn lemma_keys_ascend(keys: Seq<u32>)
    requires
        vstd::std_specs::btree::increasing_seq(keys),
    ensures
        forall|i: int, j: int| 0 <= i < j < keys.len() ==> keys[i] < keys[j],
{
    broadcast use vstd::std_specs::btree::group_btree_axioms;

    assert forall|i: int, j: int| 0 <= i < j < keys.len() implies keys[i] < keys[j] by {
        assert(vstd::std_specs::cmp::OrdSpec::cmp_spec(&keys[i], &keys[j]) is Less);
    }
}

/// What ranking needs to know of one term in one document.
#[derive(Debug, Clone, Copy, PartialEq, Eq)]
pub struct TermPriorityInfo {
    /// (tf_title, tf_content)
    pub tf: (u8, u8),
    /// (norm_title, norm_content)
    pub norm: (u8, u8),
}

impl TermPriorityInfo {
    pub fn new(tf: (u8, u8), norm: (u8, u8)) -> (info: Self)
        ensures
            info.tf == tf,
            info.norm == norm,
    {
        TermPriorityInfo { tf, norm }
    }

    /// The entry of a term that does not occur in the document.
    pub open spec fn absent() -> Self {
        TermPriorityInfo { tf: (0u8, 0u8), norm: (0u8, 0u8) }
    }

    /// The entry of a term that does not occur in the document.
    pub fn not_exist() -> (info: Self)
        ensures
            info == Self::absent(),
    {
        TermPriorityInfo::new((0u8, 0u8), (0u8, 0u8))
    }
}

/// One posting as a posting list holds it.
pub struct RawPosting {
    pub doc_id: u32,
    pub info: TermPriorityInfo,
}

/// The posting that the eight bytes of `data` from `8 * i` on hold.
pub open spec fn record_at(data: Seq<u8>, i: int) -> RawPosting {
    RawPosting {
        doc_id: bytes::le_u32(data.skip(8 * i)) as u32,
        info: TermPriorityInfo {
            tf: (data[8 * i + 4], data[8 * i + 5]),
            norm: (data[8 * i + 6], data[8 * i + 7]),
        },
    }
}

/// The `n` postings that `data` holds one after the other.
pub open spec fn records_in(data: Seq<u8>, n: nat) -> Seq<RawPosting> {
    Seq::new(n, |i: int| record_at(data, i))
}

/// The eight bytes of one posting.
pub open spec fn record_bytes(p: RawPosting) -> Seq<u8> {
    bytes::u32_le(p.doc_id) + seq![p.info.tf.0, p.info.tf.1, p.info.norm.0, p.info.norm.1]
}

/// The bytes of the postings of `ps`, one after the other.
pub open spec fn records_bytes(ps: Seq<RawPosting>) -> Seq<u8>
    decreases ps.len(),
{
    if ps.len() == 0 {
        Seq::empty()
    } else {
        records_bytes(ps.drop_last()) + record_bytes(ps.last())
    }
}

/// A posting list on disk: the number of postings in four bytes, then the
/// postings.
pub open spec fn posting_block(ps: Seq<RawPosting>) -> Seq<u8> {
    bytes::u32_le(ps.len() as u32) + records_bytes(ps)
}

/// The identifiers of `ps` grow strictly from each posting to the next.
pub open spec fn ids_increase(ps: Seq<RawPosting>) -> bool {
    forall|i: int, j: int| 0 <= i < j < ps.len() ==> ps[i].doc_id < ps[j].doc_id
}

/// What opening a posting list at byte `offset` of a dictionary gives: the
/// postings of the block, or the reason why there is no list to read.
pub open spec fn block_at(dict: Seq<u8>, offset: int) -> Result<Seq<RawPosting>, Error> {
    if offset + 4 > dict.len() {
        Err(Error::Io)
    } else {
        let n = bytes::le_u32(dict.skip(offset));
        if n == 0 || offset + 4 + 8 * n > dict.len() {
            Err(Error::OutOfRange)
        } else {
            Ok(records_in(dict.subrange(offset + 4, offset + 4 + 8 * n), n as nat))
        }
    }
}

/// `records_bytes` holds eight bytes for each posting.
pub proof fn lemma_records_len(ps: Seq<RawPosting>)
    ensures
        records_bytes(ps).len() == 8 * ps.len(),
    decreases ps.len(),
{
    if ps.len() > 0 {
        lemma_records_len(ps.drop_last());
    }
}

/// Reading the postings back from the bytes that `records_bytes` wrote
/// gives the same postings, also when other bytes follow.
pub proof fn lemma_records_round_trip(ps: Seq<RawPosting>, rest: Seq<u8>)
    ensures
        records_in(records_bytes(ps) + rest, ps.len()) == ps,
    decreases ps.len(),
{
    let data = records_bytes(ps) + rest;
    lemma_records_len(ps);
    assert forall|i: int| 0 <= i < ps.len() implies record_at(data, i) == ps[i] by {
        if i == ps.len() - 1 {
            let p = ps.last();
            lemma_records_len(ps.drop_last());
            bytes::lemma_u32_round_trip(p.doc_id);
            let tail = data.skip(8 * i);
            let id = bytes::u32_le(p.doc_id);
            assert(tail[0] == id[0] && tail[1] == id[1] && tail[2] == id[2] && tail[3] == id[3]);
        } else {
            let front = ps.drop_last();
            let more = record_bytes(ps.last()) + rest;
            lemma_records_round_trip(front, more);
            assert(records_bytes(front) + more =~= data);
            assert(records_in(data, front.len())[i] == front[i]);
        }
    }
    assert(records_in(data, ps.len()) =~= ps);
}

/// The postings that the entries of `s` are written as.
pub open spec fn records_of(s: Seq<(u32, BuildingPostingData)>) -> Seq<RawPosting> {
    Seq::new(s.len(), |i: int| record_of(s[i].0, s[i].1))
}

/// The posting that is written for a document and what was counted of a
/// term in it: the frequencies are compressed, the norms stay.
pub open spec fn record_of(doc_id: u32, data: BuildingPostingData) -> RawPosting {
    RawPosting {
        doc_id,
        info: TermPriorityInfo {
            tf: (
                score::tf_of(data.freq_title()) as u8,
                score::tf_of(data.freq_content()) as u8,
            ),
            norm: (data.norm_title(), data.norm_content()),
        },
    }
}

/// Writes the posting list of one term behind what a buffer holds.
#[derive(Debug)]
pub struct PostingListBuilder<'a> {
    writer: Vec<u8>,
    map: &'a BuildingPostingMap,
}

impl<'a> PostingListBuilder<'a> {
    /// What the buffer holds.
    pub closed spec fn written(&self) -> Seq<u8> {
        self.writer@
    }

    /// The postings that are written.
    pub closed spec fn postings(&self) -> Map<u32, BuildingPostingData> {
        self.map@
    }

    /// The postings in the order in which they are written.
    pub open spec fn entries(&self) -> Seq<(u32, BuildingPostingData)> {
        entries_of(self.postings())
    }

    pub fn new(writer: Vec<u8>, map: &'a BuildingPostingMap) -> (builder: Self)
        ensures
            builder.written() == writer@,
            builder.postings() == map@,
    {
        PostingListBuilder { writer, map }
    }

    /// Appends the posting list to the buffer: the number of postings, then
    /// one posting for each entry in ascending order of the identifiers.
    /// Returns the number of bytes that were written.
    pub fn finish(&mut self) -> (r: Result<u64, Error>)
        requires
            old(self).entries().len() <= u32::MAX,
        ensures
            r == Ok::<u64, Error>((4 + 8 * old(self).entries().len()) as u64),
            final(self).written() == old(self).written() + posting_block(
                records_of(old(self).entries()),
            ),
            final(self).postings() == old(self).postings(),
            lists_entries(old(self).entries(), old(self).postings()),
    {
        broadcast use vstd::std_specs::btree::group_btree_axioms;

        let ghost start = self.writer@;
        let map = self.map;
        let n = map.len();
        let iter = map.iter();
        let ghost all = vstd::std_specs::iter::IteratorSpec::remaining(&iter);
        let ghost listing = Seq::new(all.len(), |i: int| (*all[i].0, *all[i].1));
        let ghost ps = records_of(listing);
        proof {
            let keys = all.map_values(|kv: (&u32, &BuildingPostingData)| *kv.0);
            lemma_keys_ascend(keys);
            assert forall|i: int, j: int| 0 <= i < j < listing.len() implies listing[i].0
                < listing[j].0 by {
                assert(keys[i] < keys[j]);
            }
            assert forall|k: u32| #[trigger]
                entries_map(listing).contains_key(k) <==> map@.contains_key(k) by {
                if entries_map(listing).contains_key(k) {
                    let i = choose|i: int| 0 <= i < listing.len() && (#[trigger] listing[i]).0 == k;
                    assert(map@.contains_key(*all[i].0));
                }
                if map@.contains_key(k) {
                    assert(all.contains((&k, &map@[k])));
                    let i = choose|i: int| 0 <= i < all.len() && all[i] == (&k, &map@[k]);
                    assert(listing[i].0 == k);
                }
            }
            assert forall|k: u32| #[trigger] entries_map(listing).contains_key(k) implies
                entries_map(listing)[k] == map@[k] by {
                let i = choose|i: int| 0 <= i < listing.len() && (#[trigger] listing[i]).0 == k;
                lemma_entries_map(listing, i);
                assert(map@[*all[i].0] == *all[i].1);
            }
            assert(entries_map(listing) =~= map@);
            lemma_entries_of(listing, map@);
        }
        write_u32(&mut self.writer, n as u32);
        let mut len: u64 = 4;
        assert(records_bytes(ps.take(0)) =~= Seq::<u8>::empty());
        assert(self.writer@ =~= start + bytes::u32_le(n as u32) + records_bytes(ps.take(0)));
        for kv in it: iter
            invariant
                it.seq() == all,
                n == all.len(),
                n <= u32::MAX,
                listing == Seq::new(all.len(), |i: int| (*all[i].0, *all[i].1)),
                ps == records_of(listing),
                len == 4 + 8 * it.index(),
                self.writer@ == start + bytes::u32_le(n as u32) + records_bytes(
                    ps.take(it.index() as int),
                ),
                self.map == old(self).map,
        {
            let ghost i = it.index() as int;
            let ghost before = self.writer@;
            let doc_id = *kv.0;
            let data = *kv.1;
            write_u32(&mut self.writer, doc_id);
            self.writer.push(calc_tf(data.freq_title()));
            self.writer.push(calc_tf(data.freq_content()));
            self.writer.push(data.norm_title());
            self.writer.push(data.norm_content());
            len += POSTING_SIZE as u64;
            proof {
                let done = ps.take(i + 1);
                assert(done.drop_last() =~= ps.take(i));
                assert(done.last() == ps[i]);
                assert(self.writer@ =~= before + record_bytes(ps[i]));
                assert(self.writer@ =~= start + bytes::u32_le(n as u32) + records_bytes(done));
            }
        }
        assert(ps.take(n as int) =~= ps);
        assert(self.writer@ =~= start + posting_block(ps));
        Ok(len)
    }

    /// Gives the buffer back.
    pub fn into_inner(self) -> (writer: Vec<u8>)
        ensures
            writer@ == self.written(),
    {
        self.writer
    }
}

/// A posting list of a dictionary, read in place.
#[derive(Debug, Clone, Copy)]
pub struct RawPostingList<'a> {
    data: &'a [u8],
    len: u32,
}

impl<'a> View for RawPostingList<'a> {
    type V = Seq<RawPosting>;

    closed spec fn view(&self) -> Seq<RawPosting> {
        records_in(self.data@, self.len as nat)
    }
}

impl<'a> RawPostingList<'a> {
    /// The bytes of the list are those of its postings.
    pub closed spec fn whole(&self) -> bool {
        self.data@.len() == 8 * self.len
    }

    /// The list holds a posting, its length is the number of its postings,
    /// and its bytes are those of its postings.
    pub open spec fn wf(&self) -> bool {
        &&& self.whole()
        &&& self.len() > 0
        &&& self@.len() == self.len()
    }

    /// The identifiers of the list grow strictly.
    pub open spec fn sorted(&self) -> bool {
        ids_increase(self@)
    }

    pub closed spec fn spec_len(&self) -> u32 {
        self.len
    }

    /// Opens the posting list that starts at byte `offset` of the
    /// dictionary `dict`.
    pub fn new(dict: &'a [u8], offset: u64) -> (r: Result<Self, Error>)
        ensures
            match r {
                Ok(list) => list.wf() && block_at(dict@, offset as int) == Ok::<
                    Seq<RawPosting>,
                    Error,
                >(list@),
                Err(e) => block_at(dict@, offset as int) == Err::<Seq<RawPosting>, Error>(e),
            },
    {
        let total = dict.len();
        if total < 4 || offset > (total - 4) as u64 {
            return Err(Error::Io);
        }
        let start = offset as usize;
        let len = read_u32(&dict[start..total]);
        assert(dict@.subrange(start as int, total as int) =~= dict@.skip(start as int));
        if len == 0 {
            return Err(Error::OutOfRange);
        }
        let room = total - start - 4;
        if room / 8 < len as usize {
            return Err(Error::OutOfRange);
        }
        let bytes = (len as usize) * 8;
        let data = &dict[start + 4..start + 4 + bytes];
        Ok(RawPostingList { data, len })
    }

    /// Where the posting at `index` starts among the bytes of the list.
    fn record_start(&self, index: u32) -> (at: usize)
        requires
            self.wf(),
            index < self.len,
        ensures
            at == 8 * index,
            at + 8 <= self.data@.len(),
    {
        assert(self.data@.len() == self.data.len());
        (index as usize) * 8
    }

    /// Number of postings.
    #[verifier::when_used_as_spec(spec_len)]
    pub fn len(&self) -> (n: u32)
        ensures
            n == self.spec_len(),
    {
        self.len
    }

    /// Whether the identifiers of the list grow strictly, as those of a
    /// list do that a build has written.
    pub fn is_sorted(&self) -> (r: bool)
        requires
            self.wf(),
        ensures
            r == self.sorted(),
    {
        let mut last = match self.get_doc_id(0) {
            Ok(id) => id,
            Err(_) => {
                return false;
            },
        };
        let mut i: u32 = 1;
        while i < self.len
            invariant
                self.wf(),
                1 <= i <= self.len,
                last == self@[i - 1].doc_id,
                ids_increase(self@.take(i as int)),
            decreases self.len - i,
        {
            let next = match self.get_doc_id(i) {
                Ok(id) => id,
                Err(_) => {
                    return false;
                },
            };
            if next <= last {
                assert(!(self@[i - 1].doc_id < self@[i as int].doc_id));
                return false;
            }
            proof {
                let now = self@.take(i + 1);
                assert forall|a: int, b: int| 0 <= a < b < now.len() implies now[a].doc_id
                    < now[b].doc_id by {
                    if b == i {
                        if a < i - 1 {
                            assert(self@.take(i as int)[a].doc_id < self@.take(i as int)[i
                                - 1].doc_id);
                        }
                    } else {
                        assert(self@.take(i as int)[a].doc_id < self@.take(i as int)[b].doc_id);
                    }
                }
            }
            last = next;
            i += 1;
        }
        assert(self@.take(self.len as int) =~= self@);
        true
    }

    /// The document of the posting at `index`.
    pub fn get_doc_id(&self, index: u32) -> (r: Result<u32, Error>)
        requires
            self.wf(),
        ensures
            r == if index < self.len() {
                Ok::<u32, Error>(self@[index as int].doc_id)
            } else {
                Err::<u32, Error>(Error::OutOfRange)
            },
    {
        if index >= self.len() {
            return Err(Error::OutOfRange);
        }
        let at = self.record_start(index);
        let total = self.data.len();
        let id = read_u32(&self.data[at..total]);
        assert(self.data@.subrange(at as int, total as int) =~= self.data@.skip(8 * index));
        Ok(id)
    }

    /// The term frequencies in title and content of the posting at `index`.
    pub fn get_tf(&self, index: u32) -> (r: Result<(u8, u8), Error>)
        requires
            self.wf(),
        ensures
            r == if index < self.len() {
                Ok::<(u8, u8), Error>(self@[index as int].info.tf)
            } else {
                Err::<(u8, u8), Error>(Error::OutOfRange)
            },
    {
        if index >= self.len() {
            return Err(Error::OutOfRange);
        }
        let offset = self.record_start(index) + 4;
        Ok((self.data[offset], self.data[offset + 1]))
    }

    /// The norms of title and content of the posting at `index`.
    pub fn get_norm(&self, index: u32) -> (r: Result<(u8, u8), Error>)
        requires
            self.wf(),
        ensures
            r == if index < self.len() {
                Ok::<(u8, u8), Error>(self@[index as int].info.norm)
            } else {
                Err::<(u8, u8), Error>(Error::OutOfRange)
            },
    {
        if index >= self.len() {
            return Err(Error::OutOfRange);
        }
        let offset = self.record_start(index) + 4 + 2;
        Ok((self.data[offset], self.data[offset + 1]))
    }
}

/// A document of a working set, with what ranking needs to know of each
/// term that was merged so far.
#[derive(Debug)]
pub struct Posting {
    doc_id: u32,
    term_priority_info: Vec<TermPriorityInfo>,
}

impl View for Posting {
    type V = merge::PostingView;

    closed spec fn view(&self) -> merge::PostingView {
        merge::PostingView {
            doc_id: self.doc_id,
            infos: self.term_priority_info@,
        }
    }
}

/// The postings of `ps` as specifications speak of them.
pub open spec fn views(ps: Seq<Posting>) -> Seq<merge::PostingView> {
    Seq::new(ps.len(), |i: int| ps[i]@)
}

impl Posting {
    /// The posting of a document that none of the `before_term_num` terms
    /// merged so far has matched.
    fn new(doc_id: u32, before_term_num: u32) -> (p: Self)
        ensures
            p@ == (merge::PostingView {
                doc_id,
                infos: merge::absent_infos(before_term_num as nat),
            }),
    {
        let mut term_priority_info: Vec<TermPriorityInfo> = Vec::new();
        let mut i: u32 = 0;
        while i < before_term_num
            invariant
                i <= before_term_num,
                term_priority_info@ == merge::absent_infos(i as nat),
            decreases before_term_num - i,
        {
            term_priority_info.push(TermPriorityInfo::not_exist());
            i += 1;
            assert(term_priority_info@ =~= merge::absent_infos(i as nat));
        }
        Posting { doc_id, term_priority_info }
    }

    /// What stands where a posting was taken away: document 0 without
    /// entries.
    spec fn hollow() -> merge::PostingView {
        merge::PostingView { doc_id: 0, infos: Seq::empty() }
    }

    /// A posting without entries that stands where another was taken away.
    fn hole() -> (p: Self)
        ensures
            p@ == Self::hollow(),
    {
        Posting { doc_id: 0, term_priority_info: Vec::new() }
    }

    fn add(&mut self, info: TermPriorityInfo)
        ensures
            final(self)@ == old(self)@.with(info),
    {
        self.term_priority_info.push(info);
    }

    pub fn get_doc_id(&self) -> (id: u32)
        ensures
            id == self@.doc_id,
    {
        self.doc_id
    }

    /// The entries of the merged terms, in the order of the merges.
    pub fn get_term_priority_info(&self) -> (infos: &Vec<TermPriorityInfo>)
        ensures
            infos@ == self@.infos,
    {
        &self.term_priority_info
    }
}

/// The working set of a query: the documents that the merged posting lists
/// have left, by ascending identifier.
#[derive(Debug)]
pub struct PostingListMerger {
    postings: Vec<Posting>,
    merged_num: u32,
}

impl View for PostingListMerger {
    type V = merge::WorkingSet;

    closed spec fn view(&self) -> merge::WorkingSet {
        merge::WorkingSet { postings: views(self.postings@), merged: self.merged_num as nat }
    }
}

impl PostingListMerger {
    pub closed spec fn spec_postings(&self) -> Vec<Posting> {
        self.postings
    }

    /// The identifiers grow strictly, and every posting has one entry for
    /// each merged term.
    pub open spec fn wf(&self) -> bool {
        &&& merge::docs_increase(self@.postings)
        &&& merge::all_have(self@.postings, self@.merged)
    }

    /// The view of a working set is that of its postings.
    pub proof fn lemma_view(&self)
        ensures
            self@.postings == views(self.spec_postings()@),
    {
    }

    /// An empty working set into which no term was merged.
    pub fn new() -> (merger: Self)
        ensures
            merger@.postings == Seq::<merge::PostingView>::empty(),
            merger@.merged == 0,
            merger.wf(),
    {
        let merger = PostingListMerger { postings: Vec::new(), merged_num: 0 };
        assert(merger@.postings =~= Seq::<merge::PostingView>::empty());
        merger
    }

    /// Number of postings, in 32 bits.
    pub fn len(&self) -> (n: u32)
        ensures
            n == self@.postings.len() % 0x1_0000_0000,
    {
        let n = self.postings.len() as u64;
        (n % 0x1_0000_0000) as u32
    }

    /// Number of terms that were merged.
    pub fn merged_num(&self) -> (k: u32)
        ensures
            k == self@.merged,
    {
        self.merged_num
    }

    pub fn get_postings(&self) -> (ps: &Vec<Posting>)
        ensures
            views(ps@) == self@.postings,
            *ps == self.spec_postings(),
    {
        &self.postings
    }

    /// The postings, to reorder or to drop some of them.
    pub fn mut_get_postings(&mut self) -> (ps: &mut Vec<Posting>)
        ensures
            *ps == old(self).spec_postings(),
            final(self).spec_postings() == *final(ps),
            final(self)@.merged == old(self)@.merged,
    {
        &mut self.postings
    }

    fn end_do_merge(&mut self)
        requires
            old(self).merged_num < u32::MAX,
        ensures
            final(self).merged_num == old(self).merged_num + 1,
            final(self).postings == old(self).postings,
    {
        self.merged_num += 1;
    }

    /// Takes the posting at `i` away and leaves a hole in its place.
    fn take(&mut self, i: usize) -> (p: Posting)
        requires
            i < old(self).postings@.len(),
        ensures
            p == old(self).postings@[i as int],
            final(self).merged_num == old(self).merged_num,
            final(self).postings@.len() == old(self).postings@.len(),
            final(self).postings@[i as int]@ == Posting::hollow(),
            forall|x: int|
                0 <= x < old(self).postings@.len() && x != i ==> final(self).postings@[x] == old(
                    self,
                ).postings@[x],
    {
        let mut hole = Posting::hole();
        core::mem::swap(&mut self.postings[i], &mut hole);
        hole
    }

    /// Intersects the working set with the posting list of one more term:
    /// the postings whose document the list holds stay and get the entry of
    /// the list, the others leave. A list much longer than the working set
    /// is searched, any other is walked; the result is the same.
    pub fn intersection(&mut self, list: &RawPostingList) -> (r: Result<(), Error>)
        requires
            old(self).wf(),
            list.wf(),
            list.sorted(),
            old(self)@.merged < u32::MAX,
        ensures
            r is Ok,
            final(self)@.postings == merge::intersection_of(old(self)@.postings, list@),
            final(self)@.merged == old(self)@.merged + 1,
            final(self).wf(),
    {
        if self.len() < list.len() / INTERSECTION_PERFORMANCE_TIPPING_SIZE_DIFF {
            self.intersection_by_search(list)
        } else {
            self.intersection_by_stitch(list)
        }
    }

    /// Intersects by a binary search of the list for each posting of the
    /// working set, each search starting where the last one ended.
    pub fn intersection_by_search(&mut self, list: &RawPostingList) -> (r: Result<(), Error>)
        requires
            old(self).wf(),
            list.wf(),
            list.sorted(),
            old(self)@.merged < u32::MAX,
        ensures
            r is Ok,
            final(self)@.postings == merge::intersection_of(old(self)@.postings, list@),
            final(self)@.merged == old(self)@.merged + 1,
            final(self).wf(),
    {
        let ghost w = self@.postings;
        let ghost l = list@;
        let ghost k = self.merged_num as nat;
        let n = self.postings.len();
        let m = list.len();
        let mut out: Vec<Posting> = Vec::new();
        let mut i: usize = 0;
        let mut min: u32 = 0;
        assert(views(out@) =~= merge::kept(w, l, 0));
        while i < n && min < m
            invariant
                list.wf(),
                l == list@,
                m == l.len(),
                n == self.postings@.len(),
                n == w.len(),
                i <= n,
                min <= m,
                self.merged_num == k,
                merge::docs_increase(w),
                ids_increase(l),
                forall|x: int| i <= x < n ==> (#[trigger] self.postings@[x])@ == w[x],
                views(out@) == merge::kept(w, l, i as nat),
                forall|x: int, y: int|
                    0 <= x < min && i <= y < n ==> (#[trigger] l[x]).doc_id < (
                    #[trigger] w[y]).doc_id,
            decreases n - i,
        {
            let value = self.postings[i].doc_id;
            let mut max = m;
            let mut find = false;
            while min < max && !find
                invariant
                    list.wf(),
                    l == list@,
                    m == l.len(),
                    n == self.postings@.len(),
                    n == w.len(),
                    i < n,
                    min <= max <= m,
                    self.merged_num == k,
                    value == w[i as int].doc_id,
                    merge::docs_increase(w),
                    ids_increase(l),
                    forall|x: int| i < x < n ==> (#[trigger] self.postings@[x])@ == w[x],
                    !find ==> self.postings@[i as int]@ == w[i as int],
                    !find ==> views(out@) == merge::kept(w, l, i as nat),
                    !find ==> forall|x: int| 0 <= x < min ==> (#[trigger] l[x]).doc_id < value,
                    !find ==> forall|x: int| max <= x < m ==> (#[trigger] l[x]).doc_id > value,
                    find ==> views(out@) == merge::kept(w, l, (i + 1) as nat),
                    find ==> forall|x: int| 0 <= x < min ==> (#[trigger] l[x]).doc_id <= value,
                decreases max - min + if find { 0int } else { 1int },
            {
                let ghost before = views(out@);
                let mid = min + (max - min) / 2;
                let c_value = match list.get_doc_id(mid) {
                    Ok(v) => v,
                    Err(e) => return Err(e),
                };
                if c_value < value {
                    min = mid + 1;
                } else if c_value > value {
                    max = mid;
                } else {
                    find = true;
                    let tf = match list.get_tf(mid) {
                        Ok(v) => v,
                        Err(e) => return Err(e),
                    };
                    let norm = match list.get_norm(mid) {
                        Ok(v) => v,
                        Err(e) => return Err(e),
                    };
                    let mut posting = self.take(i);
                    posting.add(TermPriorityInfo::new(tf, norm));
                    out.push(posting);
                    min = mid + 1;
                    proof {
                        merge::lemma_listed(l, mid as int);
                        assert(views(out@) =~= before.push(w[i as int].with(l[mid as int].info)));
                    }
                }
            }
            proof {
                if !find {
                    assert(!merge::lists_doc(l, value)) by {
                        if merge::lists_doc(l, value) {
                            let x = choose|x: int|
                                0 <= x < l.len() && (#[trigger] l[x]).doc_id == value;
                            assert(l[x].doc_id == value);
                        }
                    }
                }
            }
            i += 1;
        }
        proof {
            assert forall|y: int| i <= y < n implies !merge::lists_doc(
                l,
                (#[trigger] w[y]).doc_id,
            ) by {
                if merge::lists_doc(l, w[y].doc_id) {
                    let x = choose|x: int|
                        0 <= x < l.len() && (#[trigger] l[x]).doc_id == w[y].doc_id;
                    assert(l[x].doc_id < w[y].doc_id);
                }
            }
            merge::lemma_kept_rest(w, l, i as nat, n as nat);
            merge::lemma_kept_well_formed(w, l, k, n as nat);
        }
        self.postings = out;
        self.end_do_merge();
        Ok(())
    }

    /// Intersects by walking the working set and the list side by side.
    pub fn intersection_by_stitch(&mut self, list: &RawPostingList) -> (r: Result<(), Error>)
        requires
            old(self).wf(),
            list.wf(),
            list.sorted(),
            old(self)@.merged < u32::MAX,
        ensures
            r is Ok,
            final(self)@.postings == merge::intersection_of(old(self)@.postings, list@),
            final(self)@.merged == old(self)@.merged + 1,
            final(self).wf(),
    {
        let ghost w = self@.postings;
        let ghost l = list@;
        let ghost k = self.merged_num as nat;
        let n = self.postings.len();
        let m = list.len();
        let mut out: Vec<Posting> = Vec::new();
        let mut i: usize = 0;
        let mut j: u32 = 0;
        assert(views(out@) =~= merge::kept(w, l, 0));
        while i < n && j < m
            invariant
                list.wf(),
                l == list@,
                m == l.len(),
                n == self.postings@.len(),
                n == w.len(),
                i <= n,
                j <= m,
                self.merged_num == k,
                merge::docs_increase(w),
                ids_increase(l),
                forall|x: int| i <= x < n ==> (#[trigger] self.postings@[x])@ == w[x],
                views(out@) == merge::kept(w, l, i as nat),
                forall|x: int, y: int|
                    0 <= x < j && i <= y < n ==> (#[trigger] l[x]).doc_id < (
                    #[trigger] w[y]).doc_id,
            decreases (n - i) + (m - j),
        {
            let ghost before = views(out@);
            let va = self.postings[i].doc_id;
            let vb = match list.get_doc_id(j) {
                Ok(v) => v,
                Err(e) => return Err(e),
            };
            if va < vb {
                proof {
                    assert(!merge::lists_doc(l, va)) by {
                        if merge::lists_doc(l, va) {
                            let x = choose|x: int|
                                0 <= x < l.len() && (#[trigger] l[x]).doc_id == va;
                            assert(l[x].doc_id == va);
                            if x < j {
                                assert(l[x].doc_id < w[i as int].doc_id);
                            }
                        }
                    }
                }
                i += 1;
            } else if va > vb {
                j += 1;
            } else {
                let tf = match list.get_tf(j) {
                    Ok(v) => v,
                    Err(e) => return Err(e),
                };
                let norm = match list.get_norm(j) {
                    Ok(v) => v,
                    Err(e) => return Err(e),
                };
                let mut posting = self.take(i);
                posting.add(TermPriorityInfo::new(tf, norm));
                out.push(posting);
                proof {
                    merge::lemma_listed(l, j as int);
                    assert(views(out@) =~= before.push(w[i as int].with(l[j as int].info)));
                }
                i += 1;
                j += 1;
            }
        }
        proof {
            assert forall|y: int| i <= y < n implies !merge::lists_doc(
                l,
                (#[trigger] w[y]).doc_id,
            ) by {
                if merge::lists_doc(l, w[y].doc_id) {
                    let x = choose|x: int|
                        0 <= x < l.len() && (#[trigger] l[x]).doc_id == w[y].doc_id;
                    assert(l[x].doc_id < w[y].doc_id);
                }
            }
            merge::lemma_kept_rest(w, l, i as nat, n as nat);
            merge::lemma_kept_well_formed(w, l, k, n as nat);
        }
        self.postings = out;
        self.end_do_merge();
        Ok(())
    }

    /// Unites the working set with the posting list of one more term.
    /// Every posting gets one more entry: that of the list where the list
    /// holds the document, the absent entry where it does not. A document
    /// that only the list holds comes in with absent entries for the terms
    /// merged before.
    pub fn union(&mut self, list: &RawPostingList) -> (r: Result<(), Error>)
        requires
            list.wf(),
            old(self)@.merged < u32::MAX,
        ensures
            r is Ok,
            final(self)@.postings == merge::union_of(
                old(self)@.postings,
                list@,
                old(self)@.merged,
            ),
            final(self)@.merged == old(self)@.merged + 1,
            old(self).wf() && list.sorted() ==> final(self).wf(),
    {
        let ghost w = self@.postings;
        let ghost l = list@;
        let ghost k = self.merged_num as nat;
        let n = self.postings.len();
        let m = list.len();
        let mut out: Vec<Posting> = Vec::new();
        let mut i: usize = 0;
        let mut j: u32 = 0;
        assert(views(out@) + merge::union_from(w, l, k, 0, 0)
            =~= merge::union_from(w, l, k, 0, 0));
        while i < n || j < m
            invariant
                list.wf(),
                l == list@,
                m == list.len(),
                m == l.len(),
                n == self.postings@.len(),
                n == w.len(),
                i <= n,
                j <= m,
                self.merged_num == k,
                forall|x: int| i <= x < n ==> (#[trigger] self.postings@[x])@ == w[x],
                views(out@) + merge::union_from(w, l, k, i as int, j as int)
                    == merge::union_from(w, l, k, 0, 0),
            decreases (n - i) + (m - j),
        {
            let ghost before = views(out@);
            let ghost rest = merge::union_from(w, l, k, i as int, j as int);
            let mut from_set = j == m;
            let mut from_list = i == n;
            let mut info = TermPriorityInfo::not_exist();
            if j < m {
                let vb = match list.get_doc_id(j) {
                    Ok(v) => v,
                    Err(e) => return Err(e),
                };
                let tf = match list.get_tf(j) {
                    Ok(v) => v,
                    Err(e) => return Err(e),
                };
                let norm = match list.get_norm(j) {
                    Ok(v) => v,
                    Err(e) => return Err(e),
                };
                if i < n {
                    let va = self.postings[i].doc_id;
                    from_set = va < vb;
                    from_list = va > vb;
                }
                if !from_set {
                    info = TermPriorityInfo::new(tf, norm);
                }
                if from_list {
                    let mut posting = Posting::new(vb, self.merged_num);
                    posting.add(info);
                    out.push(posting);
                    j += 1;
                    proof {
                        let next = merge::union_from(w, l, k, i as int, j as int);
                        let head = merge::fresh(l[j - 1], k);
                        assert(rest == seq![head] + next);
                        assert(views(out@) =~= before.push(head));
                        assert(views(out@) + next =~= before + rest);
                    }
                    continue ;
                }
            }
            let mut posting = self.take(i);
            posting.add(info);
            out.push(posting);
            i += 1;
            if !from_set {
                j += 1;
            }
            proof {
                let next = merge::union_from(w, l, k, i as int, j as int);
                let head = w[i - 1].with(info);
                assert(rest == seq![head] + next);
                assert(views(out@) =~= before.push(head));
                assert(views(out@) + next =~= before + rest);
            }
        }
        assert(views(out@) =~= merge::union_from(w, l, k, 0, 0));
        self.postings = out;
        self.end_do_merge();
        proof {
            if merge::docs_increase(w) && merge::all_have(w, k)
                && list.sorted() {
                merge::lemma_union_well_formed(w, l, k);
            }
        }
        Ok(())
    }
}

} // verus!
