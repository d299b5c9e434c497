#[allow(unused_imports)]
use crate::store::posting;
use crate::store::posting::{RawPosting, TermPriorityInfo};
use vstd::prelude::*;

verus! {

/// A posting of a working set: a document and one entry for each term that
/// was merged so far, in the order of the merges.
pub struct PostingView {
    pub doc_id: u32,
    pub infos: Seq<TermPriorityInfo>,
}

impl PostingView {
    /// The posting with one more entry at its end.
    pub open spec fn with(self, info: TermPriorityInfo) -> PostingView {
        PostingView { doc_id: self.doc_id, infos: self.infos.push(info) }
    }
}

/// A working set: its postings, and the number of terms that were merged
/// into it.
pub struct WorkingSet {
    pub postings: Seq<PostingView>,
    pub merged: nat,
}

/// `k` entries of terms that do not occur.
pub open spec fn absent_infos(k: nat) -> Seq<TermPriorityInfo> {
    Seq::new(k, |i: int| TermPriorityInfo::absent())
}

/// The posting of a document that the first `k` merged terms did not
/// match and that the list of `p` matches.
pub open spec fn fresh(p: RawPosting, k: nat) -> PostingView {
    PostingView { doc_id: p.doc_id, infos: absent_infos(k).push(p.info) }
}

/// The identifiers of `w` grow strictly from each posting to the next.
pub open spec fn docs_increase(w: Seq<PostingView>) -> bool {
    forall|i: int, j: int| 0 <= i < j < w.len() ==> w[i].doc_id < w[j].doc_id
}

/// Every posting of `w` has `k` entries.
pub open spec fn all_have(w: Seq<PostingView>, k: nat) -> bool {
    forall|i: int| 0 <= i < w.len() ==> (#[trigger] w[i]).infos.len() == k
}

/// The working set `w` holds a posting of document `d`.
pub open spec fn holds_doc(w: Seq<PostingView>, d: u32) -> bool {
    exists|i: int| 0 <= i < w.len() && (#[trigger] w[i]).doc_id == d
}

/// The list `l` holds a posting of document `d`.
pub open spec fn lists_doc(l: Seq<RawPosting>, d: u32) -> bool {
    exists|i: int| 0 <= i < l.len() && (#[trigger] l[i]).doc_id == d
}

/// The entry that the list `l` has for document `d`, the absent entry if it
/// has none.
pub open spec fn listed_info(l: Seq<RawPosting>, d: u32) -> TermPriorityInfo {
    if lists_doc(l, d) {
        l[choose|i: int| 0 <= i < l.len() && (#[trigger] l[i]).doc_id == d].info
    } else {
        TermPriorityInfo::absent()
    }
}

/// The entries that the working set `w` has for document `d`, `k` absent
/// entries if it has none.
pub open spec fn held_infos(w: Seq<PostingView>, k: nat, d: u32) -> Seq<TermPriorityInfo> {
    if holds_doc(w, d) {
        w[choose|i: int| 0 <= i < w.len() && (#[trigger] w[i]).doc_id == d].infos
    } else {
        absent_infos(k)
    }
}

/// The union of what is left of a working set from its posting `i` on with
/// what is left of a list from its posting `j` on, the smaller document
/// first. `k` terms were merged into the working set before.
pub open spec fn union_from(
    w: Seq<PostingView>,
    l: Seq<RawPosting>,
    k: nat,
    i: int,
    j: int,
) -> Seq<PostingView>
    decreases w.len() - i + l.len() - j,
{
    if i < 0 || j < 0 || i > w.len() || j > l.len() || (i == w.len() && j == l.len()) {
        Seq::empty()
    } else if j == l.len() || (i < w.len() && w[i].doc_id < l[j].doc_id) {
        seq![w[i].with(TermPriorityInfo::absent())] + union_from(w, l, k, i + 1, j)
    } else if i == w.len() || w[i].doc_id > l[j].doc_id {
        seq![fresh(l[j], k)] + union_from(w, l, k, i, j + 1)
    } else {
        seq![w[i].with(l[j].info)] + union_from(w, l, k, i + 1, j + 1)
    }
}

/// The working set after the list `l` was united with the working set `w`,
/// into which `k` terms were merged before: a document of both gets the
/// entry of the list, a document of the working set alone the absent
/// entry, and a document of the list alone `k` absent entries and then its
/// own.
pub open spec fn union_of(w: Seq<PostingView>, l: Seq<RawPosting>, k: nat) -> Seq<PostingView> {
    union_from(w, l, k, 0, 0)
}

/// The postings among the first `n` of `w` whose document the list `l`
/// holds, each with the entry of the list at its end.
pub open spec fn kept(w: Seq<PostingView>, l: Seq<RawPosting>, n: nat) -> Seq<PostingView>
    decreases n,
{
    if n == 0 || n > w.len() {
        Seq::empty()
    } else {
        let before = kept(w, l, (n - 1) as nat);
        let p = w[n - 1];
        if lists_doc(l, p.doc_id) {
            before.push(p.with(listed_info(l, p.doc_id)))
        } else {
            before
        }
    }
}

/// The working set after it was intersected with the list `l`: the
/// postings whose document the list holds stay, in their order, and get
/// the entry of the list.
pub open spec fn intersection_of(w: Seq<PostingView>, l: Seq<RawPosting>) -> Seq<PostingView> {
    kept(w, l, w.len())
}


/// Everything that `union_from` yields from `i` and `j` on is a document of
/// what is left of the working set or of the list, has one entry more than
/// `k`, and the identifiers grow strictly.
pub proof fn lemma_union_from(w: Seq<PostingView>, l: Seq<RawPosting>, k: nat, i: int, j: int)
    requires
        0 <= i <= w.len(),
        0 <= j <= l.len(),
        docs_increase(w),
        all_have(w, k),
        posting::ids_increase(l),
    ensures
        docs_increase(union_from(w, l, k, i, j)),
        all_have(union_from(w, l, k, i, j), k + 1),
        forall|x: int|
            0 <= x < union_from(w, l, k, i, j).len() ==> {
                ||| (i < w.len() && (#[trigger] union_from(w, l, k, i, j)[x]).doc_id >= w[i].doc_id)
                ||| (j < l.len() && union_from(w, l, k, i, j)[x].doc_id >= l[j].doc_id)
            },
    decreases w.len() - i + l.len() - j,
{
    let u = union_from(w, l, k, i, j);
    if i == w.len() && j == l.len() {
    } else if j == l.len() || (i < w.len() && w[i].doc_id < l[j].doc_id) {
        lemma_union_from(w, l, k, i + 1, j);
        let next = union_from(w, l, k, i + 1, j);
        assert(u == seq![w[i].with(TermPriorityInfo::absent())] + next);
        assert forall|x: int| 0 < x < u.len() implies u[x] == next[x - 1] by {}
    } else if i == w.len() || w[i].doc_id > l[j].doc_id {
        lemma_union_from(w, l, k, i, j + 1);
        let next = union_from(w, l, k, i, j + 1);
        assert(u == seq![fresh(l[j], k)] + next);
        assert forall|x: int| 0 < x < u.len() implies u[x] == next[x - 1] by {}
    } else {
        lemma_union_from(w, l, k, i + 1, j + 1);
        let next = union_from(w, l, k, i + 1, j + 1);
        assert(u == seq![w[i].with(l[j].info)] + next);
        assert forall|x: int| 0 < x < u.len() implies u[x] == next[x - 1] by {}
    }
}

/// The union of a well-formed working set with a sorted list is a
/// well-formed working set of one more merged term.
pub proof fn lemma_union_well_formed(w: Seq<PostingView>, l: Seq<RawPosting>, k: nat)
    requires
        docs_increase(w),
        all_have(w, k),
        posting::ids_increase(l),
    ensures
        docs_increase(union_of(w, l, k)),
        all_have(union_of(w, l, k), k + 1),
{
    lemma_union_from(w, l, k, 0, 0);
}


/// In a list whose identifiers grow strictly, the entry listed for the
/// document of the posting at `x` is that posting's.
pub proof fn lemma_listed(l: Seq<RawPosting>, x: int)
    requires
        posting::ids_increase(l),
        0 <= x < l.len(),
    ensures
        lists_doc(l, l[x].doc_id),
        listed_info(l, l[x].doc_id) == l[x].info,
{
    let d = l[x].doc_id;
    let c = choose|i: int| 0 <= i < l.len() && (#[trigger] l[i]).doc_id == d;
    assert(l[x].doc_id == d);
    if c < x {
        assert(l[c].doc_id < l[x].doc_id);
    }
    if x < c {
        assert(l[x].doc_id < l[c].doc_id);
    }
}

/// Postings whose documents the list does not hold add nothing to what is
/// kept.
pub proof fn lemma_kept_rest(w: Seq<PostingView>, l: Seq<RawPosting>, i: nat, n: nat)
    requires
        i <= n <= w.len(),
        forall|y: int| i <= y < n ==> !lists_doc(l, (#[trigger] w[y]).doc_id),
    ensures
        kept(w, l, n) == kept(w, l, i),
    decreases n - i,
{
    if i < n {
        lemma_kept_rest(w, l, i, (n - 1) as nat);
        assert(!lists_doc(l, w[n - 1].doc_id));
    }
}

/// What is kept of a well-formed working set is well formed, with one more
/// merged term, and holds no document beyond those of the postings it was
/// taken from.
pub proof fn lemma_kept_well_formed(w: Seq<PostingView>, l: Seq<RawPosting>, k: nat, n: nat)
    requires
        n <= w.len(),
        docs_increase(w),
        all_have(w, k),
    ensures
        docs_increase(kept(w, l, n)),
        all_have(kept(w, l, n), k + 1),
        forall|x: int|
            0 <= x < kept(w, l, n).len() ==> n > 0 && (#[trigger] kept(w, l, n)[x]).doc_id <= w[n
                - 1].doc_id,
    decreases n,
{
    if n > 0 {
        lemma_kept_well_formed(w, l, k, (n - 1) as nat);
        let before = kept(w, l, (n - 1) as nat);
        assert forall|x: int| 0 <= x < before.len() implies (#[trigger] before[x]).doc_id < w[n
            - 1].doc_id by {
            assert(before[x].doc_id <= w[n - 2].doc_id);
            assert(w[n - 2].doc_id < w[n - 1].doc_id);
        }
    }
}


/// What `union_from` yields where nothing is left of the working set: the
/// postings of the list from `j` on, each as a fresh posting.
pub proof fn lemma_union_from_list_only(w: Seq<PostingView>, l: Seq<RawPosting>, k: nat, j: int)
    requires
        0 <= j <= l.len(),
    ensures
        union_from(w, l, k, w.len() as int, j).len() == l.len() - j,
        forall|x: int|
            0 <= x < l.len() - j ==> #[trigger] union_from(w, l, k, w.len() as int, j)[x] == fresh(
                l[j + x],
                k,
            ),
    decreases l.len() - j,
{
    if j < l.len() {
        lemma_union_from_list_only(w, l, k, j + 1);
    }
}

/// Uniting the empty working set with a list gives the documents of the
/// list, in the order of the list.
pub proof fn lemma_union_of_empty(l: Seq<RawPosting>, k: nat)
    ensures
        union_of(Seq::empty(), l, k).len() == l.len(),
        forall|x: int|
            0 <= x < l.len() ==> (#[trigger] union_of(Seq::empty(), l, k)[x]).doc_id
                == l[x].doc_id,
        forall|x: int|
            0 <= x < l.len() ==> #[trigger] union_of(Seq::empty(), l, k)[x] == fresh(l[x], k),
{
    lemma_union_from_list_only(Seq::empty(), l, k, 0);
}

/// Uniting once more with the same list, from the place in the first union
/// where `union_from(w, l, k, i, j)` begins: no document is added, and
/// every posting gets its last entry a second time.
proof fn lemma_union_again(
    w: Seq<PostingView>,
    l: Seq<RawPosting>,
    k: nat,
    i: int,
    j: int,
    p: int,
)
    requires
        0 <= i <= w.len(),
        0 <= j <= l.len(),
        0 <= p,
        p + union_from(w, l, k, i, j).len() == union_of(w, l, k).len(),
        forall|x: int|
            0 <= x < union_from(w, l, k, i, j).len() ==> #[trigger] union_of(w, l, k)[p + x]
                == union_from(w, l, k, i, j)[x],
    ensures
        union_from(union_of(w, l, k), l, k + 1, p, j).len() == union_from(w, l, k, i, j).len(),
        forall|x: int|
            0 <= x < union_from(w, l, k, i, j).len() ==> {
                let first = union_from(w, l, k, i, j)[x];
                let second = #[trigger] union_from(union_of(w, l, k), l, k + 1, p, j)[x];
                second == first.with(first.infos.last())
            },
    decreases w.len() - i + l.len() - j,
{
    let u = union_of(w, l, k);
    let first = union_from(w, l, k, i, j);
    let second = union_from(u, l, k + 1, p, j);
    if i == w.len() && j == l.len() {
    } else {
        let (i2, j2) = if j == l.len() || (i < w.len() && w[i].doc_id < l[j].doc_id) {
            (i + 1, j)
        } else if i == w.len() || w[i].doc_id > l[j].doc_id {
            (i, j + 1)
        } else {
            (i + 1, j + 1)
        };
        let next = union_from(w, l, k, i2, j2);
        assert(first.len() == next.len() + 1);
        assert(u[p + 0] == first[0]);
        assert forall|x: int| 0 <= x < next.len() implies #[trigger] u[p + 1 + x] == next[x] by {
            assert(u[p + (x + 1)] == first[x + 1]);
        }
        lemma_union_again(w, l, k, i2, j2, p + 1);
        let after = union_from(u, l, k + 1, p + 1, j2);
        assert(second == seq![first[0].with(first[0].infos.last())] + after);
        assert forall|x: int| 0 <= x < first.len() implies {
            let a = first[x];
            let b = #[trigger] second[x];
            b == a.with(a.infos.last())
        } by {
            if x > 0 {
                assert(second[x] == after[x - 1]);
                assert(first[x] == next[x - 1]);
            }
        }
    }
}

/// Uniting a working set twice with the same list: the second union adds
/// no document, and gives every posting the entry of the first union a
/// second time.
pub proof fn lemma_union_twice(w: Seq<PostingView>, l: Seq<RawPosting>, k: nat)
    ensures
        union_of(union_of(w, l, k), l, k + 1).len() == union_of(w, l, k).len(),
        forall|x: int|
            0 <= x < union_of(w, l, k).len() ==> {
                let first = union_of(w, l, k)[x];
                let second = #[trigger] union_of(union_of(w, l, k), l, k + 1)[x];
                &&& second.doc_id == first.doc_id
                &&& first.infos.len() > 0
                &&& second.infos == first.infos.push(first.infos.last())
            },
{
    lemma_union_again(w, l, k, 0, 0, 0);
    lemma_union_entries(w, l, k, 0, 0);
}

/// Every posting that `union_from` yields has an entry.
proof fn lemma_union_entries(w: Seq<PostingView>, l: Seq<RawPosting>, k: nat, i: int, j: int)
    requires
        0 <= i <= w.len(),
        0 <= j <= l.len(),
    ensures
        forall|x: int|
            0 <= x < union_from(w, l, k, i, j).len() ==> (
            #[trigger] union_from(w, l, k, i, j)[x]).infos.len() > 0,
    decreases w.len() - i + l.len() - j,
{
    let u = union_from(w, l, k, i, j);
    if i == w.len() && j == l.len() {
    } else if j == l.len() || (i < w.len() && w[i].doc_id < l[j].doc_id) {
        lemma_union_entries(w, l, k, i + 1, j);
        let next = union_from(w, l, k, i + 1, j);
        assert forall|x: int| 0 < x < u.len() implies u[x] == next[x - 1] by {}
    } else if i == w.len() || w[i].doc_id > l[j].doc_id {
        lemma_union_entries(w, l, k, i, j + 1);
        let next = union_from(w, l, k, i, j + 1);
        assert forall|x: int| 0 < x < u.len() implies u[x] == next[x - 1] by {}
    } else {
        lemma_union_entries(w, l, k, i + 1, j + 1);
        let next = union_from(w, l, k, i + 1, j + 1);
        assert forall|x: int| 0 < x < u.len() implies u[x] == next[x - 1] by {}
    }
}


/// The working set `w` holds a posting of document `d` at `i` or later.
pub open spec fn holds_from(w: Seq<PostingView>, i: int, d: u32) -> bool {
    exists|y: int| i <= y < w.len() && (#[trigger] w[y]).doc_id == d
}

/// The list `l` holds a posting of document `d` at `j` or later.
pub open spec fn lists_from(l: Seq<RawPosting>, j: int, d: u32) -> bool {
    exists|x: int| j <= x < l.len() && (#[trigger] l[x]).doc_id == d
}

/// The postings of the list before `j` have smaller documents than the
/// postings of the working set from `i` on, and the postings of the
/// working set before `i` have smaller documents than the postings of the
/// list from `j` on.
pub open spec fn apart(w: Seq<PostingView>, l: Seq<RawPosting>, i: int, j: int) -> bool {
    &&& forall|x: int, y: int|
        0 <= x < j && i <= y < w.len() ==> (#[trigger] l[x]).doc_id < (#[trigger] w[y]).doc_id
    &&& forall|x: int, y: int|
        0 <= y < i && j <= x < l.len() ==> (#[trigger] w[y]).doc_id < (#[trigger] l[x]).doc_id
}

/// In a working set whose identifiers grow strictly, the entries held for
/// the document of the posting at `y` are that posting's.
pub proof fn lemma_held(w: Seq<PostingView>, k: nat, y: int)
    requires
        docs_increase(w),
        0 <= y < w.len(),
    ensures
        holds_doc(w, w[y].doc_id),
        held_infos(w, k, w[y].doc_id) == w[y].infos,
{
    let d = w[y].doc_id;
    let c = choose|i: int| 0 <= i < w.len() && (#[trigger] w[i]).doc_id == d;
    assert(w[y].doc_id == d);
    if c < y {
        assert(w[c].doc_id < w[y].doc_id);
    }
    if y < c {
        assert(w[y].doc_id < w[c].doc_id);
    }
}

/// What `union_from` yields from `i` and `j` on holds the documents of what
/// is left of the working set and of the list, and no others; each has
/// the entries that the working set held for it, or absent ones, and then
/// the entry that the list has for it, or the absent one.
pub proof fn lemma_union_from_documents(
    w: Seq<PostingView>,
    l: Seq<RawPosting>,
    k: nat,
    i: int,
    j: int,
)
    requires
        0 <= i <= w.len(),
        0 <= j <= l.len(),
        docs_increase(w),
        posting::ids_increase(l),
        apart(w, l, i, j),
    ensures
        forall|d: u32| #[trigger]
            holds_doc(union_from(w, l, k, i, j), d) <==> holds_from(w, i, d) || lists_from(l, j, d),
        forall|x: int|
            0 <= x < union_from(w, l, k, i, j).len() ==> (#[trigger] union_from(
                w,
                l,
                k,
                i,
                j,
            )[x]).infos == held_infos(w, k, union_from(w, l, k, i, j)[x].doc_id).push(
                listed_info(l, union_from(w, l, k, i, j)[x].doc_id),
            ),
    decreases w.len() - i + l.len() - j,
{
    let u = union_from(w, l, k, i, j);
    if i == w.len() && j == l.len() {
        assert forall|d: u32| #[trigger]
            holds_doc(u, d) <==> holds_from(w, i, d) || lists_from(l, j, d) by {}
    } else {
        let from_set = j == l.len() || (i < w.len() && w[i].doc_id < l[j].doc_id);
        let from_list = !from_set && (i == w.len() || w[i].doc_id > l[j].doc_id);
        let i2 = if from_list { i } else { i + 1 };
        let j2 = if from_set { j } else { j + 1 };
        let next = union_from(w, l, k, i2, j2);
        let head = u[0];
        let doc = head.doc_id;
        assert(u == seq![head] + next);
        assert(apart(w, l, i2, j2)) by {
            assert forall|x: int, y: int| 0 <= x < j2 && i2 <= y < w.len() implies (
            #[trigger] l[x]).doc_id < (#[trigger] w[y]).doc_id by {
                if x == j && j2 == j + 1 {
                    if i < w.len() && y > i {
                        assert(w[i].doc_id < w[y].doc_id);
                    }
                }
            }
            assert forall|x: int, y: int| 0 <= y < i2 && j2 <= x < l.len() implies (
            #[trigger] w[y]).doc_id < (#[trigger] l[x]).doc_id by {
                if y == i && i2 == i + 1 {
                    if j < l.len() && x > j {
                        assert(l[j].doc_id < l[x].doc_id);
                    }
                }
            }
        }
        lemma_union_from_documents(w, l, k, i2, j2);
        // the head
        if from_list {
            lemma_listed(l, j);
            assert(!holds_doc(w, doc)) by {
                if holds_doc(w, doc) {
                    let y = choose|y: int| 0 <= y < w.len() && (#[trigger] w[y]).doc_id == doc;
                    if y >= i {
                        assert(w[i].doc_id <= w[y].doc_id);
                    } else {
                        assert(w[y].doc_id < l[j].doc_id);
                    }
                }
            }
        } else {
            lemma_held(w, k, i);
            if from_set {
                assert(!lists_doc(l, doc)) by {
                    if lists_doc(l, doc) {
                        let x = choose|x: int| 0 <= x < l.len() && (#[trigger] l[x]).doc_id == doc;
                        if x >= j {
                            assert(l[j].doc_id <= l[x].doc_id);
                        } else {
                            assert(l[x].doc_id < w[i].doc_id);
                        }
                    }
                }
            } else {
                lemma_listed(l, j);
            }
        }
        assert forall|x: int| 0 <= x < u.len() implies (#[trigger] u[x]).infos == held_infos(
            w,
            k,
            u[x].doc_id,
        ).push(listed_info(l, u[x].doc_id)) by {
            if x > 0 {
                assert(u[x] == next[x - 1]);
            }
        }
        assert forall|d: u32| #[trigger]
            holds_doc(u, d) <==> holds_from(w, i, d) || lists_from(l, j, d) by {
            if holds_doc(u, d) {
                let x = choose|x: int| 0 <= x < u.len() && (#[trigger] u[x]).doc_id == d;
                if x > 0 {
                    assert(next[x - 1].doc_id == d);
                    assert(holds_doc(next, d));
                    if holds_from(w, i2, d) {
                        let y = choose|y: int| i2 <= y < w.len() && (#[trigger] w[y]).doc_id == d;
                        assert(w[y].doc_id == d);
                    } else {
                        let z = choose|z: int| j2 <= z < l.len() && (#[trigger] l[z]).doc_id == d;
                        assert(l[z].doc_id == d);
                    }
                } else if from_list {
                    assert(l[j].doc_id == d);
                } else {
                    assert(w[i].doc_id == d);
                }
            }
            if holds_from(w, i, d) {
                let y = choose|y: int| i <= y < w.len() && (#[trigger] w[y]).doc_id == d;
                if y >= i2 {
                    assert(holds_from(w, i2, d));
                    assert(holds_doc(next, d));
                    let x = choose|x: int| 0 <= x < next.len() && (#[trigger] next[x]).doc_id == d;
                    assert(u[x + 1].doc_id == d);
                } else {
                    assert(u[0].doc_id == d);
                }
            }
            if lists_from(l, j, d) {
                let z = choose|z: int| j <= z < l.len() && (#[trigger] l[z]).doc_id == d;
                if z >= j2 {
                    assert(lists_from(l, j2, d));
                    assert(holds_doc(next, d));
                    let x = choose|x: int| 0 <= x < next.len() && (#[trigger] next[x]).doc_id == d;
                    assert(u[x + 1].doc_id == d);
                } else {
                    assert(u[0].doc_id == d);
                }
            }
        }
    }
}

/// The union of a working set and a list whose identifiers grow strictly
/// holds the documents of both and no others. A document of both has the
/// entries of the working set and then the entry of the list; a document
/// of the working set alone has its entries and then the absent entry; a
/// document of the list alone has `k` absent entries and then the entry
/// of the list.
pub proof fn lemma_union_documents(w: Seq<PostingView>, l: Seq<RawPosting>, k: nat)
    requires
        docs_increase(w),
        posting::ids_increase(l),
    ensures
        forall|d: u32| #[trigger]
            holds_doc(union_of(w, l, k), d) <==> holds_doc(w, d) || lists_doc(l, d),
        forall|x: int|
            0 <= x < union_of(w, l, k).len() ==> (#[trigger] union_of(w, l, k)[x]).infos
                == held_infos(w, k, union_of(w, l, k)[x].doc_id).push(
                listed_info(l, union_of(w, l, k)[x].doc_id),
            ),
{
    lemma_union_from_documents(w, l, k, 0, 0);
    assert forall|d: u32| #[trigger]
        holds_doc(union_of(w, l, k), d) <==> holds_doc(w, d) || lists_doc(l, d) by {
        assert(holds_doc(union_from(w, l, k, 0, 0), d) <==> holds_from(w, 0, d) || lists_from(
            l,
            0,
            d,
        ));
        if holds_from(w, 0, d) {
            let y = choose|y: int| 0 <= y < w.len() && (#[trigger] w[y]).doc_id == d;
            assert(w[y].doc_id == d);
        }
        if holds_doc(w, d) {
            let y = choose|y: int| 0 <= y < w.len() && (#[trigger] w[y]).doc_id == d;
            assert(w[y].doc_id == d);
        }
        if lists_from(l, 0, d) {
            let z = choose|z: int| 0 <= z < l.len() && (#[trigger] l[z]).doc_id == d;
            assert(l[z].doc_id == d);
        }
        if lists_doc(l, d) {
            let z = choose|z: int| 0 <= z < l.len() && (#[trigger] l[z]).doc_id == d;
            assert(l[z].doc_id == d);
        }
    }
}


/// What is kept of the first `n` postings of a working set holds the
/// documents of these postings that the list holds, and no others.
pub proof fn lemma_kept_documents(w: Seq<PostingView>, l: Seq<RawPosting>, n: nat, d: u32)
    requires
        n <= w.len(),
    ensures
        holds_doc(kept(w, l, n), d) <==> lists_doc(l, d) && exists|y: int|
            0 <= y < n && (#[trigger] w[y]).doc_id == d,
    decreases n,
{
    if n > 0 {
        let before = kept(w, l, (n - 1) as nat);
        let now = kept(w, l, n);
        let p = w[n - 1];
        lemma_kept_documents(w, l, (n - 1) as nat, d);
        if holds_doc(now, d) {
            let x = choose|x: int| 0 <= x < now.len() && (#[trigger] now[x]).doc_id == d;
            if x < before.len() {
                assert(before[x].doc_id == d);
                let y = choose|y: int| 0 <= y < n - 1 && (#[trigger] w[y]).doc_id == d;
                assert(w[y].doc_id == d);
            } else {
                assert(w[n - 1].doc_id == d);
            }
        }
        if lists_doc(l, d) && exists|y: int| 0 <= y < n && (#[trigger] w[y]).doc_id == d {
            let y = choose|y: int| 0 <= y < n && (#[trigger] w[y]).doc_id == d;
            if y < n - 1 {
                assert(holds_doc(before, d));
                let x = choose|x: int| 0 <= x < before.len() && (#[trigger] before[x]).doc_id == d;
                assert(now[x].doc_id == d);
            } else {
                assert(now[now.len() - 1].doc_id == d);
            }
        }
    }
}

/// The intersection of a working set with a list holds the documents of
/// both, and no others.
pub proof fn lemma_intersection_documents(w: Seq<PostingView>, l: Seq<RawPosting>, d: u32)
    ensures
        holds_doc(intersection_of(w, l), d) <==> holds_doc(w, d) && lists_doc(l, d),
{
    lemma_kept_documents(w, l, w.len(), d);
    if holds_doc(w, d) {
        let y = choose|y: int| 0 <= y < w.len() && (#[trigger] w[y]).doc_id == d;
        assert(w[y].doc_id == d);
    }
}

} // verus!
