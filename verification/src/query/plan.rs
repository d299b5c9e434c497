#[allow(unused_imports)]
use crate::analyzer::analyzer;
#[allow(unused_imports)]
use crate::store::{merge, posting};
use crate::query::query::same_text;
use crate::store::posting::{PostingListMerger, RawPostingList};
use vstd::prelude::*;

verus! {

/// A term of a query, with the number of times that it stands in the
/// query. The number stays at 65535 once it has reached it.
#[derive(Debug, Clone, Copy)]
pub struct QueryTerm<'s> {
    pub text: &'s str,
    pub count: u16,
}

/// The terms of `terms` without those that stood in it before, in the
/// order in which they are first seen.
pub open spec fn first_seen(terms: Seq<Seq<char>>) -> Seq<Seq<char>>
    decreases terms.len(),
{
    if terms.len() == 0 {
        Seq::empty()
    } else if terms.drop_last().contains(terms.last()) {
        first_seen(terms.drop_last())
    } else {
        first_seen(terms.drop_last()).push(terms.last())
    }
}

/// A number of occurrences as sixteen bits hold it.
pub open spec fn saturated(n: nat) -> u16 {
    if n > 65535 {
        65535u16
    } else {
        n as u16
    }
}

/// `counts` holds each term of `terms` once, in the order in which the
/// terms are first seen, with the number of times it stands in `terms`.
pub open spec fn counts_of(terms: Seq<Seq<char>>, counts: Seq<QueryTerm>) -> bool {
    &&& counts.len() == first_seen(terms).len()
    &&& forall|i: int|
        0 <= i < counts.len() ==> {
            &&& (#[trigger] counts[i]).text@ == first_seen(terms)[i]
            &&& counts[i].count == saturated(analyzer::occurrences(terms, first_seen(terms)[i]))
        }
}

/// A term is first seen in `terms` if and only if it stands in `terms`.
pub proof fn lemma_first_seen(terms: Seq<Seq<char>>, term: Seq<char>)
    ensures
        first_seen(terms).contains(term) <==> terms.contains(term),
    decreases terms.len(),
{
    if terms.len() > 0 {
        let front = terms.drop_last();
        lemma_first_seen(front, term);
        lemma_first_seen(front, terms.last());
        if terms.contains(term) {
            let i = choose|i: int| 0 <= i < terms.len() && terms[i] == term;
            if i < terms.len() - 1 {
                assert(front[i] == term);
            }
        }
        if front.contains(term) {
            let i = choose|i: int| 0 <= i < front.len() && front[i] == term;
            assert(terms[i] == term);
        }
        if first_seen(terms).contains(term) {
            let i = choose|i: int| 0 <= i < first_seen(terms).len() && first_seen(terms)[i] == term;
            if !front.contains(terms.last()) && i < first_seen(front).len() {
                assert(first_seen(front)[i] == term);
            }
        }
        if first_seen(front).contains(term) {
            let i = choose|i: int| 0 <= i < first_seen(front).len() && first_seen(front)[i] == term;
            assert(first_seen(terms)[i] == term);
        }
        if terms.last() == term {
            assert(terms[terms.len() - 1] == term);
            if !front.contains(term) {
                assert(first_seen(terms)[first_seen(terms).len() - 1] == term);
            }
        }
    }
}

/// No term is first seen twice.
pub proof fn lemma_first_seen_once(terms: Seq<Seq<char>>)
    ensures
        forall|i: int, j: int|
            0 <= i < j < first_seen(terms).len() ==> first_seen(terms)[i] != first_seen(terms)[j],
    decreases terms.len(),
{
    if terms.len() > 0 {
        let front = terms.drop_last();
        lemma_first_seen_once(front);
        lemma_first_seen(front, terms.last());
        assert forall|i: int, j: int| 0 <= i < j < first_seen(terms).len() implies first_seen(
            terms,
        )[i] != first_seen(terms)[j] by {
            if j == first_seen(front).len() {
                if first_seen(front)[i] == terms.last() {
                    assert(first_seen(front).contains(terms.last()));
                }
            }
        }
    }
}

/// A term that does not stand in `terms` has no occurrence in it.
pub proof fn lemma_no_occurrence(terms: Seq<Seq<char>>, term: Seq<char>)
    requires
        !terms.contains(term),
    ensures
        analyzer::occurrences(terms, term) == 0,
    decreases terms.len(),
{
    if terms.len() > 0 {
        let front = terms.drop_last();
        assert(terms[terms.len() - 1] != term);
        if front.contains(term) {
            let i = choose|i: int| 0 <= i < front.len() && front[i] == term;
            assert(terms[i] == term);
        }
        lemma_no_occurrence(front, term);
    }
}

/// Counts how often each term of a query stands in it.
pub fn count_terms<'s>(terms: &Vec<&'s str>) -> (counts: Vec<QueryTerm<'s>>)
    ensures
        counts_of(analyzer::texts(terms@), counts@),
{
    let ghost all = analyzer::texts(terms@);
    let mut counts: Vec<QueryTerm<'s>> = Vec::new();
    let mut i: usize = 0;
    assert(all.take(0) =~= Seq::<Seq<char>>::empty());
    while i < terms.len()
        invariant
            i <= terms@.len(),
            all == analyzer::texts(terms@),
            counts_of(all.take(i as int), counts@),
        decreases terms@.len() - i,
    {
        let word = terms[i];
        let ghost seen = all.take(i as int);
        let ghost now = all.take(i + 1);
        let ghost before = counts@;
        proof {
            assert(now.drop_last() =~= seen);
            assert(now.last() == word@);
            lemma_first_seen(seen, word@);
        }
        let mut j: usize = 0;
        let mut found = false;
        while j < counts.len() && !found
            invariant
                j <= counts@.len(),
                counts@ == before,
                counts_of(seen, before),
                forall|x: int|
                    0 <= x < j && !(found && x == j - 1) ==> (#[trigger] before[x]).text@
                        != word@,
                found ==> j > 0 && before[j - 1].text@ == word@,
            decreases counts@.len() - j + if found { 0int } else { 1int },
        {
            if same_text(counts[j].text, word) {
                found = true;
            }
            j += 1;
        }
        if found {
            let at = j - 1;
            let old_count = counts[at].count;
            let new_count = if old_count < u16::MAX {
                old_count + 1
            } else {
                old_count
            };
            counts[at] = QueryTerm { text: counts[at].text, count: new_count };
            proof {
                assert(first_seen(seen)[at as int] == word@);
                assert(first_seen(seen).contains(word@));
                assert(first_seen(now) == first_seen(seen));
                lemma_first_seen_once(seen);
                assert forall|x: int| 0 <= x < counts@.len() implies {
                    &&& (#[trigger] counts@[x]).text@ == first_seen(now)[x]
                    &&& counts@[x].count == saturated(
                        analyzer::occurrences(now, first_seen(now)[x]),
                    )
                } by {
                    if x != at {
                        assert(counts@[x] == before[x]);
                        assert(first_seen(seen)[x] != first_seen(seen)[at as int]);
                    } else {
                        assert(before[x].count == saturated(analyzer::occurrences(seen, word@)));
                    }
                }
            }
        } else {
            counts.push(QueryTerm { text: word, count: 1 });
            proof {
                assert(!first_seen(seen).contains(word@)) by {
                    if first_seen(seen).contains(word@) {
                        let x = choose|x: int|
                            0 <= x < first_seen(seen).len() && first_seen(seen)[x] == word@;
                        assert(before[x].text@ == word@);
                    }
                }
                lemma_no_occurrence(seen, word@);
                assert(first_seen(now) == first_seen(seen).push(word@));
                assert forall|x: int| 0 <= x < counts@.len() implies {
                    &&& (#[trigger] counts@[x]).text@ == first_seen(now)[x]
                    &&& counts@[x].count == saturated(
                        analyzer::occurrences(now, first_seen(now)[x]),
                    )
                } by {
                    if x < before.len() {
                        assert(counts@[x] == before[x]);
                        assert(first_seen(seen)[x] != word@) by {
                            if first_seen(seen)[x] == word@ {
                                assert(first_seen(seen).contains(word@));
                            }
                        }
                    }
                }
            }
        }
        i += 1;
    }
    assert(all.take(terms@.len() as int) =~= all);
    counts
}

/// What the lists of `lists` hold.
pub open spec fn list_views(lists: Seq<RawPostingList>) -> Seq<Seq<posting::RawPosting>> {
    Seq::new(lists.len(), |i: int| lists[i]@)
}

/// The working set after the first `n` lists of `lists` were united, one
/// after the other, with the empty working set.
pub open spec fn merged(
    lists: Seq<Seq<posting::RawPosting>>,
    n: nat,
) -> Seq<merge::PostingView>
    decreases n,
{
    if n == 0 || n > lists.len() {
        Seq::empty()
    } else {
        merge::union_of(merged(lists, (n - 1) as nat), lists[n - 1], (n - 1) as nat)
    }
}

/// One of the first `n` lists of `lists` holds a posting of document `d`.
pub open spec fn listed_in(lists: Seq<Seq<posting::RawPosting>>, n: nat, d: u32) -> bool {
    exists|k: int| 0 <= k < n && merge::lists_doc(#[trigger] lists[k], d)
}

/// The working set after the first `n` lists were united, where the
/// identifiers of each list grow strictly: it holds the documents of these
/// lists and no others, by strictly ascending identifier, and each
/// document has for each list, in the order of the lists, the entry that
/// the list has for it, or the absent entry.
pub proof fn lemma_merged(lists: Seq<Seq<posting::RawPosting>>, n: nat)
    requires
        n <= lists.len(),
        forall|k: int| 0 <= k < n ==> posting::ids_increase(#[trigger] lists[k]),
    ensures
        merge::docs_increase(merged(lists, n)),
        merge::all_have(merged(lists, n), n),
        forall|d: u32| #[trigger] merge::holds_doc(merged(lists, n), d) <==> listed_in(lists, n, d),
        forall|x: int, k: int|
            0 <= x < merged(lists, n).len() && 0 <= k < n ==> (#[trigger] merged(
                lists,
                n,
            )[x]).infos[k] == merge::listed_info(#[trigger] lists[k], merged(lists, n)[x].doc_id),
    decreases n,
{
    let now = merged(lists, n);
    if n == 0 {
        assert forall|d: u32| #[trigger] merge::holds_doc(now, d) <==> listed_in(lists, n, d) by {}
    } else {
        let m = (n - 1) as nat;
        let before = merged(lists, m);
        let last = lists[n - 1];
        lemma_merged(lists, m);
        merge::lemma_union_well_formed(before, last, m);
        merge::lemma_union_documents(before, last, m);
        assert forall|d: u32| #[trigger] merge::holds_doc(now, d) <==> listed_in(lists, n, d) by {
            if listed_in(lists, n, d) {
                let k = choose|k: int| 0 <= k < n && merge::lists_doc(#[trigger] lists[k], d);
                if k < m {
                    assert(listed_in(lists, m, d));
                }
            }
            if merge::holds_doc(before, d) {
                assert(listed_in(lists, m, d));
                let k = choose|k: int| 0 <= k < m && merge::lists_doc(#[trigger] lists[k], d);
                assert(merge::lists_doc(lists[k], d));
            }
            if merge::lists_doc(last, d) {
                assert(merge::lists_doc(lists[n - 1], d));
            }
        }
        assert forall|x: int, k: int| 0 <= x < now.len() && 0 <= k < n implies (
        #[trigger] now[x]).infos[k] == merge::listed_info(#[trigger] lists[k], now[x].doc_id) by {
            let d = now[x].doc_id;
            let held = merge::held_infos(before, m, d);
            assert(now[x].infos == held.push(merge::listed_info(last, d)));
            if k < m {
                if merge::holds_doc(before, d) {
                    let y = choose|y: int|
                        0 <= y < before.len() && (#[trigger] before[y]).doc_id == d;
                    assert(before[y].infos[k] == merge::listed_info(lists[k], before[y].doc_id));
                    assert(before[y].infos.len() == m);
                } else {
                    assert(!listed_in(lists, m, d));
                    assert(!merge::lists_doc(lists[k], d));
                }
            } else {
                if merge::holds_doc(before, d) {
                    let y = choose|y: int|
                        0 <= y < before.len() && (#[trigger] before[y]).doc_id == d;
                    assert(before[y].infos.len() == m);
                }
            }
        }
    }
}

/// Unites the posting lists of `lists`, one after the other, into a new
/// working set.
pub fn merge_lists(lists: &Vec<RawPostingList>) -> (merger: PostingListMerger)
    requires
        lists@.len() < u32::MAX,
        forall|i: int| 0 <= i < lists@.len() ==> (#[trigger] lists@[i]).wf(),
    ensures
        merger@.postings == merged(list_views(lists@), lists@.len()),
        merger@.merged == lists@.len(),
        (forall|i: int| 0 <= i < lists@.len() ==> (#[trigger] lists@[i]).sorted()) ==> merger.wf(),
{
    let ghost all = list_views(lists@);
    let mut merger = PostingListMerger::new();
    let mut i: usize = 0;
    while i < lists.len()
        invariant
            i <= lists@.len(),
            lists@.len() < u32::MAX,
            all == list_views(lists@),
            forall|x: int| 0 <= x < lists@.len() ==> (#[trigger] lists@[x]).wf(),
            merger@.postings == merged(all, i as nat),
            merger@.merged == i,
            (forall|x: int| 0 <= x < lists@.len() ==> (#[trigger] lists@[x]).sorted())
                ==> merger.wf(),
        decreases lists@.len() - i,
    {
        assert(all[i as int] == lists@[i as int]@);
        let _ = merger.union(&lists[i]);
        i += 1;
    }
    merger
}

} // verus!
