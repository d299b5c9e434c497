use core::ops::Range;
use vstd::prelude::*;

verus! {

/// The place of position `a` comes before that of position `b` where the
/// positions are ordered by ascending key and, among equal keys, by
/// ascending position.
pub open spec fn comes_before(keys: Seq<u64>, a: int, b: int) -> bool {
    keys[a] < keys[b] || (keys[a] == keys[b] && a < b)
}

/// `order` holds the position `x`.
pub open spec fn names(order: Seq<usize>, x: int) -> bool {
    exists|i: int| 0 <= i < order.len() && (#[trigger] order[i]) == x
}

/// `order` lists the positions of `keys`, each once, by ascending key and,
/// among equal keys, by ascending position.
pub open spec fn is_ascending_order(keys: Seq<u64>, order: Seq<usize>) -> bool {
    &&& order.len() == keys.len()
    &&& forall|i: int| 0 <= i < order.len() ==> (#[trigger] order[i]) < keys.len()
    &&& forall|i: int, j: int|
        0 <= i < j < order.len() ==> comes_before(keys, order[i] as int, order[j] as int)
    &&& forall|x: int| 0 <= x < keys.len() ==> #[trigger] names(order, x)
}

/// `order` lists the positions of `keys`, each once, by descending key
/// and, among equal keys, by ascending position.
pub open spec fn is_descending_order(keys: Seq<u64>, order: Seq<usize>) -> bool {
    &&& order.len() == keys.len()
    &&& forall|i: int| 0 <= i < order.len() ==> (#[trigger] order[i]) < keys.len()
    &&& forall|i: int, j: int|
        0 <= i < j < order.len() ==> {
            ||| keys[order[i] as int] > keys[order[j] as int]
            ||| (keys[order[i] as int] == keys[order[j] as int] && order[i] < order[j])
        }
    &&& forall|x: int| 0 <= x < keys.len() ==> #[trigger] names(order, x)
}

/// `std`'s `sort_by_key` on a vector: it sorts by ascending key and keeps
/// entries with equal keys in the order in which they stood. Here each
/// entry carries beside its key the position at which it stands, so that
/// afterwards the entries stand by ascending key and, among equal keys, by
/// ascending position.
#[verifier::external_body]
fn sort_entries(entries: &mut Vec<(u64, usize)>)
    requires
        forall|i: int| 0 <= i < old(entries)@.len() ==> (#[trigger] old(entries)@[i]).1 == i,
    ensures
        final(entries)@.to_multiset() == old(entries)@.to_multiset(),
        forall|i: int, j: int|
            0 <= i < j < final(entries)@.len() ==> {
                ||| final(entries)@[i].0 < final(entries)@[j].0
                ||| (final(entries)@[i].0 == final(entries)@[j].0 && final(entries)@[i].1
                    < final(entries)@[j].1)
            },
{
    entries.sort_by_key(|e| e.0);
}

/// The positions of `keys` by ascending key; positions with equal keys
/// stay in their order.
pub fn ascending_order(keys: &Vec<u64>) -> (order: Vec<usize>)
    ensures
        is_ascending_order(keys@, order@),
{
    let n = keys.len();
    let mut entries: Vec<(u64, usize)> = Vec::new();
    let mut i: usize = 0;
    while i < n
        invariant
            i <= n,
            n == keys@.len(),
            entries@.len() == i,
            forall|x: int| 0 <= x < i ==> #[trigger] entries@[x] == (keys@[x], x as usize),
        decreases n - i,
    {
        entries.push((keys[i], i));
        i += 1;
    }
    let ghost before = entries@;
    sort_entries(&mut entries);
    let ghost after = entries@;
    proof {
        broadcast use vstd::seq_lib::group_to_multiset_ensures;

        assert(after.len() == before.len()) by {
            assert(after.to_multiset().len() == before.to_multiset().len());
        }
        assert forall|x: int| 0 <= x < n implies #[trigger] after[x].1 < n && after[x].0
            == keys@[after[x].1 as int] by {
            assert(after.contains(after[x]));
            assert(before.to_multiset().count(after[x]) > 0);
            assert(before.contains(after[x]));
            let y = choose|y: int| 0 <= y < before.len() && before[y] == after[x];
            assert(before[y] == (keys@[y], y as usize));
        }
    }
    let mut order: Vec<usize> = Vec::new();
    let mut i: usize = 0;
    while i < n
        invariant
            i <= n,
            n == entries@.len(),
            entries@ == after,
            order@.len() == i,
            forall|x: int| 0 <= x < i ==> #[trigger] order@[x] == after[x].1,
        decreases n - i,
    {
        order.push(entries[i].1);
        i += 1;
    }
    proof {
        broadcast use vstd::seq_lib::group_to_multiset_ensures;

        assert forall|x: int| 0 <= x < n implies #[trigger] names(order@, x) by {
            assert(before.contains(before[x]));
            assert(after.to_multiset().count(before[x]) > 0);
            assert(after.contains(before[x]));
            let p = choose|p: int| 0 <= p < after.len() && after[p] == before[x];
            assert(order@[p] == x);
        }
    }
    order
}

/// The positions of `keys` by descending key; positions with equal keys
/// stay in their order.
pub fn descending_order(keys: &Vec<u64>) -> (order: Vec<usize>)
    ensures
        is_descending_order(keys@, order@),
{
    let n = keys.len();
    let mut turned: Vec<u64> = Vec::new();
    let mut i: usize = 0;
    while i < n
        invariant
            i <= n,
            n == keys@.len(),
            turned@.len() == i,
            forall|x: int| 0 <= x < i ==> #[trigger] turned@[x] == u64::MAX - keys@[x],
        decreases n - i,
    {
        turned.push(u64::MAX - keys[i]);
        i += 1;
    }
    let order = ascending_order(&turned);
    proof {
        assert forall|i: int, j: int| 0 <= i < j < order@.len() implies {
            ||| keys@[order@[i] as int] > keys@[order@[j] as int]
            ||| (keys@[order@[i] as int] == keys@[order@[j] as int] && order@[i] < order@[j])
        } by {
            assert(comes_before(turned@, order@[i] as int, order@[j] as int));
        }
        assert forall|x: int| 0 <= x < keys@.len() implies #[trigger] names(order@, x) by {
            assert(names(order@, x));
        }
    }
    order
}

/// What a page shows of `n` ranked results: the results from `range.start`
/// up to `range.end`, as far as there are any.
pub open spec fn page_of(n: int, range: Range<usize>) -> (int, int) {
    if range.start < n && range.start < range.end {
        (
            range.start as int,
            if range.end <= n {
                range.end as int
            } else {
                n
            },
        )
    } else {
        (0, 0)
    }
}

/// The page `range` of `ranked`, the best result standing at 0.
pub fn page(ranked: &Vec<u32>, range: Range<usize>) -> (shown: Vec<u32>)
    ensures
        shown@ == ranked@.subrange(
            page_of(ranked@.len() as int, range).0,
            page_of(ranked@.len() as int, range).1,
        ),
{
    let n = ranked.len();
    let mut shown: Vec<u32> = Vec::new();
    if range.start < n && range.start < range.end {
        let end = if range.end <= n {
            range.end
        } else {
            n
        };
        let mut i = range.start;
        assert(shown@ =~= ranked@.subrange(range.start as int, i as int));
        while i < end
            invariant
                range.start <= i <= end <= n,
                n == ranked@.len(),
                shown@ == ranked@.subrange(range.start as int, i as int),
            decreases end - i,
        {
            shown.push(ranked[i]);
            i += 1;
            assert(shown@ =~= ranked@.subrange(range.start as int, i as int));
        }
    } else {
        assert(shown@ =~= ranked@.subrange(0, 0));
    }
    shown
}

} // verus!
