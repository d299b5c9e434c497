use vstd::prelude::*;

verus! {

/// `a` comes before `b` where both are compared byte by byte from
/// position `i` on: at the first position where they differ `a` has the
/// smaller byte, or `a` ends there and `b` goes on.
pub open spec fn less_from(a: Seq<u8>, b: Seq<u8>, i: int) -> bool
    decreases a.len() - i,
{
    if i < 0 || i >= b.len() {
        false
    } else if i >= a.len() {
        true
    } else if a[i] != b[i] {
        a[i] < b[i]
    } else {
        less_from(a, b, i + 1)
    }
}

/// `a` comes before `b` in the lexicographic order of byte strings.
pub open spec fn less(a: Seq<u8>, b: Seq<u8>) -> bool {
    less_from(a, b, 0)
}

/// Two byte strings that agree up to `i` and of which neither comes
/// before the other from `i` on are equal.
pub proof fn lemma_equal_from(a: Seq<u8>, b: Seq<u8>, i: int)
    requires
        0 <= i <= a.len(),
        i <= b.len(),
        a.subrange(0, i) == b.subrange(0, i),
        !less_from(a, b, i),
        !less_from(b, a, i),
    ensures
        a == b,
    decreases a.len() - i,
{
    if i >= a.len() || i >= b.len() {
        assert(a.subrange(0, i) =~= a);
        assert(b.subrange(0, i) =~= b);
    } else {
        assert(a.subrange(0, i + 1) =~= a.subrange(0, i).push(a[i]));
        assert(b.subrange(0, i + 1) =~= b.subrange(0, i).push(b[i]));
        lemma_equal_from(a, b, i + 1);
    }
}

/// No byte string comes before itself, from any position on.
pub proof fn lemma_irreflexive_from(a: Seq<u8>, i: int)
    requires
        0 <= i,
    ensures
        !less_from(a, a, i),
    decreases a.len() - i,
{
    if i < a.len() {
        lemma_irreflexive_from(a, i + 1);
    }
}

/// No byte string comes before itself.
pub proof fn lemma_irreflexive(a: Seq<u8>)
    ensures
        !less(a, a),
{
    lemma_irreflexive_from(a, 0);
}

/// The order is transitive, from any position on.
pub proof fn lemma_transitive_from(a: Seq<u8>, b: Seq<u8>, c: Seq<u8>, i: int)
    requires
        0 <= i,
        less_from(a, b, i),
        less_from(b, c, i),
    ensures
        less_from(a, c, i),
    decreases a.len() - i,
{
    if i < a.len() && a[i] == b[i] && b[i] == c[i] {
        lemma_transitive_from(a, b, c, i + 1);
    }
}

/// The order is transitive.
pub proof fn lemma_transitive(a: Seq<u8>, b: Seq<u8>, c: Seq<u8>)
    requires
        less(a, b),
        less(b, c),
    ensures
        less(a, c),
{
    lemma_transitive_from(a, b, c, 0);
}

/// No two byte strings come before each other.
pub proof fn lemma_asymmetric(a: Seq<u8>, b: Seq<u8>)
    requires
        less(a, b),
    ensures
        !less(b, a),
{
    if less(b, a) {
        lemma_transitive(a, b, a);
        lemma_irreflexive(a);
    }
}

/// How two byte strings stand to each other.
#[derive(Debug, Clone, Copy, PartialEq, Eq, Structural)]
pub enum Place {
    Before,
    Same,
    After,
}

/// Compares two byte strings in lexicographic order.
pub fn place(a: &[u8], b: &[u8]) -> (r: Place)
    ensures
        r == Place::Before <==> less(a@, b@),
        r == Place::After <==> less(b@, a@),
        r == Place::Same <==> a@ == b@,
{
    let n = a.len();
    let m = b.len();
    let mut i: usize = 0;
    while i < n && i < m
        invariant
            i <= n,
            i <= m,
            n == a@.len(),
            m == b@.len(),
            a@.subrange(0, i as int) == b@.subrange(0, i as int),
            less(a@, b@) == less_from(a@, b@, i as int),
            less(b@, a@) == less_from(b@, a@, i as int),
        decreases n - i,
    {
        if a[i] < b[i] {
            proof {
                lemma_asymmetric(a@, b@);
                lemma_irreflexive(a@);
            }
            return Place::Before;
        }
        if a[i] > b[i] {
            proof {
                lemma_asymmetric(b@, a@);
                lemma_irreflexive(a@);
            }
            return Place::After;
        }
        assert(a@.subrange(0, i + 1) =~= a@.subrange(0, i as int).push(a@[i as int]));
        assert(b@.subrange(0, i + 1) =~= b@.subrange(0, i as int).push(b@[i as int]));
        i += 1;
    }
    proof {
        lemma_irreflexive(a@);
        if n < m {
            lemma_asymmetric(a@, b@);
        } else if m < n {
            lemma_asymmetric(b@, a@);
        } else {
            lemma_equal_from(a@, b@, i as int);
        }
    }
    if n < m {
        Place::Before
    } else if m < n {
        Place::After
    } else {
        Place::Same
    }
}

} // verus!
