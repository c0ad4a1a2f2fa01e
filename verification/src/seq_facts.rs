//! Small facts about sequences used by the proofs.
use vstd::prelude::*;

verus! {

/// Appending `x` adds exactly `x` to what a sequence contains.
pub proof fn lemma_push_contains<A>(s: Seq<A>, x: A, y: A)
    ensures
        s.push(x).contains(y) <==> (s.contains(y) || y == x),
{
    if s.contains(y) {
        let i = choose|i: int| 0 <= i < s.len() && s[i] == y;
        assert(s.push(x)[i] == y);
    }
    if y == x {
        assert(s.push(x)[s.len() as int] == y);
    }
    if s.push(x).contains(y) && y != x {
        let i = choose|i: int| 0 <= i < s.push(x).len() && s.push(x)[i] == y;
        assert(i < s.len());
        assert(s[i] == y);
    }
}

/// Appending an element that is absent keeps a sequence free of duplicates.
pub proof fn lemma_push_no_duplicates<A>(s: Seq<A>, x: A)
    requires
        s.no_duplicates(),
        !s.contains(x),
    ensures
        s.push(x).no_duplicates(),
{
    assert forall|i: int, j: int|
        0 <= i < s.push(x).len() && 0 <= j < s.push(x).len() && i != j implies s.push(x)[i]
        != s.push(x)[j] by {
        if i == s.len() {
            assert(s[j] == s.push(x)[j]);
        } else if j == s.len() {
            assert(s[i] == s.push(x)[i]);
        }
    }
}

/// A concatenation contains what either part contains.
pub proof fn lemma_add_contains<A>(a: Seq<A>, b: Seq<A>, x: A)
    ensures
        (a + b).contains(x) <==> (a.contains(x) || b.contains(x)),
{
    if a.contains(x) {
        let i = choose|i: int| 0 <= i < a.len() && a[i] == x;
        assert((a + b)[i] == x);
    }
    if b.contains(x) {
        let i = choose|i: int| 0 <= i < b.len() && b[i] == x;
        assert((a + b)[a.len() + i] == x);
    }
    if (a + b).contains(x) {
        let i = choose|i: int| 0 <= i < (a + b).len() && (a + b)[i] == x;
        if i < a.len() {
            assert(a[i] == x);
        } else {
            assert(b[i - a.len()] == x);
        }
    }
}

/// Concatenating two sequences without duplicates and without a common
/// element gives a sequence without duplicates.
pub proof fn lemma_add_no_duplicates<A>(a: Seq<A>, b: Seq<A>)
    requires
        a.no_duplicates(),
        b.no_duplicates(),
        forall|x: A| a.contains(x) ==> !b.contains(x),
    ensures
        (a + b).no_duplicates(),
{
    assert forall|i: int, j: int|
        0 <= i < (a + b).len() && 0 <= j < (a + b).len() && i != j implies (a + b)[i] != (a
        + b)[j] by {
        if i < a.len() && j >= a.len() {
            assert(a.contains(a[i]));
            assert(b[j - a.len()] == (a + b)[j]);
        } else if j < a.len() && i >= a.len() {
            assert(a.contains(a[j]));
            assert(b[i - a.len()] == (a + b)[i]);
        }
    }
}

/// Whether a sequence of keys is strictly increasing.
pub open spec fn increasing(s: Seq<usize>) -> bool {
    forall|i: int, j: int| 0 <= i < j < s.len() ==> s[i] < s[j]
}

/// Filtering keeps exactly the elements that pass, and keeps a strictly
/// increasing sequence strictly increasing.
pub proof fn lemma_filter_facts(s: Seq<usize>, p: spec_fn(usize) -> bool)
    ensures
        forall|x: usize| #[trigger] s.filter(p).contains(x) <==> (s.contains(x) && p(x)),
        increasing(s) ==> increasing(s.filter(p)),
    decreases s.len(),
{
    if s.len() == 0 {
        assert(s.filter(p) =~= Seq::<usize>::empty()) by {
            reveal(Seq::filter);
        }
    } else {
        let rest = s.drop_last();
        let last = s.last();
        lemma_filter_facts(rest, p);
        assert(rest.push(last) =~= s);
        rest.lemma_filter_push(last, p);
        assert forall|x: usize| #[trigger] s.filter(p).contains(x) <==> (s.contains(x) && p(x)) by {
            lemma_push_contains(rest, last, x);
            if p(last) {
                lemma_push_contains(rest.filter(p), last, x);
            }
        }
        if increasing(s) && p(last) {
            let f = rest.filter(p);
            assert forall|i: int, j: int| 0 <= i < j < f.push(last).len() implies f.push(last)[i]
                < f.push(last)[j] by {
                if j == f.len() {
                    assert(f.contains(f[i]));
                    assert(rest.contains(f[i]));
                    let k = choose|k: int| 0 <= k < rest.len() && rest[k] == f[i];
                    assert(s[k] == rest[k]);
                } else {
                    assert(increasing(rest)) by {
                        assert forall|a: int, b: int| 0 <= a < b < rest.len() implies rest[a]
                            < rest[b] by {
                            assert(s[a] == rest[a] && s[b] == rest[b]);
                        }
                    }
                }
            }
        } else if increasing(s) {
            assert forall|a: int, b: int| 0 <= a < b < rest.len() implies rest[a] < rest[b] by {
                assert(s[a] == rest[a] && s[b] == rest[b]);
            }
        }
    }
}

/// A list of distinct keys that are all below `n` holds at most `n` keys.
pub proof fn lemma_distinct_below(s: Seq<usize>, n: usize)
    requires
        s.no_duplicates(),
        forall|i: int| 0 <= i < s.len() ==> #[trigger] s[i] < n,
    ensures
        s.len() <= n,
{
    broadcast use vstd::set_lib::range_set_properties;

    s.unique_seq_to_set();
    let below = Set::<usize>::range(0, n);
    assert(below.finite());
    assert forall|k: usize| #[trigger] s.to_set().contains(k) implies below.contains(k) by {
        let i = choose|i: int| 0 <= i < s.len() && s[i] == k;
        assert(s[i] < n);
    }
    vstd::set_lib::lemma_len_subset(s.to_set(), below);
}

} // verus!
