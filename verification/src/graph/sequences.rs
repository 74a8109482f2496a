//! Facts about sequences and finite sets that the graph proofs share.

use vstd::prelude::*;
use vstd::relations::{sorted_by, total_ordering};
use vstd::seq_lib::lemma_sorted_unique;

verus! {

/// The sequence that `to_seq` makes of a finite set names no element twice.
pub proof fn lemma_to_seq_no_duplicates<A>(s: Set<A>)
    requires
        s.finite(),
    ensures
        s.to_seq().no_duplicates(),
        s.to_seq().len() == s.len(),
    decreases s.len(),
{
    if s.len() != 0 {
        let x = s.choose();
        let rest = s.remove(x);
        lemma_to_seq_no_duplicates(rest);
        rest.lemma_to_seq_to_set_id();
        let t = rest.to_seq();
        assert(!t.contains(x)) by {
            if t.contains(x) {
                assert(t.to_set().contains(x));
            }
        }
        let head = Seq::<A>::empty().push(x);
        assert(s.to_seq() == head + t);
        assert forall|i: int, j: int| 0 <= i < j < (head + t).len() implies (head + t)[i] != (head
            + t)[j] by {
            if i == 0 {
                assert(t.contains(t[j - 1]));
            } else {
                assert(t[i - 1] != t[j - 1]);
            }
        }
    }
}

/// Two sequences without repetition that hold the same elements hold each
/// element equally often.
pub proof fn lemma_same_elements_same_multiset<A>(a: Seq<A>, b: Seq<A>)
    requires
        a.no_duplicates(),
        b.no_duplicates(),
        a.to_set() == b.to_set(),
    ensures
        a.to_multiset() == b.to_multiset(),
{
    broadcast use vstd::seq_lib::group_to_multiset_ensures;

    a.lemma_multiset_has_no_duplicates();
    b.lemma_multiset_has_no_duplicates();
    assert forall|x: A| a.to_multiset().count(x) == b.to_multiset().count(x) by {
        assert(a.contains(x) <==> a.to_set().contains(x));
        assert(b.contains(x) <==> b.to_set().contains(x));
        assert(a.contains(x) <==> a.to_multiset().count(x) > 0);
        assert(b.contains(x) <==> b.to_multiset().count(x) > 0);
    }
    assert(a.to_multiset() =~= b.to_multiset());
}

/// A finite set has exactly one sorted sequence without repetition: the one
/// that `to_sorted_seq` names.
pub proof fn lemma_sorted_seq_unique<A>(s: Seq<A>, set: Set<A>, leq: spec_fn(A, A) -> bool)
    requires
        set.finite(),
        total_ordering(leq),
        sorted_by(s, leq),
        s.no_duplicates(),
        s.to_set() == set,
    ensures
        s == set.to_sorted_seq(leq),
{
    let t = set.to_seq();
    lemma_to_seq_no_duplicates(set);
    set.lemma_to_seq_to_set_id();
    lemma_same_elements_same_multiset(s, t);
    t.lemma_sort_by_ensures(leq);
    lemma_sorted_unique(s, t.sort_by(leq), leq);
}

/// What `to_sorted_seq` yields: a sorted sequence without repetition of
/// exactly the elements of the set.
pub proof fn lemma_sorted_seq_properties<A>(set: Set<A>, leq: spec_fn(A, A) -> bool)
    requires
        set.finite(),
        total_ordering(leq),
    ensures
        sorted_by(set.to_sorted_seq(leq), leq),
        set.to_sorted_seq(leq).no_duplicates(),
        set.to_sorted_seq(leq).to_set() == set,
        set.to_sorted_seq(leq).len() == set.len(),
{
    broadcast use vstd::seq_lib::group_to_multiset_ensures;

    let t = set.to_seq();
    let r = set.to_sorted_seq(leq);
    lemma_to_seq_no_duplicates(set);
    set.lemma_to_seq_to_set_id();
    t.lemma_sort_by_ensures(leq);
    t.lemma_multiset_has_no_duplicates();
    r.lemma_multiset_has_no_duplicates_conv();
    assert forall|x: A| r.to_set().contains(x) <==> set.contains(x) by {
        assert(r.contains(x) <==> r.to_multiset().count(x) > 0);
        assert(t.contains(x) <==> t.to_multiset().count(x) > 0);
        assert(t.contains(x) <==> t.to_set().contains(x));
    }
    assert(r.to_set() =~= set);
    r.unique_seq_to_set();
}

/// A filter keeps a sequence whole when every element passes.
pub proof fn lemma_filter_all<A>(l: Seq<A>, pred: spec_fn(A) -> bool)
    requires
        forall|i: int| 0 <= i < l.len() ==> pred(#[trigger] l[i]),
    ensures
        l.filter(pred) == l,
    decreases l.len(),
{
    reveal(Seq::filter);
    if l.len() != 0 {
        lemma_filter_all(l.drop_last(), pred);
        assert(l.drop_last().push(l.last()) == l);
    }
}

/// In a sequence without repetition, taking out the one place that holds `x`
/// is the same as filtering by a test that only `x` fails.
pub proof fn lemma_remove_is_filter<A>(l: Seq<A>, i: int, pred: spec_fn(A) -> bool)
    requires
        l.no_duplicates(),
        0 <= i < l.len(),
        !pred(l[i]),
        forall|j: int| 0 <= j < l.len() && j != i ==> pred(#[trigger] l[j]),
    ensures
        l.remove(i) == l.filter(pred),
    decreases l.len(),
{
    reveal(Seq::filter);
    let front = l.drop_last();
    if i == l.len() - 1 {
        lemma_filter_all(front, pred);
        assert(l.remove(i) == front);
    } else {
        lemma_remove_is_filter(front, i, pred);
        assert(l.remove(i) == front.remove(i).push(l.last()));
    }
}

/// A filtered sequence without repetition has none, and holds exactly the
/// elements that pass.
pub proof fn lemma_filter_no_duplicates<A>(l: Seq<A>, pred: spec_fn(A) -> bool)
    requires
        l.no_duplicates(),
    ensures
        l.filter(pred).no_duplicates(),
        forall|x: A| #[trigger] l.filter(pred).contains(x) <==> l.contains(x) && pred(x),
    decreases l.len(),
{
    reveal(Seq::filter);
    if l.len() != 0 {
        let front = l.drop_last();
        lemma_filter_no_duplicates(front, pred);
        let f = front.filter(pred);
        assert forall|x: A| #[trigger] l.filter(pred).contains(x) <==> l.contains(x) && pred(
            x,
        ) by {
            if l.contains(x) {
                let k = choose|k: int| 0 <= k < l.len() && l[k] == x;
                if k < l.len() - 1 {
                    assert(front[k] == x);
                    assert(front.contains(x));
                }
            }
            if front.contains(x) {
                let k = choose|k: int| 0 <= k < front.len() && front[k] == x;
                assert(l[k] == x);
            }
            if pred(l.last()) {
                assert(l.filter(pred) == f.push(l.last()));
                if f.push(l.last()).contains(x) {
                    let k = choose|k: int|
                        0 <= k < f.push(l.last()).len() && f.push(l.last())[k] == x;
                    if k < f.len() {
                        assert(f[k] == x);
                        assert(f.contains(x));
                    }
                }
                if f.contains(x) {
                    let k = choose|k: int| 0 <= k < f.len() && f[k] == x;
                    assert(f.push(l.last())[k] == x);
                }
                if x == l.last() {
                    assert(f.push(l.last())[f.len() as int] == x);
                    assert(l[l.len() - 1] == x);
                }
            }
        }
        if pred(l.last()) {
            assert(!f.contains(l.last())) by {
                if front.contains(l.last()) {
                    let k = choose|k: int| 0 <= k < front.len() && front[k] == l.last();
                    assert(l[k] == l[l.len() - 1]);
                }
            }
            assert forall|a: int, b: int| 0 <= a < b < f.push(l.last()).len() implies f.push(
                l.last(),
            )[a] != f.push(l.last())[b] by {
                if b == f.len() {
                    assert(f.contains(f[a]));
                }
            }
        }
    }
}

/// Appending to a sequence adds one element to those it holds.
pub proof fn lemma_push_contains<A>(l: Seq<A>, x: A)
    ensures
        forall|y: A| #[trigger] l.push(x).contains(y) <==> l.contains(y) || y == x,
{
    assert forall|y: A| #[trigger] l.push(x).contains(y) <==> l.contains(y) || y == x by {
        assert(l.push(x)[l.len() as int] == x);
        if l.push(x).contains(y) {
            let k = choose|k: int| 0 <= k < l.push(x).len() && l.push(x)[k] == y;
            if k < l.len() {
                assert(l[k] == y);
            }
        }
        if l.contains(y) {
            let k = choose|k: int| 0 <= k < l.len() && l[k] == y;
            assert(l.push(x)[k] == y);
        }
    }
}

/// What a non-empty sequence holds: what its front holds, and its last
/// element.
pub proof fn lemma_drop_last_contains<A>(l: Seq<A>)
    requires
        l.len() > 0,
    ensures
        forall|y: A| l.contains(y) <==> #[trigger] l.drop_last().contains(y) || y == l.last(),
{
    lemma_push_contains(l.drop_last(), l.last());
    assert(l.drop_last().push(l.last()) == l);
}

/// A concatenation holds what either part holds.
pub proof fn lemma_concat_contains<A>(a: Seq<A>, b: Seq<A>)
    ensures
        forall|x: A| #[trigger] (a + b).contains(x) <==> a.contains(x) || b.contains(x),
{
    assert forall|x: A| #[trigger] (a + b).contains(x) <==> a.contains(x) || b.contains(x) by {
        if (a + b).contains(x) {
            let k = choose|k: int| 0 <= k < (a + b).len() && (a + b)[k] == x;
            if k < a.len() {
                assert(a[k] == x);
            } else {
                assert(b[k - a.len()] == x);
            }
        }
        if a.contains(x) {
            let k = choose|k: int| 0 <= k < a.len() && a[k] == x;
            assert((a + b)[k] == x);
        }
        if b.contains(x) {
            let k = choose|k: int| 0 <= k < b.len() && b[k] == x;
            assert((a + b)[k + a.len()] == x);
        }
    }
}

/// Mapping, filtering and mapping back is filtering alone, where the map can
/// be undone and the two tests agree.
pub proof fn lemma_filter_through_map<A, B>(
    s: Seq<A>,
    there: spec_fn(A) -> B,
    test_there: spec_fn(B) -> bool,
    back: spec_fn(B) -> A,
    test_here: spec_fn(A) -> bool,
)
    requires
        forall|i: int|
            0 <= i < s.len() ==> back(there(#[trigger] s[i])) == s[i] && test_there(there(s[i]))
                == test_here(s[i]),
    ensures
        s.map_values(there).filter(test_there).map_values(back) == s.filter(test_here),
    decreases s.len(),
{
    reveal(Seq::filter);
    if s.len() == 0 {
        assert(s.map_values(there) == Seq::<B>::empty());
        assert(Seq::<B>::empty().filter(test_there).map_values(back) == Seq::<A>::empty());
    } else {
        let front = s.drop_last();
        assert forall|i: int| 0 <= i < front.len() implies back(there(#[trigger] front[i]))
            == front[i] && test_there(there(front[i])) == test_here(front[i]) by {
            assert(front[i] == s[i]);
        }
        lemma_filter_through_map(front, there, test_there, back, test_here);
        let mapped = front.map_values(there);
        assert(s.map_values(there) == mapped.push(there(s.last())));
        mapped.lemma_filter_push(there(s.last()), test_there);
        assert(s[s.len() - 1] == s.last());
        if test_here(s.last()) {
            assert(mapped.filter(test_there).push(there(s.last())).map_values(back)
                == mapped.filter(test_there).map_values(back).push(s.last()));
        }
    }
}

/// A strictly increasing sequence of identifiers holds at each place an
/// identifier no less than the place.
pub proof fn lemma_increasing_bound(s: Seq<u32>, at: int)
    requires
        forall|i: int, j: int| 0 <= i < j < s.len() ==> s[i] < s[j],
        0 <= at < s.len(),
    ensures
        at <= s[at],
    decreases at,
{
    if at > 0 {
        lemma_increasing_bound(s, at - 1);
    }
}

} // verus!
