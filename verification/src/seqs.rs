//! Facts about sequences.

use vstd::prelude::*;

verus! {

/// A filter keeps exactly the elements that satisfy it.
pub proof fn lemma_filter_members<A>(s: Seq<A>, pred: spec_fn(A) -> bool)
    ensures
        forall|x: A| #[trigger] s.filter(pred).contains(x) <==> s.contains(x) && pred(x),
    decreases s.len(),
{
    reveal(Seq::filter);
    if s.len() > 0 {
        let front = s.drop_last();
        lemma_filter_members(front, pred);
        let kept = s.filter(pred);
        assert(s =~= front.push(s.last()));
        assert forall|x: A| #[trigger] kept.contains(x) <==> s.contains(x) && pred(x) by {
            vstd::seq_lib::lemma_seq_contains_after_push(front, s.last(), x);
            vstd::seq_lib::lemma_seq_contains_after_push(front.filter(pred), s.last(), x);
        }
    }
}

/// A filter repeats nothing that was not repeated before.
pub proof fn lemma_filter_no_duplicates<A>(s: Seq<A>, pred: spec_fn(A) -> bool)
    requires
        s.no_duplicates(),
    ensures
        s.filter(pred).no_duplicates(),
    decreases s.len(),
{
    reveal(Seq::filter);
    if s.len() > 0 {
        let front = s.drop_last();
        lemma_filter_no_duplicates(front, pred);
        lemma_filter_members(front, pred);
        let kept = front.filter(pred);
        if kept.contains(s.last()) {
            let i = front.index_of(s.last());
            assert(s[i] == s[s.len() - 1]);
        }
        assert forall|i: int, j: int|
            0 <= i < kept.len() && 0 <= j < kept.len() && i != j implies kept[i] != kept[j] by {}
        assert forall|i: int| 0 <= i < kept.len() implies kept[i] != s.last() by {
            assert(kept.contains(kept[i]));
        }
    }
}

/// A filter keeps what it keeps in order.
pub proof fn lemma_filter_keeps_order<A>(s: Seq<A>, pred: spec_fn(A) -> bool, i: int, j: int)
    requires
        0 <= i < j < s.len(),
        pred(s[i]),
        pred(s[j]),
    ensures
        exists|k: int, l: int|
            #![trigger s.filter(pred)[k], s.filter(pred)[l]]
            0 <= k < l < s.filter(pred).len() && s.filter(pred)[k] == s[i] && s.filter(pred)[l]
                == s[j],
    decreases s.len(),
{
    reveal(Seq::filter);
    let front = s.drop_last();
    let kept = s.filter(pred);
    if j < s.len() - 1 {
        lemma_filter_keeps_order(front, pred, i, j);
        let before = front.filter(pred);
        let (k, l) = choose|k: int, l: int|
            #![trigger before[k], before[l]]
            0 <= k < l < before.len() && before[k] == front[i] && before[l] == front[j];
        assert(kept[k] == s[i] && kept[l] == s[j]);
    } else {
        lemma_filter_members(front, pred);
        let before = front.filter(pred);
        assert(front.contains(front[i]));
        assert(before.contains(s[i]));
        let k = before.index_of(s[i]);
        assert(kept[k] == s[i]);
        assert(kept[before.len() as int] == s[j]);
    }
}

/// Two sequences with the same elements, each as often, have the same members, and one repeats
/// nothing if the other does not.
pub proof fn lemma_permutation<A>(a: Seq<A>, b: Seq<A>)
    requires
        a.to_multiset() == b.to_multiset(),
    ensures
        b.to_set() == a.to_set(),
        a.no_duplicates() ==> b.no_duplicates(),
{
    a.to_multiset_ensures();
    b.to_multiset_ensures();
    assert forall|x: A| a.contains(x) <==> b.contains(x) by {
        assert(a.contains(x) <==> a.to_multiset().count(x) > 0);
        assert(b.contains(x) <==> b.to_multiset().count(x) > 0);
    }
    assert(b.to_set() =~= a.to_set());
    if a.no_duplicates() {
        a.lemma_multiset_has_no_duplicates();
        b.lemma_multiset_has_no_duplicates_conv();
    }
}

/// The elements of `s`, each where it first occurs.
pub open spec fn distinct<A>(s: Seq<A>) -> Seq<A>
    decreases s.len(),
{
    if s.len() == 0 {
        Seq::empty()
    } else {
        let front = distinct(s.drop_last());
        if front.contains(s.last()) {
            front
        } else {
            front.push(s.last())
        }
    }
}

pub proof fn lemma_distinct<A>(s: Seq<A>)
    ensures
        distinct(s).no_duplicates(),
        forall|x: A| #[trigger] distinct(s).contains(x) <==> s.contains(x),
    decreases s.len(),
{
    if s.len() > 0 {
        let front = s.drop_last();
        let before = distinct(front);
        lemma_distinct(front);
        assert(s =~= front.push(s.last()));
        if !before.contains(s.last()) {
            assert forall|i: int| 0 <= i < before.len() implies before[i] != s.last() by {
                assert(before.contains(before[i]));
            }
        }
        assert forall|x: A| #[trigger] distinct(s).contains(x) <==> s.contains(x) by {
            vstd::seq_lib::lemma_seq_contains_after_push(front, s.last(), x);
            vstd::seq_lib::lemma_seq_contains_after_push(before, s.last(), x);
        }
    }
}

pub proof fn lemma_distinct_is_short<A>(s: Seq<A>)
    ensures
        distinct(s).len() <= s.len(),
    decreases s.len(),
{
    if s.len() > 0 {
        lemma_distinct_is_short(s.drop_last());
    }
}

/// What comes first stays first when duplicates are dropped.
pub proof fn lemma_distinct_begins<A>(s: Seq<A>, rest: Seq<A>)
    ensures
        distinct(s).is_prefix_of(distinct(s + rest)),
    decreases rest.len(),
{
    if rest.len() == 0 {
        assert(s + rest =~= s);
    } else {
        lemma_distinct_begins(s, rest.drop_last());
        assert((s + rest).drop_last() =~= s + rest.drop_last());
    }
}

/// Of two kept elements, the one that occurs before the other does comes first once the others and
/// all repetitions are dropped.
pub proof fn lemma_first_occurrences<A>(s: Seq<A>, pred: spec_fn(A) -> bool, a: int, y: A)
    requires
        0 <= a < s.len(),
        pred(s[a]),
        pred(y),
        s.contains(y),
        forall|k: int| 0 <= k <= a ==> s[k] != y,
    ensures
        exists|i: int, j: int|
            #![trigger distinct(s.filter(pred))[i], distinct(s.filter(pred))[j]]
            0 <= i < j < distinct(s.filter(pred)).len() && distinct(s.filter(pred))[i] == s[a]
                && distinct(s.filter(pred))[j] == y,
{
    let front = s.take(a + 1);
    let back = s.skip(a + 1);
    let all = distinct(s.filter(pred));
    let first = distinct(front.filter(pred));
    assert(s =~= front + back);
    Seq::filter_distributes_over_add(front, back, pred);
    lemma_distinct_begins(front.filter(pred), back.filter(pred));
    lemma_filter_members(front, pred);
    lemma_filter_members(s, pred);
    lemma_distinct(front.filter(pred));
    lemma_distinct(s.filter(pred));
    assert(front[a] == s[a]);
    assert(front.contains(s[a]));
    assert(front.filter(pred).contains(s[a]));
    assert(first.contains(s[a]));
    let i = first.index_of(s[a]);
    assert(all[i] == first[i]);
    assert(s.filter(pred).contains(y));
    assert(all.contains(y));
    let j = all.index_of(y);
    if j < first.len() {
        assert(first[j] == y);
        assert(first.contains(y));
        assert(front.contains(y));
        let k = front.index_of(y);
        assert(s[k] == y);
    }
}

/// Where one kept element comes before another once repetitions are dropped, it occurs before the
/// other does.
pub proof fn lemma_occurs_first<A>(s: Seq<A>, pred: spec_fn(A) -> bool, i: int, j: int) -> (a: int)
    requires
        0 <= i < j < distinct(s.filter(pred)).len(),
    ensures
        0 <= a < s.len(),
        s[a] == distinct(s.filter(pred))[i],
        forall|k: int| 0 <= k <= a ==> s[k] != distinct(s.filter(pred))[j],
{
    let all = distinct(s.filter(pred));
    let x = all[i];
    let y = all[j];
    lemma_distinct(s.filter(pred));
    lemma_filter_members(s, pred);
    assert(all.contains(x) && all.contains(y));
    assert(s.contains(x) && pred(x) && s.contains(y) && pred(y));
    let a = lemma_first_index(s, x);
    if exists|k: int| 0 <= k <= a && s[k] == y {
        let k = choose|k: int| 0 <= k <= a && s[k] == y;
        assert(forall|l: int| 0 <= l <= k ==> s[l] != x);
        lemma_first_occurrences(s, pred, k, x);
        let (p, q) = choose|p: int, q: int|
            #![trigger all[p], all[q]]
            0 <= p < q < all.len() && all[p] == y && all[q] == x;
        assert(p == j && q == i);
    }
    a
}

/// The first place of an element.
pub proof fn lemma_first_index<A>(s: Seq<A>, x: A) -> (a: int)
    requires
        s.contains(x),
    ensures
        0 <= a < s.len(),
        s[a] == x,
        forall|k: int| 0 <= k < a ==> s[k] != x,
    decreases s.len(),
{
    let front = s.drop_last();
    if front.contains(x) {
        let a = lemma_first_index(front, x);
        assert forall|k: int| 0 <= k < a implies s[k] != x by {
            assert(front[k] == s[k]);
        }
        assert(s[a] == front[a]);
        a
    } else {
        assert forall|k: int| 0 <= k < s.len() - 1 implies s[k] != x by {
            assert(front[k] == s[k]);
        }
        let i = s.index_of(x);
        s.len() - 1
    }
}

/// What a sequence is mapped to piece by piece holds what its elements are mapped to.
pub proof fn lemma_flat_map_members<A, B>(s: Seq<A>, f: spec_fn(A) -> Seq<B>)
    ensures
        forall|x: B| #[trigger]
            s.flat_map(f).contains(x) <==> exists|i: int|
                0 <= i < s.len() && f(#[trigger] s[i]).contains(x),
    decreases s.len(),
{
    if s.len() == 0 {
        assert(s.flat_map(f) =~= Seq::<B>::empty());
    } else {
        let front = s.drop_last();
        let last = s.len() - 1;
        lemma_flat_map_members(front, f);
        s.lemma_flat_map_take_append(f, last);
        assert(s.take(last + 1) =~= s);
        assert(s.take(last) =~= front);
        let before = front.flat_map(f);
        let next = f(s[last]);
        assert forall|x: B| #[trigger] s.flat_map(f).contains(x) <==> exists|i: int|
            0 <= i < s.len() && f(#[trigger] s[i]).contains(x) by {
            lemma_contains_either(before, next, x);
            if before.contains(x) {
                let i = choose|i: int| 0 <= i < front.len() && f(#[trigger] front[i]).contains(x);
                assert(f(s[i]).contains(x));
            }
            if exists|i: int| 0 <= i < s.len() && f(#[trigger] s[i]).contains(x) {
                let i = choose|i: int| 0 <= i < s.len() && f(#[trigger] s[i]).contains(x);
                if i < last {
                    assert(f(front[i]).contains(x));
                }
            }
        }
    }
}

/// Mapping two sequences piece by piece, one after the other, is mapping both together.
pub proof fn lemma_flat_map_add<A, B>(a: Seq<A>, b: Seq<A>, f: spec_fn(A) -> Seq<B>)
    ensures
        (a + b).flat_map(f) == a.flat_map(f) + b.flat_map(f),
    decreases b.len(),
{
    if b.len() == 0 {
        assert(a + b =~= a);
        assert(b.flat_map(f) =~= Seq::<B>::empty());
        assert(a.flat_map(f) + Seq::<B>::empty() =~= a.flat_map(f));
    } else {
        let front = b.drop_last();
        let last = b.last();
        lemma_flat_map_add(a, front, f);
        assert(a + b =~= (a + front).push(last));
        assert(b =~= front.push(last));
        (a + front).lemma_flat_map_push(f, last);
        front.lemma_flat_map_push(f, last);
        assert((a.flat_map(f) + front.flat_map(f)) + f(last) =~= a.flat_map(f) + (front.flat_map(f)
            + f(last)));
    }
}

/// Two sequences together hold what one of them holds.
pub proof fn lemma_contains_either<A>(a: Seq<A>, b: Seq<A>, x: A)
    ensures
        (a + b).contains(x) <==> a.contains(x) || b.contains(x),
{
    if (a + b).contains(x) {
        let i = (a + b).index_of(x);
        if i < a.len() {
            assert(a[i] == x);
        } else {
            assert(b[i - a.len()] == x);
        }
    }
    if a.contains(x) {
        assert((a + b)[a.index_of(x)] == x);
    }
    if b.contains(x) {
        assert((a + b)[a.len() + b.index_of(x)] == x);
    }
}

} // verus!
