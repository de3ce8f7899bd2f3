//! A stable sort by any order, and what it is.

use crate::seqs::select;
use vstd::prelude::*;

verus! {

/// Puts `x` into the sorted `s`, after the items that `le` does not put after it.
pub open spec fn insert_sorted<T>(s: Seq<T>, x: T, le: spec_fn(T, T) -> bool) -> Seq<T>
    decreases s.len(),
{
    if s.len() == 0 || le(s.last(), x) {
        s.push(x)
    } else {
        insert_sorted(s.drop_last(), x, le).push(s.last())
    }
}

/// The items of `s` in the order `le`; items that are equal in it stay in the order of `s`.
pub open spec fn sorted_by<T>(s: Seq<T>, le: spec_fn(T, T) -> bool) -> Seq<T>
    decreases s.len(),
{
    if s.len() == 0 {
        Seq::empty()
    } else {
        insert_sorted(sorted_by(s.drop_last(), le), s.last(), le)
    }
}

/// Whether no item of `s` comes after a later one in the order `le`.
pub open spec fn in_order<T>(s: Seq<T>, le: spec_fn(T, T) -> bool) -> bool {
    forall|i: int, j: int| #![trigger s[i], s[j]] 0 <= i < j < s.len() ==> le(s[i], s[j])
}

/// Whether `le` is a total preorder.
pub open spec fn total_preorder<T>(le: spec_fn(T, T) -> bool) -> bool {
    &&& forall|a: T, b: T| #[trigger] le(a, b) || le(b, a)
    &&& forall|a: T, b: T, c: T| #![trigger le(a, b), le(b, c)] le(a, b) && le(b, c) ==> le(a, c)
}

proof fn lemma_insert_sorted<T>(s: Seq<T>, x: T, le: spec_fn(T, T) -> bool)
    ensures
        insert_sorted(s, x, le).len() == s.len() + 1,
        insert_sorted(s, x, le).to_multiset() == s.to_multiset().insert(x),
        total_preorder(le) && in_order(s, le) ==> in_order(insert_sorted(s, x, le), le),
        forall|i: int|
            0 <= i < s.len() + 1 ==> #[trigger] insert_sorted(s, x, le)[i] == x || s.contains(
                insert_sorted(s, x, le)[i],
            ),
    decreases s.len(),
{
    broadcast use vstd::seq_lib::group_to_multiset_ensures;

    let r = insert_sorted(s, x, le);
    if s.len() == 0 || le(s.last(), x) {
        assert forall|i: int| 0 <= i < s.len() + 1 implies #[trigger] r[i] == x || s.contains(
            r[i],
        ) by {
            if i < s.len() {
                assert(r[i] == s[i]);
            }
        }
        if total_preorder(le) && in_order(s, le) {
            assert forall|i: int, j: int|
                #![trigger r[i], r[j]]
                0 <= i < j < r.len() implies le(r[i], r[j]) by {
                if j == s.len() {
                    if i < s.len() - 1 {
                        assert(le(s[i], s.last()));
                    }
                    assert(le(s.last(), x));
                }
            }
        }
    } else {
        let t = s.drop_last();
        lemma_insert_sorted(t, x, le);
        let u = insert_sorted(t, x, le);
        assert(r == u.push(s.last()));
        assert(s =~= t.push(s.last()));
        assert(r.to_multiset() =~= s.to_multiset().insert(x));
        assert forall|i: int| 0 <= i < s.len() + 1 implies #[trigger] r[i] == x || s.contains(
            r[i],
        ) by {
            if i < s.len() {
                assert(r[i] == u[i]);
                if u[i] != x {
                    let k = choose|k: int| 0 <= k < t.len() && t[k] == u[i];
                    assert(s[k] == r[i]);
                }
            } else {
                assert(r[i] == s[s.len() - 1]);
            }
        }
        if total_preorder(le) && in_order(s, le) {
            assert(in_order(t, le)) by {
                assert forall|i: int, j: int|
                    #![trigger t[i], t[j]]
                    0 <= i < j < t.len() implies le(t[i], t[j]) by {
                    assert(le(s[i], s[j]));
                }
            }
            assert(le(x, s.last()));
            assert forall|i: int, j: int|
                #![trigger r[i], r[j]]
                0 <= i < j < r.len() implies le(r[i], r[j]) by {
                if j == u.len() {
                    if u[i] != x {
                        let k = choose|k: int| 0 <= k < t.len() && t[k] == u[i];
                        assert(le(s[k], s[s.len() - 1]));
                    }
                } else {
                    assert(le(u[i], u[j]));
                }
            }
        }
    }
}

/// Sorting keeps the items, and puts them in order if the order is a total one.
pub proof fn lemma_sorted_by<T>(s: Seq<T>, le: spec_fn(T, T) -> bool)
    ensures
        sorted_by(s, le).len() == s.len(),
        sorted_by(s, le).to_multiset() == s.to_multiset(),
        total_preorder(le) ==> in_order(sorted_by(s, le), le),
    decreases s.len(),
{
    broadcast use vstd::seq_lib::group_to_multiset_ensures;

    if s.len() != 0 {
        lemma_sorted_by(s.drop_last(), le);
        lemma_insert_sorted(sorted_by(s.drop_last(), le), s.last(), le);
        assert(s =~= s.drop_last().push(s.last()));
    } else {
        assert(s =~= Seq::empty());
    }
}

/// Whether `le` orders the items of `s`: any two of them, and three of them transitively.
pub open spec fn orders_items<T>(s: Seq<T>, le: spec_fn(T, T) -> bool) -> bool {
    &&& forall|a: T, b: T| s.contains(a) && s.contains(b) ==> #[trigger] le(a, b) || le(b, a)
    &&& forall|a: T, b: T, c: T|
        #![trigger le(a, b), le(b, c)]
        s.contains(a) && s.contains(b) && s.contains(c) && le(a, b) && le(b, c) ==> le(a, c)
}

proof fn lemma_insert_sorted_among<T>(items: Seq<T>, s: Seq<T>, x: T, le: spec_fn(T, T) -> bool)
    requires
        orders_items(items, le),
        items.contains(x),
        forall|i: int| 0 <= i < s.len() ==> items.contains(#[trigger] s[i]),
        in_order(s, le),
    ensures
        in_order(insert_sorted(s, x, le), le),
        forall|i: int|
            0 <= i < insert_sorted(s, x, le).len() ==> items.contains(
                #[trigger] insert_sorted(s, x, le)[i],
            ),
    decreases s.len(),
{
    let r = insert_sorted(s, x, le);
    if s.len() == 0 || le(s.last(), x) {
        assert forall|i: int, j: int|
            #![trigger r[i], r[j]]
            0 <= i < j < r.len() implies le(r[i], r[j]) by {
            if j == s.len() {
                assert(items.contains(s[i]) && items.contains(s[s.len() - 1]));
                if i < s.len() - 1 {
                    assert(le(s[i], s[s.len() - 1]));
                }
                assert(le(s.last(), x));
            }
        }
    } else {
        let t = s.drop_last();
        assert forall|i: int| 0 <= i < t.len() implies items.contains(#[trigger] t[i]) by {
            assert(t[i] == s[i]);
        }
        assert forall|i: int, j: int|
            #![trigger t[i], t[j]]
            0 <= i < j < t.len() implies le(t[i], t[j]) by {
            assert(le(s[i], s[j]));
        }
        lemma_insert_sorted_among(items, t, x, le);
        lemma_insert_sorted(t, x, le);
        let u = insert_sorted(t, x, le);
        assert(r == u.push(s.last()));
        assert(items.contains(s[s.len() - 1]));
        assert(le(x, s.last()) || le(s.last(), x));
        assert forall|i: int, j: int|
            #![trigger r[i], r[j]]
            0 <= i < j < r.len() implies le(r[i], r[j]) by {
            if j == u.len() {
                if u[i] != x {
                    let k = choose|k: int| 0 <= k < t.len() && t[k] == u[i];
                    assert(le(s[k], s[s.len() - 1]));
                }
            } else {
                assert(le(u[i], u[j]));
            }
        }
        assert forall|i: int| 0 <= i < r.len() implies items.contains(#[trigger] r[i]) by {
            if i < u.len() {
                assert(r[i] == u[i]);
            }
        }
    }
}

/// Sorting puts the items in order where the order orders these items.
pub proof fn lemma_sorted_by_among<T>(items: Seq<T>, s: Seq<T>, le: spec_fn(T, T) -> bool)
    requires
        orders_items(items, le),
        forall|i: int| 0 <= i < s.len() ==> items.contains(#[trigger] s[i]),
    ensures
        in_order(sorted_by(s, le), le),
        forall|i: int|
            0 <= i < sorted_by(s, le).len() ==> items.contains(#[trigger] sorted_by(s, le)[i]),
    decreases s.len(),
{
    if s.len() != 0 {
        let t = s.drop_last();
        assert forall|i: int| 0 <= i < t.len() implies items.contains(#[trigger] t[i]) by {
            assert(t[i] == s[i]);
        }
        lemma_sorted_by_among(items, t, le);
        assert(items.contains(s[s.len() - 1]));
        lemma_insert_sorted_among(items, sorted_by(t, le), s.last(), le);
    }
}

/// The sorted sequence has an item exactly if the unsorted one has it.
pub proof fn lemma_sorted_by_contains<T>(s: Seq<T>, le: spec_fn(T, T) -> bool, x: T)
    ensures
        sorted_by(s, le).contains(x) <==> s.contains(x),
{
    broadcast use vstd::seq_lib::group_to_multiset_ensures;

    lemma_sorted_by(s, le);
    assert(s.contains(x) <==> s.to_multiset().count(x) > 0);
    assert(sorted_by(s, le).contains(x) <==> sorted_by(s, le).to_multiset().count(x) > 0);
}

/// Items that occur once still occur once when they are sorted.
pub proof fn lemma_sorted_by_distinct<T>(s: Seq<T>, le: spec_fn(T, T) -> bool)
    requires
        s.no_duplicates(),
    ensures
        sorted_by(s, le).no_duplicates(),
{
    lemma_sorted_by(s, le);
    s.lemma_multiset_has_no_duplicates();
    sorted_by(s, le).lemma_multiset_has_no_duplicates_conv();
}

proof fn lemma_insert_sorted_agree<T>(
    s: Seq<T>,
    x: T,
    p: spec_fn(T, T) -> bool,
    q: spec_fn(T, T) -> bool,
)
    requires
        forall|i: int| 0 <= i < s.len() ==> p(#[trigger] s[i], x) == q(s[i], x),
    ensures
        insert_sorted(s, x, p) == insert_sorted(s, x, q),
    decreases s.len(),
{
    if s.len() > 0 {
        let t = s.drop_last();
        assert forall|i: int| 0 <= i < t.len() implies p(#[trigger] t[i], x) == q(t[i], x) by {
            assert(t[i] == s[i]);
        }
        lemma_insert_sorted_agree(t, x, p, q);
        assert(s.last() == s[s.len() - 1]);
    }
}

/// Orders that agree on the items sort them alike.
pub proof fn lemma_sorted_by_agree<T>(
    s: Seq<T>,
    p: spec_fn(T, T) -> bool,
    q: spec_fn(T, T) -> bool,
)
    requires
        forall|a: T, b: T|
            #![trigger p(a, b)]
            #![trigger q(a, b)]
            s.contains(a) && s.contains(b) ==> p(a, b) == q(a, b),
    ensures
        sorted_by(s, p) == sorted_by(s, q),
    decreases s.len(),
{
    if s.len() > 0 {
        let t = s.drop_last();
        assert forall|a: T| t.contains(a) implies s.contains(a) by {
            assert(s[t.index_of(a)] == a);
        }
        lemma_sorted_by_agree(t, p, q);
        let sorted = sorted_by(t, p);
        assert(s.contains(s.last())) by {
            assert(s[s.len() - 1] == s.last());
        }
        assert forall|i: int| 0 <= i < sorted.len() implies p(#[trigger] sorted[i], s.last()) == q(
            sorted[i],
            s.last(),
        ) by {
            assert(sorted.contains(sorted[i]));
            lemma_sorted_by_contains(t, p, sorted[i]);
        }
        lemma_insert_sorted_agree(sorted, s.last(), p, q);
    }
}

proof fn lemma_insert_sorted_map<T, U>(
    s: Seq<T>,
    x: T,
    f: spec_fn(T) -> U,
    p: spec_fn(T, T) -> bool,
    q: spec_fn(U, U) -> bool,
)
    requires
        forall|a: T, b: T| #[trigger] p(a, b) == q(f(a), f(b)),
    ensures
        insert_sorted(s, x, p).map_values(f) == insert_sorted(s.map_values(f), f(x), q),
    decreases s.len(),
{
    if s.len() == 0 || p(s.last(), x) {
        assert(s.push(x).map_values(f) =~= s.map_values(f).push(f(x)));
        if s.len() > 0 {
            assert(s.map_values(f).last() == f(s.last()));
        }
    } else {
        let t = s.drop_last();
        lemma_insert_sorted_map(t, x, f, p, q);
        assert(s.map_values(f).last() == f(s.last()));
        assert(s.map_values(f).drop_last() =~= t.map_values(f));
        assert(insert_sorted(t, x, p).push(s.last()).map_values(f) =~= insert_sorted(
            t,
            x,
            p,
        ).map_values(f).push(f(s.last())));
    }
}

/// Sorting goes by what the order looks at.
pub proof fn lemma_sorted_by_map<T, U>(
    s: Seq<T>,
    f: spec_fn(T) -> U,
    p: spec_fn(T, T) -> bool,
    q: spec_fn(U, U) -> bool,
)
    requires
        forall|a: T, b: T| #[trigger] p(a, b) == q(f(a), f(b)),
    ensures
        sorted_by(s, p).map_values(f) == sorted_by(s.map_values(f), q),
    decreases s.len(),
{
    if s.len() == 0 {
        assert(sorted_by(s, p).map_values(f) =~= Seq::empty());
    } else {
        let t = s.drop_last();
        lemma_sorted_by_map(t, f, p, q);
        lemma_insert_sorted_map(sorted_by(t, p), s.last(), f, p, q);
        assert(s.map_values(f).drop_last() =~= t.map_values(f));
        assert(s.map_values(f).last() == f(s.last()));
    }
}

pub proof fn lemma_insert_at<T>(s: Seq<T>, x: T, le: spec_fn(T, T) -> bool, p: int)
    requires
        0 <= p <= s.len(),
        forall|i: int| p <= i < s.len() ==> !#[trigger] le(s[i], x),
        p > 0 ==> le(s[p - 1], x),
    ensures
        insert_sorted(s, x, le) == s.insert(p, x),
    decreases s.len(),
{
    if p < s.len() {
        let t = s.drop_last();
        assert forall|i: int| p <= i < t.len() implies !#[trigger] le(t[i], x) by {
            assert(!le(s[i], x));
        }
        lemma_insert_at(t, x, le, p);
        assert(!le(s[s.len() - 1], x));
        assert(t.insert(p, x).push(s.last()) =~= s.insert(p, x));
    } else {
        assert(s.insert(p, x) =~= s.push(x));
    }
}

/// Sorts `items` by the order that `before` tests, see `sorted_by`.
pub(crate) fn stable_sort<T, F: Fn(&T, &T) -> bool>(
    items: Vec<T>,
    before: F,
    Ghost(le): Ghost<spec_fn(T, T) -> bool>,
) -> (sorted: Vec<T>)
    requires
        forall|a: &T, b: &T| #[trigger] before.requires((a, b)),
        forall|a: &T, b: &T, r: bool| #[trigger]
            before.ensures((a, b), r) ==> r == le(*a, *b),
    ensures
        sorted@ == sorted_by(items@, le),
{
    let mut sorted: Vec<T> = Vec::new();
    let ghost all = items@;
    for item in iter: items
        invariant
            iter.seq() == all,
            sorted@ == sorted_by(all.take(iter.index() as int), le),
            sorted.len() == iter.index(),
            forall|a: &T, b: &T| #[trigger] before.requires((a, b)),
            forall|a: &T, b: &T, r: bool| #[trigger]
                before.ensures((a, b), r) ==> r == le(*a, *b),
    {
        let ghost k = iter.index() as int;
        let mut at: usize = sorted.len();
        while at > 0 && !before(&sorted[at - 1], &item)
            invariant
                at <= sorted.len(),
                forall|i: int| at <= i < sorted.len() ==> !#[trigger] le(sorted@[i], item),
                forall|a: &T, b: &T| #[trigger] before.requires((a, b)),
                forall|a: &T, b: &T, r: bool| #[trigger]
                    before.ensures((a, b), r) ==> r == le(*a, *b),
            ensures
                at > 0 ==> le(sorted@[at - 1], item),
            decreases at,
        {
            at -= 1;
        }
        proof {
            lemma_insert_at(sorted@, item, le, at as int);
            assert(all.take(k + 1).drop_last() =~= all.take(k));
        }
        sorted.insert(at, item);
    }
    proof {
        assert(all.take(all.len() as int) =~= all);
    }
    sorted
}

/// Being equal to `key` in the order `le`.
pub open spec fn ties_with<T>(le: spec_fn(T, T) -> bool, key: T) -> spec_fn(T) -> bool {
    |x: T| le(x, key) && le(key, x)
}

proof fn lemma_select_push<T>(s: Seq<T>, x: T, pick: spec_fn(T) -> bool)
    ensures
        pick(x) ==> select(s.push(x), pick) == select(s, pick).push(x),
        !pick(x) ==> select(s.push(x), pick) == select(s, pick),
{
    assert(s.push(x).drop_last() =~= s);
    assert(s.push(x).last() == x);
}

proof fn lemma_insert_sorted_stable<T>(s: Seq<T>, x: T, le: spec_fn(T, T) -> bool, key: T)
    requires
        total_preorder(le),
    ensures
        select(insert_sorted(s, x, le), ties_with(le, key)) == select(
            s.push(x),
            ties_with(le, key),
        ),
    decreases s.len(),
{
    let pick = ties_with(le, key);
    if s.len() > 0 && !le(s.last(), x) {
        let rest = s.drop_last();
        let last = s.last();
        lemma_insert_sorted_stable(rest, x, le, key);
        let inserted = insert_sorted(rest, x, le);
        assert(insert_sorted(s, x, le) == inserted.push(last));
        assert(s =~= rest.push(last));
        lemma_select_push(inserted, last, pick);
        lemma_select_push(rest, x, pick);
        lemma_select_push(rest, last, pick);
        lemma_select_push(s, x, pick);
        if pick(x) && pick(last) {
            assert(le(last, key) && le(key, x));
            assert(le(last, x));
        }
    }
}

/// Sorting is stable: the items that are equal in the order stay in their order.
pub proof fn law_sorting_is_stable<T>(s: Seq<T>, le: spec_fn(T, T) -> bool, key: T)
    requires
        total_preorder(le),
    ensures
        select(sorted_by(s, le), ties_with(le, key)) == select(s, ties_with(le, key)),
    decreases s.len(),
{
    if s.len() > 0 {
        let rest = s.drop_last();
        let pick = ties_with(le, key);
        law_sorting_is_stable(rest, le, key);
        lemma_insert_sorted_stable(sorted_by(rest, le), s.last(), le, key);
        lemma_select_push(sorted_by(rest, le), s.last(), pick);
        lemma_select_push(rest, s.last(), pick);
        assert(s =~= rest.push(s.last()));
    }
}

} // verus!
