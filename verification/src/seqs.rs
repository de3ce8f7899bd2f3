//! Picking items out of sequences.

use vstd::prelude::*;

verus! {

/// The items of `s` that `pick` holds of, in their order.
pub open spec fn select<T>(s: Seq<T>, pick: spec_fn(T) -> bool) -> Seq<T>
    decreases s.len(),
{
    if s.len() == 0 {
        s
    } else {
        let rest = select(s.drop_last(), pick);
        if pick(s.last()) {
            rest.push(s.last())
        } else {
            rest
        }
    }
}

/// The selected items are those of `s` that `pick` holds of.
pub proof fn lemma_select<T>(s: Seq<T>, pick: spec_fn(T) -> bool)
    ensures
        select(s, pick).len() <= s.len(),
        forall|i: int|
            0 <= i < select(s, pick).len() ==> s.contains(#[trigger] select(s, pick)[i]) && pick(
                select(s, pick)[i],
            ),
        forall|x: T| s.contains(x) && pick(x) ==> #[trigger] select(s, pick).contains(x),
        (exists|i: int| 0 <= i < s.len() && !pick(#[trigger] s[i])) ==> select(s, pick).len()
            < s.len(),
        (forall|i: int| 0 <= i < s.len() ==> pick(#[trigger] s[i])) ==> select(s, pick) == s,
    decreases s.len(),
{
    if s.len() > 0 {
        let t = s.drop_last();
        lemma_select(t, pick);
        let rest = select(t, pick);
        let all = select(s, pick);
        assert forall|i: int| 0 <= i < all.len() implies s.contains(#[trigger] all[i]) && pick(
            all[i],
        ) by {
            if i < rest.len() {
                assert(all[i] == rest[i]);
                let k = choose|k: int| 0 <= k < t.len() && t[k] == rest[i];
                assert(s[k] == all[i]);
            } else {
                assert(s[s.len() - 1] == all[i]);
            }
        }
        assert forall|x: T| s.contains(x) && pick(x) implies #[trigger] all.contains(x) by {
            let k = choose|k: int| 0 <= k < s.len() && s[k] == x;
            if k < t.len() {
                assert(t[k] == x);
                assert(rest.contains(x));
                let m = choose|m: int| 0 <= m < rest.len() && rest[m] == x;
                assert(all[m] == x);
            } else {
                assert(all[all.len() - 1] == x);
            }
        }
        if exists|i: int| 0 <= i < s.len() && !pick(#[trigger] s[i]) {
            let i = choose|i: int| 0 <= i < s.len() && !pick(#[trigger] s[i]);
            if i < t.len() {
                assert(!pick(t[i]));
            }
        }
        if forall|i: int| 0 <= i < s.len() ==> pick(#[trigger] s[i]) {
            assert forall|i: int| 0 <= i < t.len() implies pick(#[trigger] t[i]) by {
                assert(pick(s[i]));
            }
            assert(pick(s[s.len() - 1]));
            assert(all =~= s);
        }
    }
}

/// Items that occur once are selected once.
pub proof fn lemma_select_distinct<T>(s: Seq<T>, pick: spec_fn(T) -> bool)
    requires
        s.no_duplicates(),
    ensures
        select(s, pick).no_duplicates(),
    decreases s.len(),
{
    if s.len() > 0 {
        let t = s.drop_last();
        lemma_select_distinct(t, pick);
        lemma_select(t, pick);
        let rest = select(t, pick);
        let all = select(s, pick);
        assert forall|i: int, j: int|
            0 <= i < all.len() && 0 <= j < all.len() && i != j implies all[i] != all[j] by {
            if i < rest.len() {
                let k = t.index_of(rest[i]);
                assert(s[k] == rest[i] && t.contains(rest[i]));
            }
            if j < rest.len() {
                let k = t.index_of(rest[j]);
                assert(s[k] == rest[j] && t.contains(rest[j]));
            }
        }
    }
}

/// Two ways to pick that agree on the items of `s` select the same items.
pub proof fn lemma_select_agree<T>(s: Seq<T>, p: spec_fn(T) -> bool, q: spec_fn(T) -> bool)
    requires
        forall|i: int| 0 <= i < s.len() ==> p(#[trigger] s[i]) == q(s[i]),
    ensures
        select(s, p) == select(s, q),
    decreases s.len(),
{
    if s.len() > 0 {
        let t = s.drop_last();
        assert forall|i: int| 0 <= i < t.len() implies p(#[trigger] t[i]) == q(t[i]) by {
            assert(p(s[i]) == q(s[i]));
        }
        lemma_select_agree(t, p, q);
        assert(p(s[s.len() - 1]) == q(s[s.len() - 1]));
    }
}

/// Selecting twice selects what both picks hold of.
pub proof fn lemma_select_twice<T>(s: Seq<T>, p: spec_fn(T) -> bool, q: spec_fn(T) -> bool)
    ensures
        select(select(s, p), q) == select(s, |x: T| p(x) && q(x)),
    decreases s.len(),
{
    if s.len() > 0 {
        lemma_select_twice(s.drop_last(), p, q);
        let rest = select(s.drop_last(), p);
        if p(s.last()) {
            assert(rest.push(s.last()).drop_last() =~= rest);
        }
    }
}

} // verus!
