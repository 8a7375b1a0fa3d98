//! Counting the items of a sequence that satisfy a predicate.

use vstd::prelude::*;

verus! {

/// How many items of `s` satisfy `p`.
pub open spec fn count_where<T>(s: Seq<T>, p: spec_fn(T) -> bool) -> nat
    decreases s.len(),
{
    if s.len() == 0 {
        0
    } else {
        count_where(s.drop_last(), p) + if p(s.last()) {
            1nat
        } else {
            0nat
        }
    }
}

/// One if `p` holds of `x`, else zero.
pub open spec fn unit<T>(p: spec_fn(T) -> bool, x: T) -> nat {
    if p(x) {
        1
    } else {
        0
    }
}

/// Appending an item adds its unit to the count.
pub proof fn lemma_count_push<T>(s: Seq<T>, p: spec_fn(T) -> bool, x: T)
    ensures
        count_where(s.push(x), p) == count_where(s, p) + unit(p, x),
{
    assert(s.push(x).drop_last() =~= s);
}

/// The count never exceeds the length.
pub proof fn lemma_count_bound<T>(s: Seq<T>, p: spec_fn(T) -> bool)
    ensures
        count_where(s, p) <= s.len(),
    decreases s.len(),
{
    if s.len() > 0 {
        lemma_count_bound(s.drop_last(), p);
    }
}

/// The count is zero exactly when no item satisfies `p`.
pub proof fn lemma_count_none<T>(s: Seq<T>, p: spec_fn(T) -> bool)
    ensures
        count_where(s, p) == 0 <==> forall|i: int| 0 <= i < s.len() ==> !p(#[trigger] s[i]),
    decreases s.len(),
{
    if s.len() > 0 {
        let r = s.drop_last();
        lemma_count_none(r, p);
        assert(forall|i: int| 0 <= i < r.len() ==> r[i] == s[i]);
        if count_where(s, p) == 0 {
            assert forall|i: int| 0 <= i < s.len() implies !p(#[trigger] s[i]) by {
                if i < r.len() {
                    assert(!p(r[i]));
                }
            }
        } else if !p(s.last()) {
            let i = choose|i: int| 0 <= i < r.len() && p(#[trigger] r[i]);
            assert(p(s[i]));
        }
    }
}

/// The count equals the length exactly when every item satisfies `p`.
pub proof fn lemma_count_all<T>(s: Seq<T>, p: spec_fn(T) -> bool)
    ensures
        count_where(s, p) == s.len() <==> forall|i: int| 0 <= i < s.len() ==> p(#[trigger] s[i]),
    decreases s.len(),
{
    if s.len() > 0 {
        let r = s.drop_last();
        lemma_count_all(r, p);
        lemma_count_bound(r, p);
        assert(forall|i: int| 0 <= i < r.len() ==> r[i] == s[i]);
        if count_where(s, p) == s.len() {
            assert forall|i: int| 0 <= i < s.len() implies p(#[trigger] s[i]) by {
                if i < r.len() {
                    assert(p(r[i]));
                }
            }
        } else if p(s.last()) {
            let i = choose|i: int| 0 <= i < r.len() && !p(#[trigger] r[i]);
            assert(!p(s[i]));
        }
    }
}

/// Replacing one item trades its unit for the new item's.
pub proof fn lemma_count_update<T>(s: Seq<T>, p: spec_fn(T) -> bool, i: int, x: T)
    requires
        0 <= i < s.len(),
    ensures
        count_where(s.update(i, x), p) + unit(p, s[i]) == count_where(s, p) + unit(p, x),
    decreases s.len(),
{
    let u = s.update(i, x);
    if i == s.len() - 1 {
        assert(u.drop_last() =~= s.drop_last());
    } else {
        lemma_count_update(s.drop_last(), p, i, x);
        assert(u.drop_last() =~= s.drop_last().update(i, x));
    }
}

/// Removing the first item takes its unit from the count.
pub proof fn lemma_count_drop_first<T>(s: Seq<T>, p: spec_fn(T) -> bool)
    requires
        s.len() > 0,
    ensures
        count_where(s.drop_first(), p) + unit(p, s[0]) == count_where(s, p),
    decreases s.len(),
{
    if s.len() == 1 {
        assert(s.drop_first() =~= s.drop_last());
    } else {
        lemma_count_drop_first(s.drop_last(), p);
        assert(s.drop_first().drop_last() =~= s.drop_last().drop_first());
    }
}

} // verus!
