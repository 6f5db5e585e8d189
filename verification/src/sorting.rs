//! Stable insertion order: what `sort_by` / `sort_by_key` give for a
//! strict "comes before" relation between elements.

use vstd::prelude::*;

verus! {

/// `s` with `x` put before the first element that `x` comes before
/// (after all the others, so equal elements keep their order).
pub open spec fn insert_stable<T>(s: Seq<T>, x: T, before: spec_fn(T, T) -> bool) -> Seq<T>
    decreases s.len(),
{
    if s.len() == 0 {
        seq![x]
    } else if before(x, s[0]) {
        seq![x] + s
    } else {
        seq![s[0]] + insert_stable(s.drop_first(), x, before)
    }
}

/// The stable sort of `s` under `before`: each element in turn inserted
/// after every earlier element it does not come before.
pub open spec fn sort_stable<T>(s: Seq<T>, before: spec_fn(T, T) -> bool) -> Seq<T>
    decreases s.len(),
{
    if s.len() == 0 {
        s
    } else {
        insert_stable(sort_stable(s.drop_last(), before), s.last(), before)
    }
}

/// The index where `insert_stable` puts `x`.
pub open spec fn insert_index<T>(s: Seq<T>, x: T, before: spec_fn(T, T) -> bool) -> int
    decreases s.len(),
{
    if s.len() == 0 {
        0
    } else if before(x, s[0]) {
        0
    } else {
        1 + insert_index(s.drop_first(), x, before)
    }
}

pub proof fn lemma_insert_index<T>(s: Seq<T>, x: T, before: spec_fn(T, T) -> bool, i: int)
    requires
        0 <= i <= s.len(),
        forall|j: int| 0 <= j < i ==> !before(x, #[trigger] s[j]),
        i == s.len() || before(x, s[i]),
    ensures
        insert_index(s, x, before) == i,
        insert_stable(s, x, before) == s.insert(i, x),
    decreases s.len(),
{
    if s.len() == 0 {
        assert(s.insert(0, x) =~= seq![x]);
    } else if i == 0 {
        assert(s.insert(0, x) =~= seq![x] + s);
    } else {
        let t = s.drop_first();
        assert forall|j: int| 0 <= j < i - 1 implies !before(x, #[trigger] t[j]) by {
            assert(t[j] == s[j + 1]);
        }
        lemma_insert_index(t, x, before, i - 1);
        assert(seq![s[0]] + t.insert(i - 1, x) =~= s.insert(i, x));
    }
}

pub proof fn lemma_sort_stable_len<T>(s: Seq<T>, before: spec_fn(T, T) -> bool)
    ensures
        sort_stable(s, before).len() == s.len(),
    decreases s.len(),
{
    if s.len() > 0 {
        lemma_sort_stable_len(s.drop_last(), before);
        lemma_insert_len(sort_stable(s.drop_last(), before), s.last(), before);
    }
}

pub proof fn lemma_insert_len<T>(s: Seq<T>, x: T, before: spec_fn(T, T) -> bool)
    ensures
        insert_stable(s, x, before).len() == s.len() + 1,
    decreases s.len(),
{
    if s.len() > 0 && !before(x, s[0]) {
        lemma_insert_len(s.drop_first(), x, before);
    }
}


pub proof fn lemma_insert_members<T>(s: Seq<T>, x: T, before: spec_fn(T, T) -> bool)
    ensures
        insert_stable(s, x, before).len() == s.len() + 1,
        forall|j: int|
            0 <= j < insert_stable(s, x, before).len() ==> #[trigger] insert_stable(s, x, before)[j]
                == x || s.contains(insert_stable(s, x, before)[j]),
    decreases s.len(),
{
    let ins = insert_stable(s, x, before);
    if s.len() == 0 {
    } else if before(x, s[0]) {
        assert forall|j: int| 0 <= j < ins.len() implies #[trigger] ins[j] == x || s.contains(
            ins[j],
        ) by {
            if j > 0 {
                assert(ins[j] == s[j - 1]);
            }
        }
    } else {
        let t = s.drop_first();
        lemma_insert_members(t, x, before);
        assert forall|j: int| 0 <= j < ins.len() implies #[trigger] ins[j] == x || s.contains(
            ins[j],
        ) by {
            if j == 0 {
                assert(ins[0] == s[0]);
            } else {
                let it = insert_stable(t, x, before);
                assert(ins[j] == it[j - 1]);
                if t.contains(it[j - 1]) {
                    let k = choose|k: int| 0 <= k < t.len() && t[k] == it[j - 1];
                    assert(s[k + 1] == t[k]);
                }
            }
        }
    }
}

/// Every element of the stable sort is an element of the input.
pub proof fn lemma_sort_members<T>(s: Seq<T>, before: spec_fn(T, T) -> bool)
    ensures
        sort_stable(s, before).len() == s.len(),
        forall|j: int|
            0 <= j < sort_stable(s, before).len() ==> s.contains(#[trigger] sort_stable(s, before)[j]),
    decreases s.len(),
{
    if s.len() > 0 {
        let d = s.drop_last();
        lemma_sort_members(d, before);
        let sd = sort_stable(d, before);
        lemma_insert_members(sd, s.last(), before);
        let r = sort_stable(s, before);
        assert forall|j: int| 0 <= j < r.len() implies s.contains(#[trigger] r[j]) by {
            if r[j] == s.last() {
                assert(s[s.len() - 1] == s.last());
            } else {
                assert(sd.contains(r[j]));
                let k = choose|k: int| 0 <= k < sd.len() && sd[k] == r[j];
                assert(d.contains(sd[k]));
                let m = choose|m: int| 0 <= m < d.len() && d[m] == sd[k];
                assert(s[m] == d[m]);
            }
        }
    }
}

/// Where `insert_stable` puts `x`: after every element `x` does not come
/// before, and before the element it first comes before.
proof fn lemma_insert_index_props<T>(s: Seq<T>, x: T, before: spec_fn(T, T) -> bool)
    ensures
        0 <= insert_index(s, x, before) <= s.len(),
        forall|q: int| 0 <= q < insert_index(s, x, before) ==> !before(x, #[trigger] s[q]),
        insert_index(s, x, before) < s.len() ==> before(x, s[insert_index(s, x, before)]),
        insert_stable(s, x, before) == s.insert(insert_index(s, x, before), x),
    decreases s.len(),
{
    if s.len() == 0 {
        assert(s.insert(0, x) =~= seq![x]);
    } else if before(x, s[0]) {
        assert(s.insert(0, x) =~= seq![x] + s);
    } else {
        let t = s.drop_first();
        lemma_insert_index_props(t, x, before);
        let p = insert_index(t, x, before);
        assert forall|q: int| 0 <= q < p + 1 implies !before(x, #[trigger] s[q]) by {
            if q > 0 {
                assert(s[q] == t[q - 1]);
            }
        }
        if p < t.len() {
            assert(s[p + 1] == t[p]);
        }
        assert(seq![s[0]] + t.insert(p, x) =~= s.insert(p + 1, x));
    }
}

/// `before` is a strict order: nothing comes before itself, and it is
/// transitive.
pub open spec fn strict_order<T>(before: spec_fn(T, T) -> bool) -> bool {
    &&& forall|a: T| !#[trigger] before(a, a)
    &&& forall|a: T, b: T, c: T| #[trigger] before(a, b) && #[trigger] before(b, c) ==> before(a, c)
}

/// No element of `s` comes before an element earlier in `s`.
pub open spec fn sorted_by<T>(s: Seq<T>, before: spec_fn(T, T) -> bool) -> bool {
    forall|i: int, j: int| 0 <= i < j < s.len() ==> !before(#[trigger] s[j], #[trigger] s[i])
}

proof fn lemma_insert_sorted<T>(s: Seq<T>, x: T, before: spec_fn(T, T) -> bool)
    requires
        strict_order(before),
        sorted_by(s, before),
    ensures
        sorted_by(insert_stable(s, x, before), before),
{
    lemma_insert_index_props(s, x, before);
    let p = insert_index(s, x, before);
    let r = s.insert(p, x);
    assert forall|i: int, j: int| 0 <= i < j < r.len() implies !before(#[trigger] r[j], #[trigger] r[i]) by {
        if j < p {
            assert(r[i] == s[i] && r[j] == s[j]);
        } else if j == p {
            assert(r[i] == s[i]);
        } else if i < p {
            assert(r[i] == s[i] && r[j] == s[j - 1]);
        } else if i == p {
            assert(r[j] == s[j - 1]);
            if before(s[j - 1], x) {
                assert(before(x, s[p]));
                assert(before(s[j - 1], s[p]));
            }
        } else {
            assert(r[i] == s[i - 1] && r[j] == s[j - 1]);
        }
    }
}

/// A stable sort under a strict order is sorted: no element comes before
/// one that is listed earlier.
pub proof fn law_sort_sorted<T>(s: Seq<T>, before: spec_fn(T, T) -> bool)
    requires
        strict_order(before),
    ensures
        sorted_by(sort_stable(s, before), before),
    decreases s.len(),
{
    if s.len() > 0 {
        law_sort_sorted(s.drop_last(), before);
        lemma_insert_sorted(sort_stable(s.drop_last(), before), s.last(), before);
    }
}

/// The stable sort holds the same elements, each as often.
pub proof fn law_sort_permutes<T>(s: Seq<T>, before: spec_fn(T, T) -> bool)
    ensures
        sort_stable(s, before).to_multiset() == s.to_multiset(),
    decreases s.len(),
{
    broadcast use vstd::seq_lib::group_to_multiset_ensures;

    if s.len() == 0 {
    } else {
        let d = s.drop_last();
        law_sort_permutes(d, before);
        let sd = sort_stable(d, before);
        lemma_insert_index_props(sd, s.last(), before);
        assert(sd.insert(insert_index(sd, s.last(), before), s.last()).to_multiset()
            == sd.to_multiset().insert(s.last()));
        assert(d.push(s.last()) =~= s);
        assert(d.push(s.last()).to_multiset() == d.to_multiset().insert(s.last()));
    }
}

/// `before` ranks its elements: a strict order in which being tied (neither
/// comes before the other) is an equivalence, i.e. whatever comes before
/// `c` comes before `b` or `b` comes before `c`.
pub open spec fn strict_weak_order<T>(before: spec_fn(T, T) -> bool) -> bool {
    &&& strict_order(before)
    &&& forall|a: T, b: T, c: T| #[trigger] before(a, c) ==> before(a, b) || #[trigger] before(b, c)
}

/// The elements ranked the same as `x`: neither comes before the other.
pub open spec fn tied_with<T>(before: spec_fn(T, T) -> bool, x: T) -> spec_fn(T) -> bool {
    |y: T| !before(x, y) && !before(y, x)
}

/// After `p`, inserting `x` where `insert_stable` puts it, nothing that is
/// ranked like `x` follows.
proof fn lemma_none_tied_after<T>(s: Seq<T>, x: T, before: spec_fn(T, T) -> bool, c: T)
    requires
        strict_weak_order(before),
        sorted_by(s, before),
        tied_with(before, c)(x),
    ensures
        s.skip(insert_index(s, x, before)).filter(tied_with(before, c)).len() == 0,
{
    lemma_insert_index_props(s, x, before);
    let p = insert_index(s, x, before);
    let t = s.skip(p);
    let pr = tied_with(before, c);
    assert forall|q: int| 0 <= q < t.len() implies !pr(#[trigger] t[q]) by {
        let y = t[q];
        assert(y == s[p + q]);
        assert(before(x, s[p]));
        if q > 0 {
            assert(!before(s[p + q], s[p]));
            assert(before(x, s[p]) ==> before(x, s[p + q]) || before(s[p + q], s[p]));
        }
        assert(before(x, y));
        assert(before(x, y) ==> before(x, c) || before(c, y));
    }
    assert(t.all(|y: T| !pr(y))) by {
        assert forall|q: int| 0 <= q < t.len() implies (|y: T| !pr(y))(#[trigger] t[q]) by {}
    }
    t.lemma_all_neg_filter_empty(pr);
}

/// Equally ranked elements keep their order: the elements of the stable
/// sort that are ranked like any `c` are those of the input, in the
/// input's order.
pub proof fn law_sort_keeps_ties<T>(s: Seq<T>, before: spec_fn(T, T) -> bool, c: T)
    requires
        strict_weak_order(before),
    ensures
        sort_stable(s, before).filter(tied_with(before, c)) == s.filter(tied_with(before, c)),
    decreases s.len(),
{
    broadcast use vstd::seq_lib::group_filter_ensures;

    let pr = tied_with(before, c);
    if s.len() > 0 {
        let d = s.drop_last();
        let e = s.last();
        law_sort_keeps_ties(d, before, c);
        let sd = sort_stable(d, before);
        law_sort_sorted(d, before);
        lemma_insert_index_props(sd, e, before);
        let p = insert_index(sd, e, before);
        assert(d.push(e) =~= s);
        d.lemma_filter_push(e, pr);
        let a = sd.take(p);
        let b = sd.skip(p);
        assert(sd.insert(p, e) =~= a + seq![e] + b);
        assert(a + b =~= sd);
        Seq::filter_distributes_over_add(a + seq![e], b, pr);
        Seq::filter_distributes_over_add(a, seq![e], pr);
        Seq::filter_distributes_over_add(a, b, pr);
        assert(seq![e] =~= Seq::<T>::empty().push(e));
        Seq::<T>::empty().lemma_filter_push(e, pr);
        assert(Seq::<T>::empty().filter(pr) =~= Seq::<T>::empty()) by {
            reveal(Seq::filter);
        }
        if pr(e) {
            lemma_none_tied_after(sd, e, before, c);
            assert(b.filter(pr) =~= Seq::<T>::empty());
            assert(a.filter(pr) + seq![e] + b.filter(pr) =~= (a.filter(pr) + b.filter(pr)).push(e));
        } else {
            assert(a.filter(pr) + Seq::<T>::empty() + b.filter(pr) =~= a.filter(pr) + b.filter(pr));
        }
    }
}

/// The stable sort holds as many elements with any property `pr` as the
/// input.
pub proof fn law_sort_keeps_counts<T>(s: Seq<T>, before: spec_fn(T, T) -> bool, pr: spec_fn(T) -> bool)
    ensures
        sort_stable(s, before).filter(pr).len() == s.filter(pr).len(),
    decreases s.len(),
{
    if s.len() > 0 {
        let d = s.drop_last();
        let e = s.last();
        law_sort_keeps_counts(d, before, pr);
        let sd = sort_stable(d, before);
        lemma_insert_index_props(sd, e, before);
        let p = insert_index(sd, e, before);
        assert(d.push(e) =~= s);
        d.lemma_filter_push(e, pr);
        let a = sd.take(p);
        let b = sd.skip(p);
        assert(sd.insert(p, e) =~= a + seq![e] + b);
        assert(a + b =~= sd);
        Seq::filter_distributes_over_add(a + seq![e], b, pr);
        Seq::filter_distributes_over_add(a, seq![e], pr);
        Seq::filter_distributes_over_add(a, b, pr);
        assert(seq![e] =~= Seq::<T>::empty().push(e));
        Seq::<T>::empty().lemma_filter_push(e, pr);
        assert(Seq::<T>::empty().filter(pr) =~= Seq::<T>::empty()) by {
            reveal(Seq::filter);
        }
    }
}

} // verus!
