//! Stable insertion order, as a specification.
use vstd::prelude::*;

verus! {

/// `sorted` with `x` placed after every element that `x` does not sort before.
pub open spec fn insert_sorted<T>(sorted: Seq<T>, x: T, less: spec_fn(T, T) -> bool) -> Seq<T>
    decreases sorted.len(),
{
    if sorted.len() == 0 {
        seq![x]
    } else if less(x, sorted.last()) {
        insert_sorted(sorted.drop_last(), x, less).push(sorted.last())
    } else {
        sorted.push(x)
    }
}

/// Stable sort of `s` by `less`: each element in turn is inserted after the
/// elements that it does not sort before.
pub open spec fn sorted_by<T>(s: Seq<T>, less: spec_fn(T, T) -> bool) -> Seq<T>
    decreases s.len(),
{
    if s.len() == 0 {
        s
    } else {
        insert_sorted(sorted_by(s.drop_last(), less), s.last(), less)
    }
}

/// Inserting at the first position `p` after which every element sorts
/// after `x`.
pub proof fn lemma_insert_sorted_at<T>(s: Seq<T>, x: T, less: spec_fn(T, T) -> bool, p: int)
    requires
        0 <= p <= s.len(),
        forall|q: int| p <= q < s.len() ==> less(x, #[trigger] s[q]),
        p > 0 ==> !less(x, s[p - 1]),
    ensures
        insert_sorted(s, x, less) == s.take(p).push(x) + s.skip(p),
    decreases s.len(),
{
    if s.len() == 0 {
        assert(s.take(p).push(x) + s.skip(p) =~= seq![x]);
    } else if p == s.len() {
        assert(s.take(p).push(x) + s.skip(p) =~= s.push(x));
    } else {
        assert(less(x, s[s.len() - 1]));
        let t = s.drop_last();
        assert forall|q: int| p <= q < t.len() implies less(x, #[trigger] t[q]) by {
            assert(t[q] == s[q]);
        }
        if p > 0 {
            assert(t[p - 1] == s[p - 1]);
        }
        lemma_insert_sorted_at(t, x, less, p);
        assert(t.take(p).push(x) + t.skip(p) + seq![s.last()] =~= s.take(p).push(x) + s.skip(p));
        assert(insert_sorted(t, x, less).push(s.last()) =~= insert_sorted(t, x, less) + seq![s.last()]);
    }
}

/// Inserting `x` adds `x` and keeps every other element.
pub proof fn lemma_insert_sorted_contains<T>(t: Seq<T>, x: T, less: spec_fn(T, T) -> bool, y: T)
    ensures
        insert_sorted(t, x, less).contains(y) <==> (t.contains(y) || y == x),
        insert_sorted(t, x, less).len() == t.len() + 1,
    decreases t.len(),
{
    if t.len() == 0 {
        assert(insert_sorted(t, x, less) =~= seq![x]);
        assert(insert_sorted(t, x, less)[0] == x);
    } else if less(x, t.last()) {
        let u = insert_sorted(t.drop_last(), x, less);
        lemma_insert_sorted_contains(t.drop_last(), x, less, y);
        assert(t =~= t.drop_last().push(t.last()));
        if u.push(t.last()).contains(y) {
            let k = choose|k: int| 0 <= k < u.push(t.last()).len() && u.push(t.last())[k] == y;
            if k < u.len() {
                assert(u[k] == y);
                assert(u.contains(y));
                if t.drop_last().contains(y) {
                    let j = choose|j: int| 0 <= j < t.drop_last().len() && t.drop_last()[j] == y;
                    assert(t[j] == y);
                }
            } else {
                assert(t[t.len() - 1] == y);
            }
        }
        if t.contains(y) {
            let j = choose|j: int| 0 <= j < t.len() && t[j] == y;
            if j < t.len() - 1 {
                assert(t.drop_last()[j] == y);
                let k = choose|k: int| 0 <= k < u.len() && u[k] == y;
                assert(u.push(t.last())[k] == y);
            } else {
                assert(u.push(t.last())[u.len() as int] == y);
            }
        }
        if y == x {
            let k = choose|k: int| 0 <= k < u.len() && u[k] == y;
            assert(u.push(t.last())[k] == y);
        }
    } else {
        if t.push(x).contains(y) {
            let k = choose|k: int| 0 <= k < t.push(x).len() && t.push(x)[k] == y;
            if k < t.len() {
                assert(t[k] == y);
            }
        }
        if t.contains(y) {
            let j = choose|j: int| 0 <= j < t.len() && t[j] == y;
            assert(t.push(x)[j] == y);
        }
        assert(t.push(x)[t.len() as int] == x);
    }
}

/// Sorting keeps exactly the elements it was given.
pub proof fn lemma_sorted_by_contains<T>(s: Seq<T>, less: spec_fn(T, T) -> bool, y: T)
    ensures
        sorted_by(s, less).contains(y) <==> s.contains(y),
        sorted_by(s, less).len() == s.len(),
    decreases s.len(),
{
    if s.len() > 0 {
        lemma_sorted_by_contains(s.drop_last(), less, y);
        lemma_insert_sorted_contains(sorted_by(s.drop_last(), less), s.last(), less, y);
        if s.contains(y) {
            let j = choose|j: int| 0 <= j < s.len() && s[j] == y;
            if j < s.len() - 1 {
                assert(s.drop_last()[j] == y);
            }
        }
        if s.drop_last().contains(y) {
            let j = choose|j: int| 0 <= j < s.drop_last().len() && s.drop_last()[j] == y;
            assert(s[j] == y);
        }
    }
}

/// No later element of `s` sorts before an earlier one.
pub open spec fn sorted_wrt<T>(s: Seq<T>, less: spec_fn(T, T) -> bool) -> bool {
    forall|i: int, j: int| 0 <= i < j < s.len() ==> !less(#[trigger] s[j], #[trigger] s[i])
}

/// `less` is a strict weak order: asymmetric, and whatever lies between
/// two ordered elements is after the first or before the second.
pub open spec fn weak_order<T>(less: spec_fn(T, T) -> bool) -> bool {
    &&& forall|x: T, y: T| #[trigger] less(x, y) ==> !less(y, x)
    &&& forall|x: T, y: T, z: T| #![trigger less(x, z), less(x, y)] #![trigger less(x, z), less(y, z)] less(x, z) ==> less(x, y) || less(y, z)
}

proof fn lemma_insert_sorted_sorted<T>(t: Seq<T>, x: T, less: spec_fn(T, T) -> bool)
    requires
        weak_order(less),
        sorted_wrt(t, less),
    ensures
        sorted_wrt(insert_sorted(t, x, less), less),
    decreases t.len(),
{
    if t.len() == 0 {
        assert(insert_sorted(t, x, less) =~= seq![x]);
    } else if less(x, t.last()) {
        let tl = t.drop_last();
        let u = insert_sorted(tl, x, less);
        lemma_insert_sorted_sorted(tl, x, less);
        let out = u.push(t.last());
        assert(insert_sorted(t, x, less) == out);
        assert forall|i: int, j: int| 0 <= i < j < out.len() implies !less(#[trigger] out[j], #[trigger] out[i]) by {
            if j < u.len() {
                assert(out[j] == u[j] && out[i] == u[i]);
            } else {
                assert(out[j] == t.last());
                assert(out[i] == u[i]);
                assert(u.contains(u[i]));
                lemma_insert_sorted_contains(tl, x, less, u[i]);
                if u[i] == x {
                    assert(!less(t.last(), x));
                } else {
                    let m = choose|m: int| 0 <= m < tl.len() && tl[m] == u[i];
                    assert(t[m] == u[i]);
                    assert(!less(t[t.len() - 1], t[m]));
                }
            }
        }
    } else {
        let out = t.push(x);
        assert(insert_sorted(t, x, less) == out);
        assert forall|i: int, j: int| 0 <= i < j < out.len() implies !less(#[trigger] out[j], #[trigger] out[i]) by {
            if j < t.len() {
                assert(out[j] == t[j] && out[i] == t[i]);
            } else {
                assert(out[j] == x && out[i] == t[i]);
                if i < t.len() - 1 {
                    assert(!less(t[t.len() - 1], t[i]));
                    if less(x, t[i]) {
                        assert(less(x, t.last()) || less(t.last(), t[i]));
                    }
                }
            }
        }
    }
}

/// Sorting by a strict weak order gives a sorted sequence.
pub proof fn lemma_sorted_by_sorted<T>(s: Seq<T>, less: spec_fn(T, T) -> bool)
    requires
        weak_order(less),
    ensures
        sorted_wrt(sorted_by(s, less), less),
    decreases s.len(),
{
    if s.len() > 0 {
        lemma_sorted_by_sorted(s.drop_last(), less);
        lemma_insert_sorted_sorted(sorted_by(s.drop_last(), less), s.last(), less);
    }
}

/// No two elements of `s` have the same key.
pub open spec fn distinct_by<T, K>(s: Seq<T>, key: spec_fn(T) -> K) -> bool {
    forall|i: int, j: int| 0 <= i < s.len() && 0 <= j < s.len() && i != j ==> key(#[trigger] s[i]) != key(#[trigger] s[j])
}

proof fn lemma_insert_sorted_distinct<T, K>(t: Seq<T>, x: T, less: spec_fn(T, T) -> bool, key: spec_fn(T) -> K)
    requires
        distinct_by(t, key),
        forall|k: int| 0 <= k < t.len() ==> key(#[trigger] t[k]) != key(x),
    ensures
        distinct_by(insert_sorted(t, x, less), key),
    decreases t.len(),
{
    if t.len() == 0 {
        assert(insert_sorted(t, x, less) =~= seq![x]);
    } else if less(x, t.last()) {
        let tl = t.drop_last();
        assert forall|k: int| 0 <= k < tl.len() implies key(#[trigger] tl[k]) != key(x) by {
            assert(tl[k] == t[k]);
        }
        assert forall|i: int, j: int| 0 <= i < tl.len() && 0 <= j < tl.len() && i != j implies key(#[trigger] tl[i]) != key(#[trigger] tl[j]) by {
            assert(tl[i] == t[i] && tl[j] == t[j]);
        }
        lemma_insert_sorted_distinct(tl, x, less, key);
        let u = insert_sorted(tl, x, less);
        let out = u.push(t.last());
        assert(insert_sorted(t, x, less) == out);
        lemma_insert_sorted_contains(tl, x, less, x);
        assert forall|m: int| 0 <= m < u.len() implies key(#[trigger] u[m]) != key(t.last()) by {
            assert(u.contains(u[m]));
            lemma_insert_sorted_contains(tl, x, less, u[m]);
            if u[m] != x {
                let p = choose|p: int| 0 <= p < tl.len() && tl[p] == u[m];
                assert(t[p] == u[m]);
                assert(key(t[p]) != key(t[t.len() - 1]));
            } else {
                assert(key(t[t.len() - 1]) != key(x));
            }
        }
        assert forall|i: int, j: int| 0 <= i < out.len() && 0 <= j < out.len() && i != j implies key(#[trigger] out[i]) != key(#[trigger] out[j]) by {
            if i < u.len() && j < u.len() {
                assert(out[i] == u[i] && out[j] == u[j]);
            } else if i < u.len() {
                assert(out[i] == u[i] && out[j] == t.last());
            } else {
                assert(out[j] == u[j] && out[i] == t.last());
            }
        }
    } else {
        let out = t.push(x);
        assert(insert_sorted(t, x, less) == out);
        assert forall|i: int, j: int| 0 <= i < out.len() && 0 <= j < out.len() && i != j implies key(#[trigger] out[i]) != key(#[trigger] out[j]) by {
            if i < t.len() && j < t.len() {
                assert(out[i] == t[i] && out[j] == t[j]);
            } else if i < t.len() {
                assert(out[i] == t[i] && out[j] == x);
            } else {
                assert(out[j] == t[j] && out[i] == x);
            }
        }
    }
}

/// Sorting keeps keys distinct.
pub proof fn lemma_sorted_by_distinct<T, K>(s: Seq<T>, less: spec_fn(T, T) -> bool, key: spec_fn(T) -> K)
    requires
        distinct_by(s, key),
    ensures
        distinct_by(sorted_by(s, less), key),
    decreases s.len(),
{
    if s.len() > 0 {
        let sl = s.drop_last();
        assert forall|i: int, j: int| 0 <= i < sl.len() && 0 <= j < sl.len() && i != j implies key(#[trigger] sl[i]) != key(#[trigger] sl[j]) by {
            assert(sl[i] == s[i] && sl[j] == s[j]);
        }
        lemma_sorted_by_distinct(sl, less, key);
        let t = sorted_by(sl, less);
        assert forall|k: int| 0 <= k < t.len() implies key(#[trigger] t[k]) != key(s.last()) by {
            assert(t.contains(t[k]));
            lemma_sorted_by_contains(sl, less, t[k]);
            let p = choose|p: int| 0 <= p < sl.len() && sl[p] == t[k];
            assert(s[p] == t[k]);
            assert(key(s[p]) != key(s[s.len() - 1]));
        }
        lemma_insert_sorted_distinct(t, s.last(), less, key);
    }
}

} // verus!
