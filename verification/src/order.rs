//! Stable ordering of lists.

use vstd::prelude::*;

verus! {

/// `s` with `x` put behind the last item that need not give way to it.
pub open spec fn insert_stable<T>(s: Seq<T>, x: T, before: spec_fn(T, T) -> bool) -> Seq<T>
    decreases s.len(),
{
    if s.len() == 0 || !before(x, s.last()) {
        s.push(x)
    } else {
        insert_stable(s.drop_last(), x, before).push(s.last())
    }
}

/// The items of `s`, each put behind those that came earlier and that it does
/// not come before.
pub open spec fn stable_sort<T>(s: Seq<T>, before: spec_fn(T, T) -> bool) -> Seq<T>
    decreases s.len(),
{
    if s.len() == 0 {
        Seq::empty()
    } else {
        insert_stable(stable_sort(s.drop_last(), before), s.last(), before)
    }
}

/// Whether `before` is a strict order in which "neither before the other" is an
/// equivalence.
pub open spec fn strict_weak_order<T>(before: spec_fn(T, T) -> bool) -> bool {
    &&& forall|a: T| !#[trigger] before(a, a)
    &&& forall|a: T, b: T, c: T| #[trigger]
        before(a, b) && #[trigger] before(b, c) ==> before(a, c)
    &&& forall|a: T, b: T, c: T|
        !#[trigger] before(a, b) && !#[trigger] before(b, c) ==> !before(a, c)
}

/// Whether no item of `s` comes before one that precedes it.
pub open spec fn in_order<T>(s: Seq<T>, before: spec_fn(T, T) -> bool) -> bool {
    forall|i: int, j: int| 0 <= i < j < s.len() ==> !before(#[trigger] s[j], #[trigger] s[i])
}

proof fn lemma_insert_at<T>(s: Seq<T>, x: T, before: spec_fn(T, T) -> bool, p: int)
    requires
        0 <= p <= s.len(),
        forall|k: int| p <= k < s.len() ==> before(x, #[trigger] s[k]),
        p > 0 ==> !before(x, s[p - 1]),
    ensures
        insert_stable(s, x, before) == s.insert(p, x),
    decreases s.len(),
{
    if p < s.len() {
        lemma_insert_at(s.drop_last(), x, before, p);
        assert(s.drop_last().insert(p, x).push(s.last()) == s.insert(p, x));
    } else {
        assert(s.insert(p, x) == s.push(x));
    }
}

/// Where `insert_stable` puts the new item.
proof fn lemma_insert_position<T>(s: Seq<T>, x: T, before: spec_fn(T, T) -> bool) -> (p: int)
    ensures
        0 <= p <= s.len(),
        insert_stable(s, x, before) == s.insert(p, x),
        forall|k: int| p <= k < s.len() ==> before(x, #[trigger] s[k]),
        p > 0 ==> !before(x, s[p - 1]),
    decreases s.len(),
{
    if s.len() == 0 || !before(x, s.last()) {
        assert(s.insert(s.len() as int, x) == s.push(x));
        s.len() as int
    } else {
        let p = lemma_insert_position(s.drop_last(), x, before);
        assert(s.drop_last().insert(p, x).push(s.last()) == s.insert(p, x));
        assert forall|k: int| p <= k < s.len() implies before(x, #[trigger] s[k]) by {
            if k < s.len() - 1 {
                assert(s.drop_last()[k] == s[k]);
            }
        }
        p
    }
}

/// The items of `items` in the order of `model`, which `before` computes;
/// items that neither comes before the other keep their order.
pub(crate) fn sorted_by<T, F: Fn(&T, &T) -> bool>(
    items: Vec<T>,
    before: F,
    Ghost(model): Ghost<spec_fn(T, T) -> bool>,
) -> (r: Vec<T>)
    requires
        forall|a: &T, b: &T| call_requires(before, (a, b)),
        forall|a: &T, b: &T, v: bool| call_ensures(before, (a, b), v) ==> v == model(*a, *b),
    ensures
        r@ == stable_sort(items@, model),
{
    let ghost all = items@;
    let mut out: Vec<T> = Vec::new();
    for x in it: items
        invariant
            it.seq() == all,
            out@ == stable_sort(all.take(it.index()), model),
            forall|a: &T, b: &T| call_requires(before, (a, b)),
            forall|a: &T, b: &T, v: bool| call_ensures(before, (a, b), v) ==> v == model(*a, *b),
    {
        let mut p: usize = out.len();
        while p > 0 && before(&x, &out[p - 1])
            invariant
                p <= out@.len(),
                forall|k: int| p <= k < out@.len() ==> model(x, #[trigger] out@[k]),
                forall|a: &T, b: &T| call_requires(before, (a, b)),
                forall|a: &T, b: &T, v: bool|
                    call_ensures(before, (a, b), v) ==> v == model(*a, *b),
            decreases p,
        {
            p -= 1;
        }
        proof {
            lemma_insert_at(out@, x, model, p as int);
            let n = it.index();
            assert(all.take(n + 1).drop_last() == all.take(n));
            assert(all.take(n + 1).last() == x);
        }
        out.insert(p, x);
    }
    assert(all.take(all.len() as int) == all);
    out
}

/// A stable sort puts its items in order.
pub proof fn law_sort_orders<T>(s: Seq<T>, before: spec_fn(T, T) -> bool)
    requires
        strict_weak_order(before),
    ensures
        in_order(stable_sort(s, before), before),
    decreases s.len(),
{
    if s.len() > 0 {
        let t = stable_sort(s.drop_last(), before);
        let x = s.last();
        law_sort_orders(s.drop_last(), before);
        let p = lemma_insert_position(t, x, before);
        let r = t.insert(p, x);
        assert forall|i: int, j: int| 0 <= i < j < r.len() implies !before(
            #[trigger] r[j],
            #[trigger] r[i],
        ) by {
            if j == p {
                if i < p - 1 {
                    assert(!before(t[p - 1], t[i]));
                }
            } else if i == p {
                assert(before(x, t[j - 1]));
                if before(t[j - 1], x) {
                    assert(before(x, x));
                }
            } else {
                let a = if i < p { i } else { i - 1 };
                let b = if j < p { j } else { j - 1 };
                assert(!before(t[b], t[a]));
            }
        }
    }
}

/// A stable sort keeps every item, as often as it occurs.
pub proof fn law_sort_keeps_items<T>(s: Seq<T>, before: spec_fn(T, T) -> bool)
    ensures
        stable_sort(s, before).len() == s.len(),
        stable_sort(s, before).to_multiset() == s.to_multiset(),
    decreases s.len(),
{
    broadcast use vstd::seq_lib::group_to_multiset_ensures;

    if s.len() > 0 {
        let t = stable_sort(s.drop_last(), before);
        let x = s.last();
        law_sort_keeps_items(s.drop_last(), before);
        let p = lemma_insert_position(t, x, before);
        assert(t.insert(p, x).remove(p) == t);
        let r = t.insert(p, x);
        assert(r.remove(p).to_multiset() == r.to_multiset().remove(r[p]));
        assert(r.contains(r[p]));
        assert(r.to_multiset() =~= t.to_multiset().insert(x));
        assert(s == s.drop_last().push(x));
    } else {
        assert(stable_sort(s, before) == s);
    }
}

proof fn lemma_filter_none<T>(s: Seq<T>, class: spec_fn(T) -> bool)
    requires
        forall|k: int| 0 <= k < s.len() ==> !class(#[trigger] s[k]),
    ensures
        s.filter(class) == Seq::<T>::empty(),
    decreases s.len(),
{
    reveal(Seq::filter);
    if s.len() > 0 {
        lemma_filter_none(s.drop_last(), class);
    }
}

/// A stable sort keeps the order of items of which neither comes before the
/// other.
pub proof fn law_sort_is_stable<T>(
    s: Seq<T>,
    before: spec_fn(T, T) -> bool,
    class: spec_fn(T) -> bool,
)
    requires
        forall|a: T, b: T| #[trigger] class(a) && #[trigger] class(b) ==> !before(a, b),
    ensures
        stable_sort(s, before).filter(class) == s.filter(class),
    decreases s.len(),
{
    reveal(Seq::filter);
    if s.len() > 0 {
        let t = stable_sort(s.drop_last(), before);
        let x = s.last();
        law_sort_is_stable(s.drop_last(), before, class);
        let p = lemma_insert_position(t, x, before);
        let head = t.take(p);
        let tail = t.skip(p);
        assert(t == head + tail);
        assert(t.insert(p, x) == head.push(x) + tail);
        Seq::filter_distributes_over_add(head, tail, class);
        Seq::filter_distributes_over_add(head.push(x), tail, class);
        assert(head.push(x).drop_last() == head);
        if class(x) {
            assert forall|k: int| 0 <= k < tail.len() implies !class(#[trigger] tail[k]) by {
                assert(before(x, t[p + k]));
            }
            lemma_filter_none(tail, class);
        }
    }
}

proof fn lemma_insert_map<A, B>(
    s: Seq<A>,
    x: A,
    f: spec_fn(A) -> B,
    before_a: spec_fn(A, A) -> bool,
    before_b: spec_fn(B, B) -> bool,
)
    requires
        forall|a: A, b: A| #[trigger] before_a(a, b) == before_b(f(a), f(b)),
    ensures
        insert_stable(s, x, before_a).map_values(f) == insert_stable(
            s.map_values(f),
            f(x),
            before_b,
        ),
    decreases s.len(),
{
    let t = s.map_values(f);
    if s.len() == 0 || !before_a(x, s.last()) {
        assert(s.push(x).map_values(f) == t.push(f(x)));
    } else {
        lemma_insert_map(s.drop_last(), x, f, before_a, before_b);
        assert(s.drop_last().map_values(f) == t.drop_last());
        let r = insert_stable(s.drop_last(), x, before_a);
        assert(r.push(s.last()).map_values(f) == r.map_values(f).push(f(s.last())));
    }
}

/// Sorting goes through a view of the items that fixes their order.
pub proof fn lemma_sort_map<A, B>(
    s: Seq<A>,
    f: spec_fn(A) -> B,
    before_a: spec_fn(A, A) -> bool,
    before_b: spec_fn(B, B) -> bool,
)
    requires
        forall|a: A, b: A| #[trigger] before_a(a, b) == before_b(f(a), f(b)),
    ensures
        stable_sort(s, before_a).map_values(f) == stable_sort(s.map_values(f), before_b),
    decreases s.len(),
{
    if s.len() > 0 {
        lemma_sort_map(s.drop_last(), f, before_a, before_b);
        lemma_insert_map(stable_sort(s.drop_last(), before_a), s.last(), f, before_a, before_b);
        assert(s.drop_last().map_values(f) == s.map_values(f).drop_last());
    } else {
        assert(stable_sort(s, before_a).map_values(f) == stable_sort(s.map_values(f), before_b));
    }
}

/// Where an item that was not left out comes from.
pub proof fn lemma_filter_source<T>(s: Seq<T>, keep: spec_fn(T) -> bool, i: int) -> (k: int)
    requires
        0 <= i < s.filter(keep).len(),
    ensures
        0 <= k < s.len(),
        s[k] == s.filter(keep)[i],
    decreases s.len(),
{
    reveal(Seq::filter);
    let t = s.drop_last();
    if i < t.filter(keep).len() {
        lemma_filter_source(t, keep, i)
    } else {
        s.len() - 1
    }
}

/// Leaving items out keeps the others in order.
pub proof fn lemma_filter_keeps_order<T>(
    s: Seq<T>,
    before: spec_fn(T, T) -> bool,
    keep: spec_fn(T) -> bool,
)
    requires
        in_order(s, before),
    ensures
        in_order(s.filter(keep), before),
    decreases s.len(),
{
    reveal(Seq::filter);
    if s.len() > 0 {
        let t = s.drop_last();
        assert forall|i: int, j: int| 0 <= i < j < t.len() implies !before(
            #[trigger] t[j],
            #[trigger] t[i],
        ) by {
            assert(!before(s[j], s[i]));
        }
        lemma_filter_keeps_order(t, before, keep);
        let r = s.filter(keep);
        let q = t.filter(keep);
        assert forall|i: int, j: int| 0 <= i < j < r.len() implies !before(
            #[trigger] r[j],
            #[trigger] r[i],
        ) by {
            if j < q.len() {
                assert(!before(q[j], q[i]));
            } else {
                assert(r[j] == s.last());
                assert(r[i] == q[i]);
                let k = lemma_filter_source(t, keep, i);
                assert(!before(s[s.len() - 1], s[k]));
            }
        }
    }
}

} // verus!
