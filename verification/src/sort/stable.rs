//! Stability: a sort keeps the elements that its order cannot tell apart in
//! the order in which they came.
use vstd::prelude::*;
use crate::sort::key::{SortKey, KeyFn, key_int};
use crate::sort::order::{ElemOrder, ByKey, by_key, by_two_keys};
use crate::sort::bin_layout::BinLayout;
use crate::sort::spread::{bin_items, bins_prefix, bin_bounds, keys_in_range, in_bin};

verus! {

/// The elements that `o` cannot tell apart from `x`.
pub open spec fn order_class<T, O: ElemOrder<T>>(o: O, x: T) -> spec_fn(T) -> bool {
    |y: T| o.le(x, y) && o.le(y, x)
}

/// `t` holds, for every class of elements that `o` cannot tell apart, the
/// elements of that class in `s` in their order in `s`.
pub open spec fn keeps_order<T, O: ElemOrder<T>>(o: O, s: Seq<T>, t: Seq<T>) -> bool {
    forall|x: T| #[trigger] t.filter(order_class(o, x)) == s.filter(order_class(o, x))
}

/// The elements whose key equals that of `x`.
pub open spec fn key_class<T, K: SortKey, F: Fn(&T) -> K>(key: F, x: T) -> spec_fn(T) -> bool {
    |y: T| key_int(key, y) == key_int(key, x)
}

/// `t` holds, for every key, the elements of `s` with that key in their order in `s`.
pub open spec fn same_key_order<T, K: SortKey, F: Fn(&T) -> K>(key: F, s: Seq<T>, t: Seq<T>) -> bool {
    forall|x: T| #[trigger] t.filter(key_class(key, x)) == s.filter(key_class(key, x))
}

/// For the order of one key, its classes are the elements of one key.
pub proof fn lemma_by_key_classes<T, K: SortKey, F: KeyFn<T, K>>(key: F, s: Seq<T>, t: Seq<T>)
    requires
        keeps_order(by_key::<K, F>(key), s, t),
    ensures
        same_key_order(key, s, t),
{
    assert forall|x: T| #[trigger] t.filter(key_class(key, x)) == s.filter(key_class(key, x)) by {
        let o = by_key::<K, F>(key);
        assert(order_class(o, x) =~= key_class(key, x));
        assert(t.filter(order_class(o, x)) == s.filter(order_class(o, x)));
    }
}

/// Keeping the order within classes carries over to pieces laid end to end.
pub proof fn lemma_same_key_order_concat<T, K: SortKey, F: Fn(&T) -> K>(key: F, s1: Seq<T>, s2: Seq<T>, t1: Seq<T>, t2: Seq<T>)
    requires
        same_key_order(key, s1, t1),
        same_key_order(key, s2, t2),
    ensures
        same_key_order(key, s1 + s2, t1 + t2),
{
    assert forall|x: T| #[trigger] (t1 + t2).filter(key_class(key, x)) == (s1 + s2).filter(key_class(key, x)) by {
        Seq::filter_distributes_over_add(t1, t2, key_class(key, x));
        Seq::filter_distributes_over_add(s1, s2, key_class(key, x));
        assert(t1.filter(key_class(key, x)) == s1.filter(key_class(key, x)));
        assert(t2.filter(key_class(key, x)) == s2.filter(key_class(key, x)));
    }
}

/// The same, for any order.
pub proof fn lemma_keeps_order_concat<T, O: ElemOrder<T>>(o: O, s1: Seq<T>, s2: Seq<T>, t1: Seq<T>, t2: Seq<T>)
    requires
        keeps_order(o, s1, t1),
        keeps_order(o, s2, t2),
    ensures
        keeps_order(o, s1 + s2, t1 + t2),
{
    assert forall|x: T| #[trigger] (t1 + t2).filter(order_class(o, x)) == (s1 + s2).filter(order_class(o, x)) by {
        Seq::filter_distributes_over_add(t1, t2, order_class(o, x));
        Seq::filter_distributes_over_add(s1, s2, order_class(o, x));
        assert(t1.filter(order_class(o, x)) == s1.filter(order_class(o, x)));
        assert(t2.filter(order_class(o, x)) == s2.filter(order_class(o, x)));
    }
}

/// Swapping two neighbours that do not both pass `p` leaves what passes `p`.
pub proof fn lemma_filter_swap<T>(s: Seq<T>, i: int, p: spec_fn(T) -> bool)
    requires
        0 <= i,
        i + 1 < s.len(),
        !(p(s[i]) && p(s[i + 1])),
    ensures
        s.update(i, s[i + 1]).update(i + 1, s[i]).filter(p) == s.filter(p),
{
    let t = s.update(i, s[i + 1]).update(i + 1, s[i]);
    let pre = s.subrange(0, i);
    let post = s.subrange(i + 2, s.len() as int);
    let ab = seq![s[i], s[i + 1]];
    let ba = seq![s[i + 1], s[i]];
    assert(s =~= pre + ab + post);
    assert(t =~= pre + ba + post);
    Seq::filter_distributes_over_add(pre + ab, post, p);
    Seq::filter_distributes_over_add(pre, ab, p);
    Seq::filter_distributes_over_add(pre + ba, post, p);
    Seq::filter_distributes_over_add(pre, ba, p);
    reveal_with_fuel(Seq::filter, 3);
    assert(ab.drop_last() =~= seq![s[i]]);
    assert(ba.drop_last() =~= seq![s[i + 1]]);
    assert(seq![s[i]].drop_last() =~= Seq::<T>::empty());
    assert(seq![s[i + 1]].drop_last() =~= Seq::<T>::empty());
    assert(ab.filter(p) =~= ba.filter(p));
}

/// Swapping two neighbours that `o` can tell apart keeps the order within classes.
pub proof fn lemma_swap_keeps_order<T, O: ElemOrder<T>>(o: O, s: Seq<T>, i: int)
    requires
        o.valid(),
        0 <= i,
        i + 1 < s.len(),
        !o.le(s[i], s[i + 1]),
    ensures
        keeps_order(o, s, s.update(i, s[i + 1]).update(i + 1, s[i])),
{
    assert forall|x: T| #[trigger] s.update(i, s[i + 1]).update(i + 1, s[i]).filter(order_class(o, x)) == s.filter(order_class(o, x)) by {
        let p = order_class(o, x);
        if p(s[i]) && p(s[i + 1]) {
            o.lemma_transitive(s[i], x, s[i + 1]);
        }
        lemma_filter_swap(s, i, p);
    }
}

/// Filtering by bin and then by `p`, whose elements all have key `kx`: what
/// passes `p` when `kx` is in that bin, else nothing.
pub proof fn lemma_bin_items_filter<T, K: SortKey, F: Fn(&T) -> K>(layout: BinLayout<K>, key: F, s: Seq<T>, b: int, p: spec_fn(T) -> bool, kx: int)
    requires
        forall|y: T| #[trigger] p(y) ==> key_int(key, y) == kx,
    ensures
        bin_items(layout, key, s, b).filter(p) == if layout.bin_of(kx) == b { s.filter(p) } else { Seq::<T>::empty() },
    decreases s.len(),
{
    reveal(Seq::filter);
    if s.len() > 0 {
        lemma_bin_items_filter(layout, key, s.drop_last(), b, p, kx);
        let y = s.last();
        let items = bin_items(layout, key, s, b);
        let rest = bin_items(layout, key, s.drop_last(), b);
        assert(items == if in_bin(layout, key, b)(y) { rest.push(y) } else { rest });
        if in_bin(layout, key, b)(y) {
            assert(rest.push(y).drop_last() =~= rest);
        }
    }
}

/// The bins below `c`, laid end to end, filtered by such a `p`.
pub proof fn lemma_bins_prefix_filter<T, K: SortKey, F: Fn(&T) -> K>(layout: BinLayout<K>, key: F, s: Seq<T>, c: int, p: spec_fn(T) -> bool, kx: int)
    requires
        forall|y: T| #[trigger] p(y) ==> key_int(key, y) == kx,
    ensures
        bins_prefix(layout, key, s, c).filter(p)
            == if 0 <= layout.bin_of(kx) < c { s.filter(p) } else { Seq::<T>::empty() },
    decreases c,
{
    if c <= 0 {
        reveal(Seq::filter);
    } else {
        lemma_bins_prefix_filter(layout, key, s, c - 1, p, kx);
        lemma_bin_items_filter(layout, key, s, c - 1, p, kx);
        Seq::filter_distributes_over_add(bins_prefix(layout, key, s, c - 1), bin_items(layout, key, s, c - 1), p);
        if 0 <= layout.bin_of(kx) < c - 1 {
            assert(s.filter(p) + Seq::<T>::empty() =~= s.filter(p));
        } else if layout.bin_of(kx) == c - 1 {
            assert(Seq::<T>::empty() + s.filter(p) =~= s.filter(p));
        } else {
            assert(Seq::<T>::empty() + Seq::<T>::empty() =~= Seq::<T>::empty());
        }
    }
}

/// Distributing `s` into bins keeps, in order, what passes such a `p`.
pub proof fn lemma_bins_prefix_keeps_filter<T, K: SortKey, F: Fn(&T) -> K>(layout: BinLayout<K>, key: F, s: Seq<T>, p: spec_fn(T) -> bool, kx: int)
    requires
        keys_in_range(layout, key, s),
        forall|y: T| #[trigger] p(y) ==> key_int(key, y) == kx,
    ensures
        bins_prefix(layout, key, s, layout.bin_count()).filter(p) == s.filter(p),
{
    lemma_bins_prefix_filter(layout, key, s, layout.bin_count(), p, kx);
    if !(0 <= layout.bin_of(kx) < layout.bin_count()) {
        let f = s.filter(p);
        if f.len() > 0 {
            s.lemma_filter_pred(p, 0);
            s.lemma_filter_contains_rev(p, f[0]);
            let i = choose|i: int| 0 <= i < s.len() && s[i] == f[0];
            assert(layout.in_range(key_int(key, s[i])));
            vstd::arithmetic::power2::lemma_pow2_pos(layout.power as nat);
            vstd::arithmetic::div_mod::lemma_div_pos_is_pos(
                key_int(key, s[i]) - layout.min_key.key_value(),
                vstd::arithmetic::power2::pow2(layout.power as nat) as int,
            );
        }
        assert(f =~= Seq::<T>::empty());
    }
}

/// Distributing `s` into bins keeps the elements of each key in order.
pub proof fn lemma_bins_prefix_same_key_order<T, K: SortKey, F: Fn(&T) -> K>(layout: BinLayout<K>, key: F, s: Seq<T>)
    requires
        keys_in_range(layout, key, s),
    ensures
        same_key_order(key, s, bins_prefix(layout, key, s, layout.bin_count())),
{
    assert forall|x: T| #[trigger] bins_prefix(layout, key, s, layout.bin_count()).filter(key_class(key, x))
        == s.filter(key_class(key, x)) by {
        lemma_bins_prefix_keeps_filter(layout, key, s, key_class(key, x), key_int(key, x));
    }
}

/// Bins laid end to end at `bounds` make up the bins below `c`.
pub proof fn lemma_laid_bins_prefix<T, K: SortKey, F: Fn(&T) -> K>(
    layout: BinLayout<K>,
    key: F,
    s: Seq<T>,
    out: Seq<T>,
    bounds: Seq<usize>,
    lo: int,
    c: int,
)
    requires
        0 <= lo,
        0 <= c <= layout.bin_count(),
        bin_bounds(layout, key, s, bounds, lo),
        bounds[layout.bin_count()] <= out.len(),
        forall|d: int| 0 <= d < layout.bin_count() ==> #[trigger] out.subrange(bounds[d] as int, bounds[d + 1] as int)
            == bin_items(layout, key, s, d),
    ensures
        out.subrange(lo, bounds[c] as int) == bins_prefix(layout, key, s, c),
    decreases c,
{
    if c == 0 {
        assert(bounds[0] == lo + bins_prefix(layout, key, s, 0).len());
        assert(out.subrange(lo, lo) =~= bins_prefix(layout, key, s, 0));
    } else {
        lemma_laid_bins_prefix(layout, key, s, out, bounds, lo, c - 1);
        assert(bounds[c - 1] <= bounds[c] <= bounds[layout.bin_count()]);
        assert(bounds[0] <= bounds[c - 1]);
        assert(bounds[0] == lo + bins_prefix(layout, key, s, 0).len());
        let d = c - 1;
        assert(out.subrange(bounds[d] as int, bounds[d + 1] as int) == bin_items(layout, key, s, d));
        assert(d + 1 == c);
        assert(bins_prefix(layout, key, s, c) == bins_prefix(layout, key, s, c - 1) + bin_items(layout, key, s, c - 1));
        assert(out.subrange(lo, bounds[c] as int) =~= out.subrange(lo, bounds[c - 1] as int)
            + out.subrange(bounds[c - 1] as int, bounds[c] as int));
    }
}

/// Two sequences of the same length, each keeping the order of `s` within
/// every class of `cls`, where the elements at each place are in the same
/// class, are equal.
pub proof fn lemma_same_classes_equal<T>(cls: spec_fn(T) -> spec_fn(T) -> bool, s: Seq<T>, t1: Seq<T>, t2: Seq<T>)
    requires
        t1.len() == t2.len(),
        forall|x: T| #[trigger] cls(x)(x),
        forall|p: int, k: int| 0 <= p < t1.len() && 0 <= k < t1.len() ==>
            #[trigger] cls(t1[p])(t1[k]) == cls(t1[p])(t2[k]),
        forall|p: int| 0 <= p < t1.len() ==> #[trigger] cls(t1[p]) == cls(t2[p]),
        forall|x: T| #[trigger] t1.filter(cls(x)) == s.filter(cls(x)),
        forall|x: T| #[trigger] t2.filter(cls(x)) == s.filter(cls(x)),
    ensures
        t1 == t2,
{
    assert forall|p: int| 0 <= p < t1.len() implies t1[p] == t2[p] by {
        let f = cls(t1[p]);
        assert(f(t1[p]));
        assert(f == cls(t2[p]));
        assert(f(t2[p]));
        lemma_filter_count_equal(t1, t2, p, f);
        lemma_filter_at(t1, p, f);
        lemma_filter_at(t2, p, f);
        assert(t1.filter(f) == s.filter(f));
        assert(t2.filter(f) == s.filter(f));
    }
    assert(t1 =~= t2);
}

/// Where `t[p]` passes `f`, it is the element of `t.filter(f)` right after
/// those taken from before `p`.
pub proof fn lemma_filter_at<T>(t: Seq<T>, p: int, f: spec_fn(T) -> bool)
    requires
        0 <= p < t.len(),
        f(t[p]),
    ensures
        t.take(p).filter(f).len() < t.filter(f).len(),
        t.filter(f)[t.take(p).filter(f).len() as int] == t[p],
{
    assert(t =~= t.take(p) + seq![t[p]] + t.skip(p + 1));
    Seq::filter_distributes_over_add(t.take(p) + seq![t[p]], t.skip(p + 1), f);
    Seq::filter_distributes_over_add(t.take(p), seq![t[p]], f);
    reveal_with_fuel(Seq::filter, 2);
    assert(seq![t[p]].drop_last() =~= Seq::<T>::empty());
    assert(seq![t[p]].filter(f) =~= seq![t[p]]);
}

/// Sequences that pass `f` at the same places pass it equally often before
/// each place.
pub proof fn lemma_filter_count_equal<T>(t1: Seq<T>, t2: Seq<T>, p: int, f: spec_fn(T) -> bool)
    requires
        t1.len() == t2.len(),
        0 <= p <= t1.len(),
        forall|k: int| 0 <= k < t1.len() ==> f(#[trigger] t1[k]) == f(t2[k]),
    ensures
        t1.take(p).filter(f).len() == t2.take(p).filter(f).len(),
    decreases p,
{
    reveal(Seq::filter);
    if p > 0 {
        lemma_filter_count_equal(t1, t2, p - 1, f);
        assert(t1.take(p).drop_last() =~= t1.take(p - 1));
        assert(t2.take(p).drop_last() =~= t2.take(p - 1));
        assert(t1.take(p).last() == t1[p - 1]);
        assert(t2.take(p).last() == t2[p - 1]);
        assert(f(t1[p - 1]) == f(t2[p - 1]));
    }
}

/// Two sequences with the same key at every place, each keeping the order of
/// `s` within every key, are equal.
pub proof fn lemma_same_keys_same_order_equal<T, K: SortKey, F: Fn(&T) -> K>(key: F, s: Seq<T>, t1: Seq<T>, t2: Seq<T>)
    requires
        t1.len() == t2.len(),
        forall|k: int| 0 <= k < t1.len() ==> key_int(key, #[trigger] t1[k]) == key_int(key, t2[k]),
        same_key_order(key, s, t1),
        same_key_order(key, s, t2),
    ensures
        t1 == t2,
{
    let cls = |x: T| key_class(key, x);
    assert forall|p: int| 0 <= p < t1.len() implies #[trigger] cls(t1[p]) == cls(t2[p]) by {
        assert(key_class(key, t1[p]) =~= key_class(key, t2[p]));
    }
    assert forall|x: T| #[trigger] t1.filter(cls(x)) == s.filter(cls(x)) by {
        assert(t1.filter(key_class(key, x)) == s.filter(key_class(key, x)));
    }
    assert forall|x: T| #[trigger] t2.filter(cls(x)) == s.filter(cls(x)) by {
        assert(t2.filter(key_class(key, x)) == s.filter(key_class(key, x)));
    }
    lemma_same_classes_equal(cls, s, t1, t2);
}

/// Keeping the order within keys chains.
pub proof fn lemma_same_key_order_trans<T, K: SortKey, F: Fn(&T) -> K>(key: F, a: Seq<T>, b: Seq<T>, c: Seq<T>)
    requires
        same_key_order(key, a, b),
        same_key_order(key, b, c),
    ensures
        same_key_order(key, a, c),
{
    assert forall|x: T| #[trigger] c.filter(key_class(key, x)) == a.filter(key_class(key, x)) by {
        assert(c.filter(key_class(key, x)) == b.filter(key_class(key, x)));
        assert(b.filter(key_class(key, x)) == a.filter(key_class(key, x)));
    }
}

/// Every sequence keeps its own order.
pub proof fn lemma_same_key_order_refl<T, K: SortKey, F: Fn(&T) -> K>(key: F, a: Seq<T>, b: Seq<T>)
    requires
        a == b,
    ensures
        same_key_order(key, a, b),
{
}

/// The elements whose two keys equal those of `x`.
pub open spec fn keys_class<T, K1: SortKey, K2: SortKey, F1: Fn(&T) -> K1, F2: Fn(&T) -> K2>(key1: F1, key2: F2, x: T) -> spec_fn(T) -> bool {
    |y: T| key_int(key1, y) == key_int(key1, x) && key_int(key2, y) == key_int(key2, x)
}

/// `t` holds, for every pair of keys, the elements of `s` with those keys in
/// their order in `s`.
pub open spec fn same_keys_order<T, K1: SortKey, K2: SortKey, F1: Fn(&T) -> K1, F2: Fn(&T) -> K2>(key1: F1, key2: F2, s: Seq<T>, t: Seq<T>) -> bool {
    forall|x: T| #[trigger] t.filter(keys_class(key1, key2, x)) == s.filter(keys_class(key1, key2, x))
}

/// For the order of two keys, its classes are the elements of one pair of keys.
pub proof fn lemma_by_two_keys_classes<T, K1: SortKey, K2: SortKey, F1: KeyFn<T, K1>, F2: KeyFn<T, K2>>(key1: F1, key2: F2, s: Seq<T>, t: Seq<T>)
    requires
        keeps_order(by_two_keys::<K1, K2, F1, F2>(key1, key2), s, t),
    ensures
        same_keys_order(key1, key2, s, t),
{
    assert forall|x: T| #[trigger] t.filter(keys_class(key1, key2, x)) == s.filter(keys_class(key1, key2, x)) by {
        let o = by_two_keys::<K1, K2, F1, F2>(key1, key2);
        assert(order_class(o, x) =~= keys_class(key1, key2, x));
        assert(t.filter(order_class(o, x)) == s.filter(order_class(o, x)));
    }
}

/// Keeping the order within pairs of keys carries over to pieces laid end to end.
pub proof fn lemma_same_keys_order_concat<T, K1: SortKey, K2: SortKey, F1: Fn(&T) -> K1, F2: Fn(&T) -> K2>(
    key1: F1,
    key2: F2,
    s1: Seq<T>,
    s2: Seq<T>,
    t1: Seq<T>,
    t2: Seq<T>,
)
    requires
        same_keys_order(key1, key2, s1, t1),
        same_keys_order(key1, key2, s2, t2),
    ensures
        same_keys_order(key1, key2, s1 + s2, t1 + t2),
{
    assert forall|x: T| #[trigger] (t1 + t2).filter(keys_class(key1, key2, x)) == (s1 + s2).filter(keys_class(key1, key2, x)) by {
        Seq::filter_distributes_over_add(t1, t2, keys_class(key1, key2, x));
        Seq::filter_distributes_over_add(s1, s2, keys_class(key1, key2, x));
        assert(t1.filter(keys_class(key1, key2, x)) == s1.filter(keys_class(key1, key2, x)));
        assert(t2.filter(keys_class(key1, key2, x)) == s2.filter(keys_class(key1, key2, x)));
    }
}

/// Keeping the order within pairs of keys chains.
pub proof fn lemma_same_keys_order_trans<T, K1: SortKey, K2: SortKey, F1: Fn(&T) -> K1, F2: Fn(&T) -> K2>(
    key1: F1,
    key2: F2,
    a: Seq<T>,
    b: Seq<T>,
    c: Seq<T>,
)
    requires
        same_keys_order(key1, key2, a, b),
        same_keys_order(key1, key2, b, c),
    ensures
        same_keys_order(key1, key2, a, c),
{
    assert forall|x: T| #[trigger] c.filter(keys_class(key1, key2, x)) == a.filter(keys_class(key1, key2, x)) by {
        assert(c.filter(keys_class(key1, key2, x)) == b.filter(keys_class(key1, key2, x)));
        assert(b.filter(keys_class(key1, key2, x)) == a.filter(keys_class(key1, key2, x)));
    }
}

/// Distributing `s` into bins of its first key keeps the elements of each
/// pair of keys in order.
pub proof fn lemma_bins_prefix_same_keys_order<T, K1: SortKey, K2: SortKey, F1: Fn(&T) -> K1, F2: Fn(&T) -> K2>(
    layout: BinLayout<K1>,
    key1: F1,
    key2: F2,
    s: Seq<T>,
)
    requires
        keys_in_range(layout, key1, s),
    ensures
        same_keys_order(key1, key2, s, bins_prefix(layout, key1, s, layout.bin_count())),
{
    assert forall|x: T| #[trigger] bins_prefix(layout, key1, s, layout.bin_count()).filter(keys_class(key1, key2, x))
        == s.filter(keys_class(key1, key2, x)) by {
        lemma_bins_prefix_keeps_filter(layout, key1, s, keys_class(key1, key2, x), key_int(key1, x));
    }
}

/// Filters by predicates that agree on every element are equal.
pub proof fn lemma_filter_agree<T>(s: Seq<T>, p: spec_fn(T) -> bool, q: spec_fn(T) -> bool)
    requires
        forall|i: int| 0 <= i < s.len() ==> p(#[trigger] s[i]) == q(s[i]),
    ensures
        s.filter(p) == s.filter(q),
    decreases s.len(),
{
    reveal(Seq::filter);
    if s.len() > 0 {
        let t = s.drop_last();
        assert forall|i: int| 0 <= i < t.len() implies p(#[trigger] t[i]) == q(t[i]) by {
            assert(t[i] == s[i]);
        }
        lemma_filter_agree(t, p, q);
        assert(p(s[s.len() - 1]) == q(s[s.len() - 1]));
    }
}

/// Among elements of one first key, keeping the order of each second key
/// keeps the order of each pair of keys.
pub proof fn lemma_one_first_key_same_keys_order<T, K1: SortKey, K2: SortKey, F1: Fn(&T) -> K1, F2: Fn(&T) -> K2>(
    key1: F1,
    key2: F2,
    s: Seq<T>,
    t: Seq<T>,
    k1: int,
)
    requires
        forall|i: int| 0 <= i < s.len() ==> key_int(key1, #[trigger] s[i]) == k1,
        forall|i: int| 0 <= i < t.len() ==> key_int(key1, #[trigger] t[i]) == k1,
        same_key_order(key2, s, t),
    ensures
        same_keys_order(key1, key2, s, t),
{
    assert forall|x: T| #[trigger] t.filter(keys_class(key1, key2, x)) == s.filter(keys_class(key1, key2, x)) by {
        let p = keys_class(key1, key2, x);
        if key_int(key1, x) == k1 {
            lemma_filter_agree(s, p, key_class(key2, x));
            lemma_filter_agree(t, p, key_class(key2, x));
            assert(t.filter(key_class(key2, x)) == s.filter(key_class(key2, x)));
        } else {
            let never = |y: T| false;
            lemma_filter_agree(s, p, never);
            lemma_filter_agree(t, p, never);
            lemma_filter_never(s);
            lemma_filter_never(t);
        }
    }
}

/// Nothing passes a filter that nothing passes.
pub proof fn lemma_filter_never<T>(s: Seq<T>)
    ensures
        s.filter(|y: T| false) == Seq::<T>::empty(),
    decreases s.len(),
{
    reveal(Seq::filter);
    if s.len() > 0 {
        lemma_filter_never(s.drop_last());
    }
}

/// Two sequences with the same two keys at every place, each keeping the
/// order of `s` within every pair of keys, are equal.
pub proof fn lemma_same_two_keys_same_order_equal<T, K1: SortKey, K2: SortKey, F1: Fn(&T) -> K1, F2: Fn(&T) -> K2>(
    key1: F1,
    key2: F2,
    s: Seq<T>,
    t1: Seq<T>,
    t2: Seq<T>,
)
    requires
        t1.len() == t2.len(),
        forall|k: int| 0 <= k < t1.len() ==> key_int(key1, #[trigger] t1[k]) == key_int(key1, t2[k])
            && key_int(key2, t1[k]) == key_int(key2, t2[k]),
        same_keys_order(key1, key2, s, t1),
        same_keys_order(key1, key2, s, t2),
    ensures
        t1 == t2,
{
    let cls = |x: T| keys_class(key1, key2, x);
    assert forall|p: int| 0 <= p < t1.len() implies #[trigger] cls(t1[p]) == cls(t2[p]) by {
        assert(keys_class(key1, key2, t1[p]) =~= keys_class(key1, key2, t2[p]));
    }
    assert forall|x: T| #[trigger] t1.filter(cls(x)) == s.filter(cls(x)) by {
        assert(t1.filter(keys_class(key1, key2, x)) == s.filter(keys_class(key1, key2, x)));
    }
    assert forall|x: T| #[trigger] t2.filter(cls(x)) == s.filter(cls(x)) by {
        assert(t2.filter(keys_class(key1, key2, x)) == s.filter(keys_class(key1, key2, x)));
    }
    lemma_same_classes_equal(cls, s, t1, t2);
}

/// A reordering of elements that all have key `k` has only elements of key `k`.
pub proof fn lemma_permuted_one_key<T, K: SortKey, F: Fn(&T) -> K>(key: F, s: Seq<T>, t: Seq<T>, k: int)
    requires
        forall|i: int| 0 <= i < s.len() ==> key_int(key, #[trigger] s[i]) == k,
        t.to_multiset() == s.to_multiset(),
    ensures
        forall|i: int| 0 <= i < t.len() ==> key_int(key, #[trigger] t[i]) == k,
{
    broadcast use vstd::seq_lib::group_to_multiset_ensures;
    assert forall|i: int| 0 <= i < t.len() implies key_int(key, #[trigger] t[i]) == k by {
        assert(t.contains(t[i]));
        assert(t.to_multiset().count(t[i]) > 0);
        assert(s.to_multiset().count(t[i]) > 0);
        assert(s.contains(t[i]));
        let j = choose|j: int| 0 <= j < s.len() && s[j] == t[i];
        assert(key_int(key, s[j]) == k);
    }
}

} // verus!
