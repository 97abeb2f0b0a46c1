//! Orders on elements, sortedness, and a direct sort for short ranges.
use vstd::prelude::*;
use core::marker::PhantomData;
use crate::sort::key::{SortKey, KeyFn, key_fn_valid, key_int, key_of};
use crate::sort::stable::{keeps_order, order_class, lemma_swap_keeps_order};

verus! {

/// A total preorder on elements, with an executable test.
pub trait ElemOrder<T> {
    /// `a` may come before `b`.
    spec fn le(&self, a: T, b: T) -> bool;

    /// The executable test is usable.
    spec fn valid(&self) -> bool;

    proof fn lemma_total(&self, a: T, b: T)
        requires
            self.valid(),
        ensures
            self.le(a, b) || self.le(b, a),
    ;

    proof fn lemma_transitive(&self, a: T, b: T, c: T)
        requires
            self.valid(),
            self.le(a, b),
            self.le(b, c),
        ensures
            self.le(a, c),
    ;

    fn le_exec(&self, a: &T, b: &T) -> (r: bool)
        requires
            self.valid(),
        ensures
            r == self.le(*a, *b),
    ;
}

/// `s[lo..hi)` is sorted under `o`.
pub open spec fn sorted_range<T, O: ElemOrder<T>>(o: O, s: Seq<T>, lo: int, hi: int) -> bool {
    forall|i: int, j: int| lo <= i < j < hi ==> #[trigger] o.le(s[i], s[j])
}

/// Ascending by one key.
pub open spec fn sorted_by_one_key<T, K: SortKey, F: Fn(&T) -> K>(s: Seq<T>, key: F) -> bool {
    forall|i: int, j: int|
        0 <= i < j < s.len() ==> #[trigger] key_int(key, s[i]) <= #[trigger] key_int(key, s[j])
}

/// The order of one key.
pub struct ByKey<K, F> {
    pub key: F,
    pub marker: PhantomData<K>,
}

impl<T, K: SortKey, F: KeyFn<T, K>> ElemOrder<T> for ByKey<K, F> {
    open spec fn le(&self, a: T, b: T) -> bool {
        key_int(self.key, a) <= key_int(self.key, b)
    }

    open spec fn valid(&self) -> bool {
        key_fn_valid(self.key)
    }

    proof fn lemma_total(&self, a: T, b: T) {
    }

    proof fn lemma_transitive(&self, a: T, b: T, c: T) {
    }

    fn le_exec(&self, a: &T, b: &T) -> (r: bool) {
        let ka = key_of(self.key, a);
        let kb = key_of(self.key, b);
        !kb.key_lt(ka)
    }
}

/// Ascending by a first key, and by a second key among equal first keys.
pub open spec fn two_keys_le<T, K1: SortKey, K2: SortKey, F1: Fn(&T) -> K1, F2: Fn(&T) -> K2>(key1: F1, key2: F2, a: T, b: T) -> bool {
    ||| key_int(key1, a) < key_int(key1, b)
    ||| key_int(key1, a) == key_int(key1, b) && key_int(key2, a) <= key_int(key2, b)
}

/// Ascending by two keys, the first one major.
pub open spec fn sorted_by_two_keys<T, K1: SortKey, K2: SortKey, F1: Fn(&T) -> K1, F2: Fn(&T) -> K2>(s: Seq<T>, key1: F1, key2: F2) -> bool {
    forall|i: int, j: int| 0 <= i < j < s.len() ==> #[trigger] two_keys_le(key1, key2, s[i], s[j])
}

/// The order of two keys, the first one major.
pub struct ByTwoKeys<K1, K2, F1, F2> {
    pub key1: F1,
    pub key2: F2,
    pub marker: PhantomData<(K1, K2)>,
}

/// The order of two keys, for given key functions.
pub open spec fn by_two_keys<K1, K2, F1, F2>(key1: F1, key2: F2) -> ByTwoKeys<K1, K2, F1, F2> {
    ByTwoKeys { key1, key2, marker: PhantomData }
}

impl<T, K1: SortKey, K2: SortKey, F1: KeyFn<T, K1>, F2: KeyFn<T, K2>> ElemOrder<T> for ByTwoKeys<K1, K2, F1, F2> {
    open spec fn le(&self, a: T, b: T) -> bool {
        two_keys_le(self.key1, self.key2, a, b)
    }

    open spec fn valid(&self) -> bool {
        key_fn_valid(self.key1) && key_fn_valid(self.key2)
    }

    proof fn lemma_total(&self, a: T, b: T) {
    }

    proof fn lemma_transitive(&self, a: T, b: T, c: T) {
    }

    fn le_exec(&self, a: &T, b: &T) -> (r: bool) {
        let a1 = key_of(self.key1, a);
        let b1 = key_of(self.key1, b);
        if a1.key_lt(b1) {
            return true;
        }
        if b1.key_lt(a1) {
            return false;
        }
        let a2 = key_of(self.key2, a);
        let b2 = key_of(self.key2, b);
        !b2.key_lt(a2)
    }
}

/// `g` is reflexive-total and transitive: a total preorder given as "may come before".
pub open spec fn is_total_le<T>(g: spec_fn(T, T) -> bool) -> bool {
    &&& forall|a: T, b: T| #[trigger] g(a, b) || g(b, a)
    &&& forall|a: T, b: T, c: T| #[trigger] g(a, b) && #[trigger] g(b, c) ==> g(a, c)
}

/// `le` can be called on any two elements and answers `g`.
pub open spec fn le_fn_is<T, L: Fn(&T, &T) -> bool>(le: L, g: spec_fn(T, T) -> bool) -> bool {
    &&& forall|a: T, b: T| #[trigger] le.requires((&a, &b))
    &&& forall|a: T, b: T, r: bool| #[trigger] le.ensures((&a, &b), r) ==> r == g(a, b)
}

/// Ascending by a key, and by `g` among equal keys.
pub open spec fn key_then_le<T, K: SortKey, F: Fn(&T) -> K>(key: F, g: spec_fn(T, T) -> bool, a: T, b: T) -> bool {
    ||| key_int(key, a) < key_int(key, b)
    ||| key_int(key, a) == key_int(key, b) && g(a, b)
}

/// Ascending by two keys, and by `g` among elements equal in both.
pub open spec fn two_keys_then_le<T, K1: SortKey, K2: SortKey, F1: Fn(&T) -> K1, F2: Fn(&T) -> K2>(
    key1: F1,
    key2: F2,
    g: spec_fn(T, T) -> bool,
    a: T,
    b: T,
) -> bool {
    ||| key_int(key1, a) < key_int(key1, b)
    ||| key_int(key1, a) == key_int(key1, b) && key_then_le(key2, g, a, b)
}

/// The order `g`, tested by `tie`.
#[verifier::reject_recursive_types(T)]
pub struct ByTie<T, L> {
    pub tie: L,
    pub order: Ghost<spec_fn(T, T) -> bool>,
}

impl<T, L: Fn(&T, &T) -> bool + Copy> ElemOrder<T> for ByTie<T, L> {
    open spec fn le(&self, a: T, b: T) -> bool {
        (self.order@)(a, b)
    }

    open spec fn valid(&self) -> bool {
        le_fn_is(self.tie, self.order@) && is_total_le(self.order@)
    }

    proof fn lemma_total(&self, a: T, b: T) {
    }

    proof fn lemma_transitive(&self, a: T, b: T, c: T) {
    }

    fn le_exec(&self, a: &T, b: &T) -> (r: bool) {
        (self.tie)(a, b)
    }
}

/// A key, then the order `g` tested by `tie`.
#[verifier::reject_recursive_types(T)]
pub struct ByKeyThen<T, K, F, L> {
    pub key: F,
    pub tie: L,
    pub order: Ghost<spec_fn(T, T) -> bool>,
    pub marker: PhantomData<K>,
}

impl<T, K: SortKey, F: KeyFn<T, K>, L: Fn(&T, &T) -> bool + Copy> ElemOrder<T> for ByKeyThen<T, K, F, L> {
    open spec fn le(&self, a: T, b: T) -> bool {
        key_then_le(self.key, self.order@, a, b)
    }

    open spec fn valid(&self) -> bool {
        key_fn_valid(self.key) && le_fn_is(self.tie, self.order@) && is_total_le(self.order@)
    }

    proof fn lemma_total(&self, a: T, b: T) {
    }

    proof fn lemma_transitive(&self, a: T, b: T, c: T) {
    }

    fn le_exec(&self, a: &T, b: &T) -> (r: bool) {
        let ka = key_of(self.key, a);
        let kb = key_of(self.key, b);
        if ka.key_lt(kb) {
            return true;
        }
        if kb.key_lt(ka) {
            return false;
        }
        (self.tie)(a, b)
    }
}

/// Two keys, then the order `g` tested by `tie`.
#[verifier::reject_recursive_types(T)]
pub struct ByTwoKeysThen<T, K1, K2, F1, F2, L> {
    pub key1: F1,
    pub key2: F2,
    pub tie: L,
    pub order: Ghost<spec_fn(T, T) -> bool>,
    pub marker: PhantomData<(K1, K2)>,
}

impl<T, K1: SortKey, K2: SortKey, F1: KeyFn<T, K1>, F2: KeyFn<T, K2>, L: Fn(&T, &T) -> bool + Copy> ElemOrder<T> for ByTwoKeysThen<T, K1, K2, F1, F2, L> {
    open spec fn le(&self, a: T, b: T) -> bool {
        two_keys_then_le(self.key1, self.key2, self.order@, a, b)
    }

    open spec fn valid(&self) -> bool {
        key_fn_valid(self.key1) && key_fn_valid(self.key2) && le_fn_is(self.tie, self.order@) && is_total_le(self.order@)
    }

    proof fn lemma_total(&self, a: T, b: T) {
    }

    proof fn lemma_transitive(&self, a: T, b: T, c: T) {
    }

    fn le_exec(&self, a: &T, b: &T) -> (r: bool) {
        let a1 = key_of(self.key1, a);
        let b1 = key_of(self.key1, b);
        if a1.key_lt(b1) {
            return true;
        }
        if b1.key_lt(a1) {
            return false;
        }
        let a2 = key_of(self.key2, a);
        let b2 = key_of(self.key2, b);
        if a2.key_lt(b2) {
            return true;
        }
        if b2.key_lt(a2) {
            return false;
        }
        (self.tie)(a, b)
    }
}

/// The order of one key, for a given key function.
pub open spec fn by_key<K, F>(key: F) -> ByKey<K, F> {
    ByKey { key, marker: PhantomData }
}

/// `data` or `scratch`, whichever `to_scratch` names as the place of a result.
pub open spec fn pick<T>(to_scratch: bool, data: Seq<T>, scratch: Seq<T>) -> Seq<T> {
    if to_scratch {
        scratch
    } else {
        data
    }
}

/// Makes `buffer` as long as `src`, as room for sorting `src`.
pub fn fit_buffer<T: Copy>(buffer: &mut Vec<T>, src: &Vec<T>)
    ensures
        final(buffer).len() == src.len(),
{
    buffer.clear();
    let mut i: usize = 0;
    while i < src.len()
        invariant
            i <= src.len(),
            buffer.len() == i,
        decreases src.len() - i,
    {
        buffer.push(src[i]);
        i = i + 1;
    }
}

/// Copies `from[lo..hi)` to `to[lo..hi)`.
pub fn copy_range<T: Copy>(from: &Vec<T>, to: &mut Vec<T>, lo: usize, hi: usize)
    requires
        lo <= hi <= from.len(),
        old(to).len() == from.len(),
    ensures
        final(to).len() == from.len(),
        forall|k: int| 0 <= k < lo || hi <= k < from.len() ==> final(to)@[k] == old(to)@[k],
        final(to)@.subrange(lo as int, hi as int) == from@.subrange(lo as int, hi as int),
{
    let ghost orig = to@;
    let mut i: usize = lo;
    while i < hi
        invariant
            lo <= i <= hi <= from.len(),
            to.len() == from.len(),
            forall|k: int| 0 <= k < lo || hi <= k < from.len() ==> to@[k] == orig[k],
            forall|k: int| lo <= k < i ==> to@[k] == from@[k],
        decreases hi - i,
    {
        to.set(i, from[i]);
        i = i + 1;
    }
    assert(to@.subrange(lo as int, hi as int) =~= from@.subrange(lo as int, hi as int));
}

/// Sortedness of a range carries over to a copy of it.
pub proof fn lemma_sorted_copy<T, O: ElemOrder<T>>(o: O, a: Seq<T>, b: Seq<T>, lo: int, hi: int)
    requires
        0 <= lo <= hi <= a.len(),
        hi <= b.len(),
        a.subrange(lo, hi) == b.subrange(lo, hi),
        sorted_range(o, a, lo, hi),
    ensures
        sorted_range(o, b, lo, hi),
{
    assert forall|i: int, j: int| lo <= i < j < hi implies #[trigger] o.le(b[i], b[j]) by {
        assert(a.subrange(lo, hi)[i - lo] == b.subrange(lo, hi)[i - lo]);
        assert(a.subrange(lo, hi)[j - lo] == b.subrange(lo, hi)[j - lo]);
        assert(a.subrange(lo, hi)[i - lo] == a[i]);
        assert(b.subrange(lo, hi)[i - lo] == b[i]);
        assert(a.subrange(lo, hi)[j - lo] == a[j]);
        assert(b.subrange(lo, hi)[j - lo] == b[j]);
        assert(o.le(a[i], a[j]));
    }
}

/// Reordering a range keeps the multiset of the whole.
pub proof fn lemma_range_permuted_multiset<T>(before: Seq<T>, after: Seq<T>, a: int, b: int)
    requires
        0 <= a <= b <= before.len(),
        after.len() == before.len(),
        forall|k: int| 0 <= k < a || b <= k < before.len() ==> after[k] == before[k],
        after.subrange(a, b).to_multiset() == before.subrange(a, b).to_multiset(),
    ensures
        after.to_multiset() == before.to_multiset(),
{
    let n = before.len() as int;
    assert(before =~= before.subrange(0, a) + before.subrange(a, b) + before.subrange(b, n));
    assert(after =~= after.subrange(0, a) + after.subrange(a, b) + after.subrange(b, n));
    assert(after.subrange(0, a) =~= before.subrange(0, a));
    assert(after.subrange(b, n) =~= before.subrange(b, n));
    vstd::seq_lib::lemma_multiset_commutative(before.subrange(0, a) + before.subrange(a, b), before.subrange(b, n));
    vstd::seq_lib::lemma_multiset_commutative(before.subrange(0, a), before.subrange(a, b));
    vstd::seq_lib::lemma_multiset_commutative(after.subrange(0, a) + after.subrange(a, b), after.subrange(b, n));
    vstd::seq_lib::lemma_multiset_commutative(after.subrange(0, a), after.subrange(a, b));
}

/// Swapping two positions keeps the multiset.
pub proof fn lemma_swap_multiset<T>(s: Seq<T>, i: int, j: int)
    requires
        0 <= i < s.len(),
        0 <= j < s.len(),
    ensures
        s.update(i, s[j]).update(j, s[i]).to_multiset() == s.to_multiset(),
{
    broadcast use vstd::seq_lib::group_to_multiset_ensures;
    let s1 = s.update(i, s[j]);
    let s2 = s1.update(j, s[i]);
    if i != j {
        assert(s1 =~= s.remove(i).insert(i, s[j]));
        lemma_update_multiset(s, i, s[j]);
        lemma_update_multiset(s1, j, s[i]);
        assert(s1[j] == s[j]);
    } else {
        assert(s2 =~= s);
    }
}

/// Writing `v` at position `i` trades `s[i]` for `v` in the multiset.
pub proof fn lemma_update_multiset<T>(s: Seq<T>, i: int, v: T)
    requires
        0 <= i < s.len(),
    ensures
        s.update(i, v).to_multiset() == s.to_multiset().remove(s[i]).insert(v),
{
    broadcast use vstd::seq_lib::group_to_multiset_ensures;
    let left = s.subrange(0, i);
    let right = s.subrange(i + 1, s.len() as int);
    assert(s =~= left.push(s[i]) + right);
    assert(s.update(i, v) =~= left.push(v) + right);
    vstd::seq_lib::lemma_multiset_commutative(left.push(s[i]), right);
    vstd::seq_lib::lemma_multiset_commutative(left.push(v), right);
    assert(left.push(s[i]).to_multiset() == left.to_multiset().insert(s[i]));
    assert(left.push(v).to_multiset() == left.to_multiset().insert(v));
    assert(s.to_multiset().remove(s[i]).insert(v) =~= left.to_multiset().add(right.to_multiset()).insert(v));
}

/// Sorts `v[lo..hi)` in place under `o` by insertion.
pub fn insertion_sort<T: Copy, O: ElemOrder<T>>(o: &O, v: &mut Vec<T>, lo: usize, hi: usize)
    requires
        o.valid(),
        lo <= hi <= old(v).len(),
    ensures
        final(v).len() == old(v).len(),
        forall|k: int| 0 <= k < lo || hi <= k < old(v).len() ==> final(v)@[k] == old(v)@[k],
        final(v)@.subrange(lo as int, hi as int).to_multiset()
            == old(v)@.subrange(lo as int, hi as int).to_multiset(),
        sorted_range(*o, final(v)@, lo as int, hi as int),
        keeps_order(*o, old(v)@.subrange(lo as int, hi as int), final(v)@.subrange(lo as int, hi as int)),
{
    if hi - lo < 2 {
        return;
    }
    let ghost orig = v@;
    let mut i: usize = lo + 1;
    while i < hi
        invariant
            o.valid(),
            lo < i <= hi <= v.len(),
            v.len() == orig.len(),
            forall|k: int| 0 <= k < lo || hi <= k < orig.len() ==> v@[k] == orig[k],
            v@.subrange(lo as int, hi as int).to_multiset()
                == orig.subrange(lo as int, hi as int).to_multiset(),
            sorted_range(*o, v@, lo as int, i as int),
            keeps_order(*o, orig.subrange(lo as int, hi as int), v@.subrange(lo as int, hi as int)),
        decreases hi - i,
    {
        let mut j: usize = i;
        while j > lo
            invariant
                o.valid(),
                lo <= j <= i < hi <= v.len(),
                v.len() == orig.len(),
                forall|k: int| 0 <= k < lo || hi <= k < orig.len() ==> v@[k] == orig[k],
                v@.subrange(lo as int, hi as int).to_multiset()
                    == orig.subrange(lo as int, hi as int).to_multiset(),
                sorted_range(*o, v@, lo as int, j as int),
                sorted_range(*o, v@, j as int, i + 1),
                forall|a: int, b: int| lo <= a < j < b <= i ==> #[trigger] o.le(v@[a], v@[b]),
                keeps_order(*o, orig.subrange(lo as int, hi as int), v@.subrange(lo as int, hi as int)),
            ensures
                v.len() == orig.len(),
                forall|k: int| 0 <= k < lo || hi <= k < orig.len() ==> v@[k] == orig[k],
                v@.subrange(lo as int, hi as int).to_multiset()
                    == orig.subrange(lo as int, hi as int).to_multiset(),
                sorted_range(*o, v@, lo as int, i + 1),
                keeps_order(*o, orig.subrange(lo as int, hi as int), v@.subrange(lo as int, hi as int)),
            decreases j,
        {
            if o.le_exec(&v[j - 1], &v[j]) {
                proof {
                    assert forall|a: int, b: int| lo <= a < b < i + 1 implies #[trigger] o.le(v@[a], v@[b]) by {
                        if a < j && b == j {
                            if a < j - 1 {
                                o.lemma_transitive(v@[a], v@[j - 1], v@[j as int]);
                            }
                        }
                    }
                }
                break;
            }
            let ghost before = v@;
            let x = v[j - 1];
            let y = v[j];
            v.set(j - 1, y);
            v.set(j, x);
            proof {
                o.lemma_total(before[j - 1], before[j as int]);
                lemma_swap_multiset(before.subrange(lo as int, hi as int), j - 1 - lo, j - lo);
                assert(v@.subrange(lo as int, hi as int) =~= before.subrange(lo as int, hi as int).update(j - 1 - lo, before[j as int]).update(j - lo, before[j - 1]));
                let sub = before.subrange(lo as int, hi as int);
                assert(sub[j - 1 - lo] == before[j - 1]);
                assert(sub[j - lo] == before[j as int]);
                lemma_swap_keeps_order(*o, sub, j - 1 - lo);
                assert(sub.update(j - 1 - lo, sub[j - 1 - lo + 1]).update(j - 1 - lo + 1, sub[j - 1 - lo]) =~= v@.subrange(lo as int, hi as int));
                assert forall|x: T| #[trigger] v@.subrange(lo as int, hi as int).filter(order_class(*o, x))
                    == orig.subrange(lo as int, hi as int).filter(order_class(*o, x)) by {
                    assert(v@.subrange(lo as int, hi as int).filter(order_class(*o, x)) == sub.filter(order_class(*o, x)));
                    assert(sub.filter(order_class(*o, x)) == orig.subrange(lo as int, hi as int).filter(order_class(*o, x)));
                }
                assert forall|a: int, b: int| (j - 1) <= a < b < i + 1 implies #[trigger] o.le(v@[a], v@[b]) by {
                    if a == j - 1 {
                        if b > j {
                            o.lemma_transitive(before[j as int], before[j - 1], before[b]);
                        }
                    } else {
                    }
                }
                assert forall|a: int, b: int| lo <= a < (j - 1) < b <= i implies #[trigger] o.le(v@[a], v@[b]) by {
                    if b == j {
                        assert(o.le(before[a], before[j - 1]));
                    } else if b > j {
                    }
                }
            }
            j = j - 1;
        }
        i = i + 1;
    }
}

} // verus!
