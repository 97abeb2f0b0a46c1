//! Sorting independent parts of a vector, each on a worker of rayon's pool.
use vstd::prelude::*;
use rayon::iter::IntoParallelRefMutIterator;
use rayon::iter::ParallelIterator;
use crate::sort::key::{SortKey, KeyFn};
use crate::sort::order::{ElemOrder, ByKey, ByTwoKeys, ByKeyThen, ByTwoKeysThen, sorted_range};
use crate::sort::serial::one_key::sort_vec_by_one_key;
use crate::sort::serial::two_keys::sort_vec_by_two_keys;
use crate::sort::serial::one_key_then::sort_vec_by_key_then;
use crate::sort::serial::two_keys_then::sort_vec_by_two_keys_then;
use crate::sort::spread::key_major;
use crate::sort::order::lemma_range_permuted_multiset;
use crate::sort::parallel::fragmentation::tiles;
use crate::sort::parallel::presort::{marks_separate, covered, lemma_tiles_end};
use crate::sort::parallel::parts::{lemma_part_permuted_keeps_marks, lemma_sorted_prefix_extend, lemma_tiles_covered};
use crate::sort::stable::{same_key_order, lemma_same_key_order_refl, lemma_same_key_order_concat, same_keys_order, lemma_same_keys_order_concat};

verus! {

broadcast use vstd::seq_lib::group_to_multiset_ensures;

/// An order whose parts can be sorted one at a time.
pub trait PartSort<T>: ElemOrder<T> + Sized {
    /// What a sort under this order promises of the order of its result
    /// beyond sortedness, from `before` to `after`.
    spec fn keeps(&self, before: Seq<T>, after: Seq<T>) -> bool;

    /// Nothing to keep in nothing.
    proof fn lemma_keeps_empty(&self)
        ensures
            self.keeps(Seq::empty(), Seq::empty()),
    ;

    /// What is kept part by part is kept of the parts laid end to end.
    proof fn lemma_keeps_concat(&self, s1: Seq<T>, s2: Seq<T>, t1: Seq<T>, t2: Seq<T>)
        requires
            self.keeps(s1, t1),
            self.keeps(s2, t2),
        ensures
            self.keeps(s1 + s2, t1 + t2),
    ;

    /// Sorts `part` under this order.
    fn sort_part(&self, part: &mut Vec<T>)
        requires
            self.valid(),
        ensures
            final(part)@.to_multiset() == old(part)@.to_multiset(),
            sorted_range(*self, final(part)@, 0, final(part)@.len() as int),
            self.keeps(old(part)@, final(part)@),
    ;
}

impl<T: Copy, K: SortKey, F: KeyFn<T, K>> PartSort<T> for ByKey<K, F> {
    /// The elements of each key stay in their order.
    open spec fn keeps(&self, before: Seq<T>, after: Seq<T>) -> bool {
        same_key_order(self.key, before, after)
    }

    proof fn lemma_keeps_empty(&self) {
        lemma_same_key_order_refl(self.key, Seq::<T>::empty(), Seq::<T>::empty());
    }

    proof fn lemma_keeps_concat(&self, s1: Seq<T>, s2: Seq<T>, t1: Seq<T>, t2: Seq<T>) {
        lemma_same_key_order_concat(self.key, s1, s2, t1, t2);
    }

    fn sort_part(&self, part: &mut Vec<T>) {
        let mut buffer: Vec<T> = Vec::new();
        sort_vec_by_one_key(part, &mut buffer, self.key);
    }
}

impl<T: Copy, K1: SortKey, K2: SortKey, F1: KeyFn<T, K1>, F2: KeyFn<T, K2>> PartSort<T> for ByTwoKeys<K1, K2, F1, F2> {
    /// The elements of each pair of keys stay in their order.
    open spec fn keeps(&self, before: Seq<T>, after: Seq<T>) -> bool {
        same_keys_order(self.key1, self.key2, before, after)
    }

    proof fn lemma_keeps_empty(&self) {
    }

    proof fn lemma_keeps_concat(&self, s1: Seq<T>, s2: Seq<T>, t1: Seq<T>, t2: Seq<T>) {
        lemma_same_keys_order_concat(self.key1, self.key2, s1, s2, t1, t2);
    }

    fn sort_part(&self, part: &mut Vec<T>) {
        let mut buffer: Vec<T> = Vec::new();
        sort_vec_by_two_keys(part, &mut buffer, self.key1, self.key2);
    }
}

impl<T: Copy, K: SortKey, F: KeyFn<T, K>, L: Fn(&T, &T) -> bool + Copy> PartSort<T> for ByKeyThen<T, K, F, L> {
    open spec fn keeps(&self, before: Seq<T>, after: Seq<T>) -> bool {
        true
    }

    proof fn lemma_keeps_empty(&self) {
    }

    proof fn lemma_keeps_concat(&self, s1: Seq<T>, s2: Seq<T>, t1: Seq<T>, t2: Seq<T>) {
    }

    fn sort_part(&self, part: &mut Vec<T>) {
        let mut buffer: Vec<T> = Vec::new();
        sort_vec_by_key_then(part, &mut buffer, self.key, self.tie, Ghost(self.order@));
    }
}

impl<T: Copy, K1: SortKey, K2: SortKey, F1: KeyFn<T, K1>, F2: KeyFn<T, K2>, L: Fn(&T, &T) -> bool + Copy> PartSort<T>
    for ByTwoKeysThen<T, K1, K2, F1, F2, L> {
    open spec fn keeps(&self, before: Seq<T>, after: Seq<T>) -> bool {
        true
    }

    proof fn lemma_keeps_empty(&self) {
    }

    proof fn lemma_keeps_concat(&self, s1: Seq<T>, s2: Seq<T>, t1: Seq<T>, t2: Seq<T>) {
    }

    fn sort_part(&self, part: &mut Vec<T>) {
        let mut buffer: Vec<T> = Vec::new();
        sort_vec_by_two_keys_then(part, &mut buffer, self.key1, self.key2, self.tie, Ghost(self.order@));
    }
}

/// Sorts every one of `parts` under `o`, the parts spread over rayon's pool.
/// rayon's `par_iter_mut().for_each(..)` calls the closure once on each part,
/// and the closure only calls the verified `sort_part`. The contract claims
/// that the parts keep their number and order, and that each part ends
/// sorted, holding what it held, with what `sort_part` keeps.
#[verifier::external_body]
fn par_sort_parts<T: Send, O: PartSort<T> + Sync>(o: &O, parts: &mut Vec<Vec<T>>)
    requires
        o.valid(),
    ensures
        final(parts)@.len() == old(parts)@.len(),
        forall|p: int| 0 <= p < final(parts)@.len() ==> (#[trigger] final(parts)@[p])@.to_multiset() == old(parts)@[p]@.to_multiset(),
        forall|p: int| 0 <= p < final(parts)@.len() ==> sorted_range(*o, (#[trigger] final(parts)@[p])@, 0, final(parts)@[p]@.len() as int),
        forall|p: int| 0 <= p < final(parts)@.len() ==> o.keeps(old(parts)@[p]@, (#[trigger] final(parts)@[p])@),
{
    parts.par_iter_mut().for_each(|part| o.sort_part(part));
}

/// A copy of `v[a..b)`.
pub fn copy_part<T: Copy>(v: &Vec<T>, a: usize, b: usize) -> (r: Vec<T>)
    requires
        a <= b <= v@.len(),
    ensures
        r@ == v@.subrange(a as int, b as int),
{
    let mut r: Vec<T> = Vec::new();
    let mut i: usize = a;
    while i < b
        invariant
            a <= i <= b <= v@.len(),
            r@ == v@.subrange(a as int, i as int),
        decreases b - i,
    {
        r.push(v[i]);
        i = i + 1;
    }
    r
}

/// Writes `part` over `v[a..a + part.len())`.
pub fn put_part<T: Copy>(v: &mut Vec<T>, a: usize, part: &Vec<T>)
    requires
        a + part@.len() <= old(v)@.len(),
    ensures
        final(v)@.len() == old(v)@.len(),
        forall|k: int| 0 <= k < a || a + part@.len() <= k < old(v)@.len() ==> final(v)@[k] == old(v)@[k],
        final(v)@.subrange(a as int, a + part@.len()) == part@,
{
    let ghost orig = v@;
    let mut i: usize = 0;
    while i < part.len()
        invariant
            a + part@.len() <= v.len(),
            i <= part@.len(),
            v@.len() == orig.len(),
            forall|k: int| 0 <= k < a || a + i <= k < orig.len() ==> v@[k] == orig[k],
            forall|k: int| 0 <= k < i ==> v@[a + k] == part@[k],
        decreases part@.len() - i,
    {
        v.set(a + i, part[i]);
        i = i + 1;
    }
    assert(v@.subrange(a as int, a + part@.len()) =~= part@);
}

/// Sorts `v` under `o`: each of the parts `frags`, cut where `marks` separate
/// the keys of `key`, is copied out, the copies are sorted on rayon's pool,
/// and they are written back in place.
pub fn sort_parts<T: Copy + Send, K: SortKey, F: KeyFn<T, K>, O: PartSort<T> + Sync>(
    v: &mut Vec<T>,
    frags: &Vec<(usize, usize)>,
    Ghost(marks): Ghost<Seq<usize>>,
    key: F,
    o: &O,
)
    requires
        o.valid(),
        key_major(key, *o),
        tiles(frags@, old(v)@.len() as int),
        frags@.len() <= marks.len() + 1,
        forall|f: int| 1 <= f < frags@.len() ==> #[trigger] frags@[f].0 == marks[f - 1],
        forall|f: int, h: int| 0 <= f < frags@.len() && 0 <= h < marks.len() ==>
            #[trigger] marks[h] <= #[trigger] frags@[f].0 || marks[h] >= frags@[f].1,
        marks_separate(key, old(v)@, marks),
    ensures
        final(v)@.to_multiset() == old(v)@.to_multiset(),
        sorted_range(*o, final(v)@, 0, final(v)@.len() as int),
        o.keeps(old(v)@, final(v)@),
{
    let ghost v0 = v@;
    let ghost len = v@.len();
    let mut parts: Vec<Vec<T>> = Vec::new();
    let mut f: usize = 0;
    while f < frags.len()
        invariant
            v@ == v0,
            len == v0.len(),
            tiles(frags@, len as int),
            f <= frags@.len(),
            parts@.len() == f,
            forall|g: int| 0 <= g < f ==> (#[trigger] parts@[g])@ == v0.subrange(frags@[g].0 as int, frags@[g].1 as int),
        decreases frags@.len() - f,
    {
        let (a, b) = frags[f];
        proof {
            lemma_tiles_end(frags@, len as int, f as int);
        }
        let part = copy_part(v, a, b);
        parts.push(part);
        f = f + 1;
    }
    let ghost parts0 = parts@;
    par_sort_parts(o, &mut parts);
    proof {
        assert forall|g: int| 0 <= g < frags@.len() implies o.keeps(v0.subrange(frags@[g].0 as int, frags@[g].1 as int), (#[trigger] parts@[g])@) by {
            assert(parts0[g]@ == v0.subrange(frags@[g].0 as int, frags@[g].1 as int));
        }
        o.lemma_keeps_empty();
        assert(v0.subrange(0, 0) =~= Seq::<T>::empty());
        assert(v@.subrange(0, 0) =~= Seq::<T>::empty());
    }
    let mut f: usize = 0;
    while f < frags.len()
        invariant
            o.valid(),
            key_major(key, *o),
            v@.len() == len,
            len == v0.len(),
            tiles(frags@, len as int),
            frags@.len() <= marks.len() + 1,
            forall|g: int| 1 <= g < frags@.len() ==> #[trigger] frags@[g].0 == marks[g - 1],
            forall|g: int, h: int| 0 <= g < frags@.len() && 0 <= h < marks.len() ==>
                #[trigger] marks[h] <= #[trigger] frags@[g].0 || marks[h] >= frags@[g].1,
            parts@.len() == frags@.len(),
            forall|g: int| 0 <= g < frags@.len() ==> (#[trigger] parts@[g])@.to_multiset()
                == v0.subrange(frags@[g].0 as int, frags@[g].1 as int).to_multiset(),
            forall|g: int| 0 <= g < frags@.len() ==> sorted_range(*o, (#[trigger] parts@[g])@, 0, parts@[g]@.len() as int),
            forall|g: int| 0 <= g < frags@.len() ==> o.keeps(v0.subrange(frags@[g].0 as int, frags@[g].1 as int), (#[trigger] parts@[g])@),
            o.keeps(v0.subrange(0, covered(frags@, f as int)), v@.subrange(0, covered(frags@, f as int))),
            f <= frags@.len(),
            marks_separate(key, v@, marks),
            v@.to_multiset() == v0.to_multiset(),
            forall|k: int| covered(frags@, f as int) <= k < len ==> v@[k] == v0[k],
            sorted_range(*o, v@, 0, covered(frags@, f as int)),
        decreases frags@.len() - f,
    {
        let (a, b) = frags[f];
        proof {
            if f > 0 {
                assert(frags@[f - 1].1 == frags@[f as int].0);
                assert(frags@[f as int].0 == marks[f - 1]);
            }
            assert(a == covered(frags@, f as int));
            lemma_tiles_end(frags@, len as int, f as int);
            assert(parts@[f as int]@.to_multiset().len() == parts@[f as int]@.len());
            assert(v0.subrange(a as int, b as int).to_multiset().len() == v0.subrange(a as int, b as int).len());
            assert(parts@[f as int]@.len() == b - a);
        }
        let ghost before = v@;
        put_part(v, a, &parts[f]);
        proof {
            let p = parts@[f as int]@;
            assert(before.subrange(a as int, b as int) =~= v0.subrange(a as int, b as int));
            assert(v@.subrange(a as int, b as int) == p);
            assert forall|h: int| 0 <= h < marks.len() implies #[trigger] marks[h] <= a || marks[h] >= b by {
                assert(marks[h] <= frags@[f as int].0 || marks[h] >= frags@[f as int].1);
            }
            lemma_part_permuted_keeps_marks(key, before, v@, marks, a as int, b as int);
            lemma_range_permuted_multiset(before, v@, a as int, b as int);
            assert forall|i: int, j: int| a <= i < j < b implies #[trigger] o.le(v@[i], v@[j]) by {
                assert(v@[i] == p[i - a]);
                assert(v@[j] == p[j - a]);
                assert(o.le(p[i - a], p[j - a]));
            }
            assert forall|i: int, j: int| 0 <= i < j < a implies #[trigger] o.le(v@[i], v@[j]) by {
                assert(o.le(before[i], before[j]));
            }
            lemma_sorted_prefix_extend(*o, key, v@, marks, a as int, b as int, f - 1);
            assert(before.subrange(0, a as int) =~= v@.subrange(0, a as int));
            o.lemma_keeps_concat(v0.subrange(0, a as int), v0.subrange(a as int, b as int), v@.subrange(0, a as int), p);
            assert(v0.subrange(0, b as int) =~= v0.subrange(0, a as int) + v0.subrange(a as int, b as int));
            assert(v@.subrange(0, b as int) =~= v@.subrange(0, a as int) + v@.subrange(a as int, b as int));
        }
        f = f + 1;
    }
    proof {
        lemma_tiles_covered(frags@, len as int);
        assert(v0.subrange(0, len as int) =~= v0);
        assert(v@.subrange(0, len as int) =~= v@);
    }
}

} // verus!
