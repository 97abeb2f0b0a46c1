//! Facts about the parts that a presort leaves: reordering inside a part
//! keeps the marks, and sorted parts between marks make a sorted whole.
use vstd::prelude::*;
use crate::sort::key::{SortKey, key_int};
use crate::sort::order::{ElemOrder, sorted_range};
use crate::sort::spread::{key_major, lemma_region_from};
use crate::sort::parallel::presort::marks_separate;
use crate::sort::parallel::fragmentation::tiles;
use crate::sort::bin_layout::keys_all_equal;

verus! {

broadcast use vstd::seq_lib::group_to_multiset_ensures;

/// Reordering the elements of `[a, b)`, where no mark falls strictly inside,
/// keeps the marks separating.
pub proof fn lemma_part_permuted_keeps_marks<T, K: SortKey, F: Fn(&T) -> K>(
    key: F,
    v1: Seq<T>,
    v2: Seq<T>,
    marks: Seq<usize>,
    a: int,
    b: int,
)
    requires
        marks_separate(key, v1, marks),
        v1.len() == v2.len(),
        0 <= a <= b <= v1.len(),
        forall|k: int| 0 <= k < a || b <= k < v1.len() ==> v2[k] == v1[k],
        v2.subrange(a, b).to_multiset() == v1.subrange(a, b).to_multiset(),
        forall|h: int| 0 <= h < marks.len() ==> #[trigger] marks[h] <= a || marks[h] >= b,
    ensures
        marks_separate(key, v2, marks),
{
    assert forall|h: int, i: int, j: int|
        #![trigger marks[h], key_int(key, v2[i]), key_int(key, v2[j])]
        0 <= h < marks.len() && 0 <= i < marks[h] <= j < v2.len() implies key_int(key, v2[i]) < key_int(key, v2[j]) by {
        let i1 = if a <= i < b {
            let k = lemma_region_from(v1.subrange(a, b), v2, a, b, i);
            assert(v1.subrange(a, b)[k] == v1[a + k]);
            a + k
        } else {
            i
        };
        let j1 = if a <= j < b {
            let k = lemma_region_from(v1.subrange(a, b), v2, a, b, j);
            assert(v1.subrange(a, b)[k] == v1[a + k]);
            a + k
        } else {
            j
        };
        assert(v2[i] == v1[i1]);
        assert(v2[j] == v1[j1]);
        assert(i1 < marks[h] <= j1);
        assert(key_int(key, v1[i1]) < key_int(key, v1[j1]));
    }
}

/// A sorted prefix that ends at a mark, followed by a sorted part, is sorted.
pub proof fn lemma_sorted_prefix_extend<T, K: SortKey, F: Fn(&T) -> K, O: ElemOrder<T>>(
    o: O,
    key: F,
    v: Seq<T>,
    marks: Seq<usize>,
    a: int,
    b: int,
    h: int,
)
    requires
        marks_separate(key, v, marks),
        key_major(key, o),
        0 <= a <= b <= v.len(),
        a == 0 || (0 <= h < marks.len() && marks[h] == a),
        sorted_range(o, v, 0, a),
        sorted_range(o, v, a, b),
    ensures
        sorted_range(o, v, 0, b),
{
    assert forall|i: int, j: int| 0 <= i < j < b implies #[trigger] o.le(v[i], v[j]) by {
        if i < a && a <= j {
            assert(key_int(key, v[i]) < key_int(key, v[j]));
        }
    }
}

/// When the parts tile the whole range, the covered prefix is all of it.
pub proof fn lemma_tiles_covered(frags: Seq<(usize, usize)>, len: int)
    requires
        tiles(frags, len),
    ensures
        (if frags.len() == 0 { 0 } else { frags[frags.len() - 1].1 as int }) == len,
{
}

/// Equal keys stay equal after a reordering.
pub proof fn lemma_keys_all_equal_permuted<T, K: SortKey, F: Fn(&T) -> K>(key: F, s1: Seq<T>, s2: Seq<T>)
    requires
        keys_all_equal(key, s1),
        s2.to_multiset() == s1.to_multiset(),
    ensures
        keys_all_equal(key, s2),
{
    assert forall|i: int, j: int| 0 <= i < s2.len() && 0 <= j < s2.len() implies
        #[trigger] key_int(key, s2[i]) == #[trigger] key_int(key, s2[j]) by {
        assert(s2.contains(s2[i]));
        assert(s2.contains(s2[j]));
        assert(s2.to_multiset().count(s2[i]) > 0);
        assert(s2.to_multiset().count(s2[j]) > 0);
        assert(s1.to_multiset().count(s2[i]) > 0);
        assert(s1.to_multiset().count(s2[j]) > 0);
        assert(s1.contains(s2[i]));
        assert(s1.contains(s2[j]));
        let a = choose|a: int| 0 <= a < s1.len() && s1[a] == s2[i];
        let b = choose|b: int| 0 <= b < s1.len() && s1[b] == s2[j];
        assert(key_int(key, s1[a]) == key_int(key, s1[b]));
    }
}

} // verus!
