//! Cutting `[0, len)` into consecutive fragments.
use vstd::prelude::*;

verus! {

/// `frags` cut `[0, len)` into consecutive ranges, in order.
pub open spec fn tiles(frags: Seq<(usize, usize)>, len: int) -> bool {
    &&& frags.len() >= 1 ==> frags[0].0 == 0 && frags[frags.len() - 1].1 == len
    &&& frags.len() == 0 ==> len == 0
    &&& forall|i: int| 0 <= i < frags.len() ==> #[trigger] frags[i].0 <= frags[i].1
    &&& forall|i: int| 0 <= i < frags.len() - 1 ==> #[trigger] frags[i].1 == frags[i + 1].0
}

/// `ceil(a / b)`.
pub open spec fn ceil_div(a: int, b: int) -> int {
    if a % b == 0 {
        a / b
    } else {
        a / b + 1
    }
}

/// The length of each fragment but the last when `len` elements go to `count` workers.
pub open spec fn fragment_step(len: int, count: int) -> int {
    if len < count {
        1
    } else {
        ceil_div(len, count)
    }
}

/// The number of fragments when `len` elements go to `count` workers.
pub open spec fn fragment_count(len: int, count: int) -> int {
    if len < count {
        if len == 0 { 1 } else { len }
    } else {
        ceil_div(len, fragment_step(len, count))
    }
}

/// Cuts `[0, len)` into `fragment_count(len, count)` fragments, all but the
/// last `fragment_step(len, count)` long.
pub fn fragment_by_count(len: usize, count: usize) -> (frags: Vec<(usize, usize)>)
    requires
        count >= 1,
    ensures
        tiles(frags@, len as int),
        frags@.len() == fragment_count(len as int, count as int),
        forall|i: int| 0 <= i < frags@.len() - 1 ==> #[trigger] frags@[i].1 - frags@[i].0 == fragment_step(len as int, count as int),
{
    let (capacity, step_len) = if len < count {
        (len, 1usize)
    } else {
        proof {
            if len % count != 0 {
                assert(count >= 2);
                vstd::arithmetic::div_mod::lemma_div_is_ordered_by_denominator(len as int, 2, count as int);
            }
        }
        let step_len = len / count + if len % count != 0 { 1usize } else { 0usize };
        proof {
            vstd::arithmetic::div_mod::lemma_fundamental_div_mod(len as int, count as int);
            assert(len / count >= 1) by {
                vstd::arithmetic::div_mod::lemma_div_is_ordered(count as int, len as int, count as int);
                vstd::arithmetic::div_mod::lemma_div_by_multiple(1, count as int);
            }
        }
        proof {
            if len % step_len != 0 {
                assert(step_len >= 2);
                vstd::arithmetic::div_mod::lemma_div_is_ordered_by_denominator(len as int, 2, step_len as int);
            }
        }
        let count = len / step_len + if len % step_len != 0 { 1usize } else { 0usize };
        (count, step_len)
    };
    let ghost steps = if capacity >= 1 { capacity - 1 } else { 0 };
    proof {
        // every full step fits before the end
        if len >= count {
            vstd::arithmetic::div_mod::lemma_fundamental_div_mod(len as int, step_len as int);
            assert(steps * step_len <= len) by (nonlinear_arith)
                requires
                    len as int == step_len * (len / step_len) + len % step_len,
                    0 <= len % step_len,
                    steps <= len / step_len,
                    step_len >= 1,
            ;
        }
    }
    let mut frags: Vec<(usize, usize)> = Vec::new();
    let mut base: usize = 0;
    let mut i: usize = 0;
    let rounds = capacity.saturating_sub(1);
    while i < rounds
        invariant
            rounds == steps,
            step_len >= 1,
            steps * step_len <= len,
            i <= rounds,
            base == i * step_len,
            frags@.len() == i,
            forall|k: int| #![trigger frags@[k]] 0 <= k < i ==> frags@[k].0 == k * step_len && frags@[k].1 == (k + 1) * step_len,
        decreases rounds - i,
    {
        proof {
            assert((i + 1) * step_len <= steps * step_len) by (nonlinear_arith)
                requires i + 1 <= steps, step_len >= 1;
            assert(base + step_len == (i + 1) * step_len) by (nonlinear_arith)
                requires base == i * step_len;
        }
        frags.push((base, base + step_len));
        base = base + step_len;
        i = i + 1;
    }
    assert(i == steps);
    assert(forall|k: int| #![trigger frags@[k]] 0 <= k < steps ==> frags@[k].0 == k * step_len && frags@[k].1 == (k + 1) * step_len);
    let ghost before = frags@;
    frags.push((base, len));
    proof {
        assert forall|k: int| #![trigger frags@[k]] 0 <= k < steps implies frags@[k].0 == k * step_len && frags@[k].1 == (k + 1) * step_len by {
            assert(frags@[k] == before[k]);
        }
        if len >= count {
            assert(step_len == fragment_step(len as int, count as int));
            assert(capacity == ceil_div(len as int, step_len as int));
            assert(capacity >= 1) by {
                if len % step_len == 0 {
                    vstd::arithmetic::div_mod::lemma_div_is_ordered(step_len as int, len as int, step_len as int);
                    vstd::arithmetic::div_mod::lemma_div_by_multiple(1, step_len as int);
                }
            }
        }
        assert(frags@.len() == fragment_count(len as int, count as int));
        assert forall|k: int| 0 <= k < frags@.len() - 1 implies #[trigger] frags@[k].1 == frags@[k + 1].0 by {
            assert(frags@[k].1 == (k + 1) * step_len);
            if k + 1 < steps {
                assert(frags@[k + 1].0 == (k + 1) * step_len);
            } else {
                assert(k + 1 == steps);
                assert(frags@[k + 1].0 == base);
            }
        }
        assert forall|k: int| 0 <= k < frags@.len() implies #[trigger] frags@[k].0 <= frags@[k].1 by {
            if k < steps {
                assert(k * step_len <= (k + 1) * step_len) by (nonlinear_arith) requires step_len >= 1;
            } else {
                assert(frags@[k].0 == steps * step_len);
            }
        }
        assert forall|k: int| 0 <= k < frags@.len() - 1 implies #[trigger] frags@[k].1 - frags@[k].0 == fragment_step(len as int, count as int) by {
            assert((k + 1) * step_len - k * step_len == step_len) by (nonlinear_arith);
        }
    }
    frags
}

/// Cuts `[0, len)` at each of `marks`, dropping a last fragment that would be empty.
pub fn fragment_by_marks(len: usize, marks: &Vec<usize>) -> (frags: Vec<(usize, usize)>)
    requires
        forall|i: int, j: int| 0 <= i <= j < marks@.len() ==> #[trigger] marks@[i] <= #[trigger] marks@[j],
        forall|i: int| 0 <= i < marks@.len() ==> #[trigger] marks@[i] <= len,
    ensures
        forall|i: int| 0 <= i < marks@.len() ==> #[trigger] frags@[i] == (if i == 0 { 0 } else { marks@[i - 1] }, marks@[i]),
        frags@.len() == marks@.len() + if (if marks@.len() == 0 { 0 } else { marks@[marks@.len() - 1] }) < len { 1int } else { 0 },
        (if marks@.len() == 0 { 0 } else { marks@[marks@.len() - 1] }) < len ==>
            frags@[marks@.len() as int] == (if marks@.len() == 0 { 0 } else { marks@[marks@.len() - 1] }, len),
        tiles(frags@, len as int),
        forall|f: int| 1 <= f < frags@.len() ==> #[trigger] frags@[f].0 == marks@[f - 1],
        forall|f: int, h: int| 0 <= f < frags@.len() && 0 <= h < marks@.len() ==>
            #[trigger] marks@[h] <= #[trigger] frags@[f].0 || marks@[h] >= frags@[f].1,
{
    let mut frags: Vec<(usize, usize)> = Vec::new();
    let mut base: usize = 0;
    let mut i: usize = 0;
    while i < marks.len()
        invariant
            forall|a: int, b: int| 0 <= a <= b < marks@.len() ==> #[trigger] marks@[a] <= #[trigger] marks@[b],
            i <= marks@.len(),
            frags@.len() == i,
            base == if i == 0 { 0 } else { marks@[i - 1] },
            forall|k: int| 0 <= k < i ==> #[trigger] frags@[k] == (if k == 0 { 0 } else { marks@[k - 1] }, marks@[k]),
        decreases marks@.len() - i,
    {
        let m = marks[i];
        frags.push((base, m));
        base = m;
        i = i + 1;
    }
    if base < len {
        frags.push((base, len));
    }
    proof {
        let m = marks@.len();
        assert forall|f: int, h: int| 0 <= f < frags@.len() && 0 <= h < marks@.len() implies
            #[trigger] marks@[h] <= #[trigger] frags@[f].0 || marks@[h] >= frags@[f].1 by {
            if f < m {
                if h < f {
                    assert(marks@[h] <= marks@[f - 1]);
                } else {
                    assert(marks@[f] <= marks@[h]);
                }
            } else {
                assert(marks@[h] <= marks@[m - 1]);
            }
        }
        assert forall|f: int| 0 <= f < frags@.len() implies #[trigger] frags@[f].0 <= frags@[f].1 by {
            if 0 < f < m {
                assert(marks@[f - 1] <= marks@[f]);
            }
        }
        if frags@.len() == 0 {
            assert(m == 0);
        } else if m > 0 && !(marks@[m - 1] < len) {
            assert(frags@.len() == m);
        }
    }
    frags
}

} // verus!
