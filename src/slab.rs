//! The interval part of the ray/box slab test.
//!
//! For each axis the ray enters and leaves the box's slab at two ray
//! parameters (given here as ordered keys, in either order). The ray meets the
//! box inside `(t_min, t_max)` exactly when the window narrowed by every
//! slab's interval is still non-empty.
use vstd::prelude::*;
use crate::aabb::{min_u64, max_u64};

verus! {

/// The entry parameter of a slab: the smaller of its two crossings.
pub open spec fn entry(s: (u64, u64)) -> u64 {
    min_u64(s.0, s.1)
}

/// The exit parameter of a slab: the larger of its two crossings.
pub open spec fn exit(s: (u64, u64)) -> u64 {
    max_u64(s.0, s.1)
}

/// The window `(t_min, t_max)` narrowed by all slabs is non-empty: every lower
/// bound lies strictly below every upper bound.
pub open spec fn slabs_overlap(t_min: u64, t_max: u64, s: Seq<(u64, u64)>) -> bool {
    &&& t_min < t_max
    &&& forall|i: int| 0 <= i < s.len() ==> t_min < #[trigger] exit(s[i])
    &&& forall|i: int| 0 <= i < s.len() ==> #[trigger] entry(s[i]) < t_max
    &&& forall|i: int, j: int|
        0 <= i < s.len() && 0 <= j < s.len() ==> #[trigger] entry(s[i]) < #[trigger] exit(s[j])
}

/// Narrows `[t_min, t_max]` by each axis's slab interval in turn and reports
/// whether the result is non-empty (`t_max > t_min`, strictly).
pub fn slab_hit(t_min: u64, t_max: u64, slabs: &[(u64, u64); 3]) -> (r: bool)
    ensures
        r == slabs_overlap(t_min, t_max, slabs@),
{
    let mut lo: u64 = t_min;
    let mut hi: u64 = t_max;
    let mut a: usize = 0;
    while a < 3
        invariant
            0 <= a <= 3,
            slabs@.len() == 3,
            t_min <= lo,
            hi <= t_max,
            forall|i: int| 0 <= i < a ==> #[trigger] entry(slabs@[i]) <= lo,
            forall|i: int| 0 <= i < a ==> hi <= #[trigger] exit(slabs@[i]),
            lo == t_min || exists|i: int| 0 <= i < a && lo == #[trigger] entry(slabs@[i]),
            hi == t_max || exists|i: int| 0 <= i < a && hi == #[trigger] exit(slabs@[i]),
        decreases 3 - a,
    {
        let (t1, t2) = slabs[a];
        let near = if t1 <= t2 { t1 } else { t2 };
        let far = if t1 >= t2 { t1 } else { t2 };
        assert(near == entry(slabs@[a as int]) && far == exit(slabs@[a as int]));
        if near > lo {
            lo = near;
        }
        if far < hi {
            hi = far;
        }
        a += 1;
    }
    proof {
        if hi > lo {
            assert forall|i: int, j: int|
                0 <= i < 3 && 0 <= j < 3 implies #[trigger] entry(slabs@[i]) < #[trigger] exit(
                slabs@[j],
            ) by {
                assert(entry(slabs@[i]) <= lo);
                assert(hi <= exit(slabs@[j]));
            }
        }
        if slabs_overlap(t_min, t_max, slabs@) {
            if lo != t_min {
                let i = choose|i: int| 0 <= i < 3 && lo == #[trigger] entry(slabs@[i]);
                if hi != t_max {
                    let j = choose|j: int| 0 <= j < 3 && hi == #[trigger] exit(slabs@[j]);
                    assert(entry(slabs@[i]) < exit(slabs@[j]));
                }
            } else if hi != t_max {
                let j = choose|j: int| 0 <= j < 3 && hi == #[trigger] exit(slabs@[j]);
                assert(t_min < exit(slabs@[j]));
            }
        }
    }
    hi > lo
}

/// The slab `s` with its two crossings in the given order or swapped.
pub open spec fn oriented(s: (u64, u64), swap: bool) -> (u64, u64) {
    if swap {
        (s.1, s.0)
    } else {
        s
    }
}

/// `perm` lists each index of `0..n` exactly once.
pub open spec fn is_permutation(perm: Seq<int>, n: int) -> bool {
    &&& perm.len() == n
    &&& forall|k: int| 0 <= k < n ==> 0 <= #[trigger] perm[k] < n
    &&& forall|j: int| 0 <= j < n ==> #[trigger] perm.contains(j)
}

/// The slab test does not depend on the order in which the axes are taken,
/// nor on which crossing of each axis comes first.
pub proof fn lemma_slab_order_free(
    t_min: u64,
    t_max: u64,
    s: Seq<(u64, u64)>,
    perm: Seq<int>,
    swaps: Seq<bool>,
)
    requires
        is_permutation(perm, s.len() as int),
        swaps.len() == s.len(),
    ensures
        slabs_overlap(
            t_min,
            t_max,
            Seq::new(s.len(), |k: int| oriented(s[perm[k]], swaps[k])),
        ) == slabs_overlap(t_min, t_max, s),
{
    let n = s.len() as int;
    let q = Seq::new(s.len(), |k: int| oriented(s[perm[k]], swaps[k]));
    assert forall|k: int| 0 <= k < n implies entry(#[trigger] q[k]) == entry(s[perm[k]]) && exit(
        q[k],
    ) == exit(s[perm[k]]) by {}
    if slabs_overlap(t_min, t_max, s) {
        assert forall|i: int, j: int|
            0 <= i < n && 0 <= j < n implies #[trigger] entry(q[i]) < #[trigger] exit(q[j]) by {
            assert(entry(q[i]) == entry(s[perm[i]]));
            assert(exit(q[j]) == exit(s[perm[j]]));
        }
        assert forall|i: int| 0 <= i < n implies t_min < #[trigger] exit(q[i]) by {
            assert(exit(q[i]) == exit(s[perm[i]]));
        }
        assert forall|i: int| 0 <= i < n implies #[trigger] entry(q[i]) < t_max by {
            assert(entry(q[i]) == entry(s[perm[i]]));
        }
    }
    if slabs_overlap(t_min, t_max, q) {
        assert forall|i: int, j: int|
            0 <= i < n && 0 <= j < n implies #[trigger] entry(s[i]) < #[trigger] exit(s[j]) by {
            assert(perm.contains(i));
            let ki = choose|k: int| 0 <= k < n && #[trigger] perm[k] == i;
            assert(perm.contains(j));
            let kj = choose|k: int| 0 <= k < n && #[trigger] perm[k] == j;
            assert(entry(q[ki]) == entry(s[i]));
            assert(exit(q[kj]) == exit(s[j]));
        }
        assert forall|i: int| 0 <= i < n implies t_min < #[trigger] exit(s[i]) by {
            assert(perm.contains(i));
            let ki = choose|k: int| 0 <= k < n && #[trigger] perm[k] == i;
            assert(exit(q[ki]) == exit(s[i]));
        }
        assert forall|i: int| 0 <= i < n implies #[trigger] entry(s[i]) < t_max by {
            assert(perm.contains(i));
            let ki = choose|k: int| 0 <= k < n && #[trigger] perm[k] == i;
            assert(entry(q[ki]) == entry(s[i]));
        }
    }
}

} // verus!
