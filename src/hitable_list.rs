//! A flat list of surfaces, searched by a linear scan.
use vstd::prelude::*;
use crate::aabb::{AABB, lemma_union_contains, lemma_contains_trans};
use crate::hitable::{Hit, deterministic, is_nearest, all_items, nearest_of};

verus! {

/// The union of the boxes of `s` (each present), taken from the first on.
pub open spec fn union_all(s: Seq<Option<AABB>>) -> AABB
    decreases s.len(),
{
    if s.len() <= 1 {
        s[0]->Some_0
    } else {
        union_all(s.drop_last()).union_spec(s.last()->Some_0)
    }
}

/// The box of a list: none if the list is empty or some surface has none,
/// else the union of all the surfaces' boxes.
pub open spec fn list_box(s: Seq<Option<AABB>>) -> Option<AABB> {
    if s.len() > 0 && forall|i: int| 0 <= i < s.len() ==> #[trigger] s[i] is Some {
        Some(union_all(s))
    } else {
        None
    }
}

/// The union of a list of boxes contains each of them.
pub proof fn lemma_union_all_contains(s: Seq<Option<AABB>>, k: int)
    requires
        0 <= k < s.len(),
        forall|i: int| 0 <= i < s.len() ==> #[trigger] s[i] is Some,
    ensures
        union_all(s).contains(s[k]->Some_0),
    decreases s.len(),
{
    let last = s.last()->Some_0;
    if s.len() == 1 {
        assert forall|a: int| 0 <= a < 3 implies union_all(s).min.at(a) <= #[trigger] last.min.at(a)
            && last.max.at(a) <= union_all(s).max.at(a) by {}
    } else {
        let init = s.drop_last();
        lemma_union_contains(union_all(init), last);
        if k < s.len() - 1 {
            assert(init[k] == s[k]);
            lemma_union_all_contains(init, k);
            lemma_contains_trans(union_all(s), union_all(init), s[k]->Some_0);
        }
    }
}

/// The surfaces `0..len`, each with the box it has over the time interval
/// the list was made for, if any.
pub struct HitableList {
    boxes: Vec<Option<AABB>>,
}

impl HitableList {
    pub closed spec fn boxes_spec(&self) -> Seq<Option<AABB>> {
        self.boxes@
    }

    pub fn new(boxes: Vec<Option<AABB>>) -> (r: HitableList)
        ensures
            r.boxes_spec() == boxes@,
    {
        HitableList { boxes }
    }

    pub fn len(&self) -> (r: usize)
        ensures
            r == self.boxes_spec().len(),
    {
        self.boxes.len()
    }

    /// The nearest hit over all surfaces of the list, by a scan in order.
    pub fn hit<L: Fn(usize) -> Option<u64>>(&self, surface_hit: &L) -> (r: Option<Hit>)
        requires
            forall|k: usize| k < self.boxes_spec().len() ==> call_requires(*surface_hit, (k,)),
            deterministic(*surface_hit),
        ensures
            is_nearest(r, all_items(self.boxes_spec().len()), *surface_hit),
    {
        nearest_of(self.boxes.len(), surface_hit)
    }

    /// The box that holds every surface of the list; none if the list is
    /// empty or a surface has no box.
    pub fn bounding_box(&self) -> (r: Option<AABB>)
        ensures
            r == list_box(self.boxes_spec()),
            r matches Some(b) ==> forall|k: int|
                0 <= k < self.boxes_spec().len() ==> b.contains(
                    #[trigger] self.boxes_spec()[k]->Some_0,
                ),
    {
        let n = self.boxes.len();
        if n == 0 {
            return None;
        }
        let mut result = match self.boxes[0] {
            Some(b) => b,
            None => {
                return None;
            },
        };
        assert(self.boxes@.subrange(0, 1).drop_last().len() == 0);
        let mut i: usize = 1;
        while i < n
            invariant
                1 <= i <= n,
                n == self.boxes@.len(),
                forall|j: int| 0 <= j < i ==> #[trigger] self.boxes@[j] is Some,
                result == union_all(self.boxes@.subrange(0, i as int)),
            decreases n - i,
        {
            match self.boxes[i] {
                Some(b) => {
                    assert(self.boxes@.subrange(0, i + 1).drop_last() =~= self.boxes@.subrange(
                        0,
                        i as int,
                    ));
                    result = result.union(&b);
                },
                None => {
                    return None;
                },
            }
            i += 1;
        }
        assert(self.boxes@.subrange(0, n as int) =~= self.boxes@);
        proof {
            assert forall|k: int| 0 <= k < n implies result.contains(
                #[trigger] self.boxes@[k]->Some_0,
            ) by {
                lemma_union_all_contains(self.boxes@, k);
            }
        }
        Some(result)
    }
}

} // verus!
