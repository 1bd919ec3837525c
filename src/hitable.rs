//! Hits and the choice of the nearest one.
//!
//! A surface is named by its index in the scene. The test of one surface
//! against a ray is a function from that index to the ray parameter of its
//! hit, if any, as an ordered key.
use vstd::prelude::*;

verus! {

/// A hit of surface `item` at ray parameter `t` (an ordered key).
#[derive(Clone, Copy, Debug)]
pub struct Hit {
    pub t: u64,
    pub item: usize,
}

impl Hit {
    pub fn new(t: u64, item: usize) -> (r: Hit)
        ensures
            r.t == t,
            r.item == item,
    {
        Hit { t, item }
    }
}

/// The surface test gives one answer for each surface.
pub open spec fn deterministic<L: Fn(usize) -> Option<u64>>(surface_hit: L) -> bool {
    forall|k: usize, a: Option<u64>, b: Option<u64>|
        #[trigger] call_ensures(surface_hit, (k,), a) && #[trigger] call_ensures(
            surface_hit,
            (k,),
            b,
        ) ==> a == b
}

/// `r` is a nearest hit among the surfaces `items`: none if no surface there
/// is hit, else a hit of one of them whose parameter is not above that of
/// any hit among them.
pub open spec fn is_nearest<L: Fn(usize) -> Option<u64>>(
    r: Option<Hit>,
    items: Seq<usize>,
    surface_hit: L,
) -> bool {
    match r {
        None => forall|k: int, v: Option<u64>|
            0 <= k < items.len() && #[trigger] call_ensures(surface_hit, (items[k],), v) ==> v
                is None,
        Some(h) => {
            &&& items.contains(h.item)
            &&& call_ensures(surface_hit, (h.item,), Some(h.t))
            &&& forall|k: int, t: u64|
                0 <= k < items.len() && #[trigger] call_ensures(surface_hit, (items[k],), Some(t))
                    ==> h.t <= t
        },
    }
}

/// The hit with the smaller parameter; the second one on a tie, and
/// whichever exists if only one does.
pub fn nearer(a: Option<Hit>, b: Option<Hit>) -> (r: Option<Hit>)
    ensures
        r == match (a, b) {
            (Some(x), Some(y)) => if x.t < y.t {
                Some(x)
            } else {
                Some(y)
            },
            (Some(x), None) => Some(x),
            (None, y) => y,
        },
{
    match (a, b) {
        (Some(x), Some(y)) => if x.t < y.t {
            Some(x)
        } else {
            Some(y)
        },
        (Some(x), None) => Some(x),
        (None, y) => y,
    }
}

/// The nearer of two hits: either one if the other is absent, else one whose
/// parameter is not above the other's.
pub open spec fn picks_nearer(c: Option<Hit>, a: Option<Hit>, b: Option<Hit>) -> bool {
    match (a, b) {
        (Some(x), Some(y)) => (c == a && x.t <= y.t) || (c == b && y.t <= x.t),
        (Some(_), None) => c == a,
        (None, _) => c == b,
    }
}

/// The nearer of a nearest hit among `xs` and one among `ys` is a nearest hit
/// among both.
pub proof fn lemma_nearer_concat<L: Fn(usize) -> Option<u64>>(
    c: Option<Hit>,
    a: Option<Hit>,
    b: Option<Hit>,
    xs: Seq<usize>,
    ys: Seq<usize>,
    surface_hit: L,
)
    requires
        is_nearest(a, xs, surface_hit),
        is_nearest(b, ys, surface_hit),
        picks_nearer(c, a, b),
    ensures
        is_nearest(c, xs + ys, surface_hit),
{
    let zs = xs + ys;
    assert forall|k: int| 0 <= k < zs.len() implies #[trigger] zs[k] == if k < xs.len() {
        xs[k]
    } else {
        ys[k - xs.len()]
    } by {}
    if let Some(h) = c {
        assert(zs.contains(h.item)) by {
            if c == a {
                let k = choose|k: int| 0 <= k < xs.len() && xs[k] == h.item;
                assert(zs[k] == h.item);
            } else {
                let k = choose|k: int| 0 <= k < ys.len() && ys[k] == h.item;
                assert(zs[k + xs.len()] == h.item);
            }
        }
        assert forall|k: int, t: u64|
            0 <= k < zs.len() && #[trigger] call_ensures(surface_hit, (zs[k],), Some(t)) implies h.t
            <= t by {
            if k < xs.len() {
                assert(call_ensures(surface_hit, (xs[k],), Some(t)));
            } else {
                assert(call_ensures(surface_hit, (ys[k - xs.len()],), Some(t)));
            }
        }
    } else {
        assert forall|k: int, v: Option<u64>|
            0 <= k < zs.len() && #[trigger] call_ensures(surface_hit, (zs[k],), v) implies v is None by {
            if k < xs.len() {
                assert(call_ensures(surface_hit, (xs[k],), v));
            } else {
                assert(call_ensures(surface_hit, (ys[k - xs.len()],), v));
            }
        }
    }
}

/// The surfaces `0..n`, in order.
pub open spec fn all_items(n: nat) -> Seq<usize> {
    Seq::new(n, |i: int| i as usize)
}

/// Scans surfaces `0..n` in order and keeps the nearest hit; of equally near
/// hits the first is kept.
pub fn nearest_of<L: Fn(usize) -> Option<u64>>(n: usize, surface_hit: &L) -> (r: Option<Hit>)
    requires
        forall|k: usize| k < n ==> call_requires(*surface_hit, (k,)),
        deterministic(*surface_hit),
    ensures
        is_nearest(r, all_items(n as nat), *surface_hit),
{
    let mut result: Option<Hit> = None;
    let mut i: usize = 0;
    while i < n
        invariant
            i <= n,
            forall|k: usize| k < n ==> call_requires(*surface_hit, (k,)),
            deterministic(*surface_hit),
            is_nearest(result, all_items(i as nat), *surface_hit),
        decreases n - i,
    {
        let v = surface_hit(i);
        let single = match v {
            Some(t) => Some(Hit { t, item: i }),
            None => None,
        };
        proof {
            let one = seq![i];
            assert(one[0] == i);
            assert forall|k: int, w: Option<u64>|
                0 <= k < one.len() && #[trigger] call_ensures(
                    *surface_hit,
                    (one[k],),
                    w,
                ) implies w == v by {}
            if single is Some {
                assert(one.contains(i));
            }
            assert(is_nearest(single, one, *surface_hit));
        }
        let next = match (result, single) {
            (Some(x), Some(y)) => if y.t < x.t {
                Some(y)
            } else {
                Some(x)
            },
            (Some(x), None) => Some(x),
            (None, y) => y,
        };
        proof {
            lemma_nearer_concat(next, result, single, all_items(i as nat), seq![i], *surface_hit);
            assert(all_items(i as nat) + seq![i] =~= all_items((i + 1) as nat));
        }
        result = next;
        i += 1;
    }
    result
}

} // verus!
