//! The integer lattice of Perlin noise: random permutations of `0..256` and
//! the gradient index of each corner of a lattice cell.
use vstd::prelude::*;
use rand::seq::SliceRandom;
use crate::hitable::all_items;

verus! {

broadcast use vstd::seq_lib::group_to_multiset_ensures;

/// The number of lattice points along an axis before the pattern repeats.
pub const PERIOD: usize = 256;

/// Relies on rand's `SliceRandom::shuffle` over `thread_rng()`, which only
/// swaps elements: the result holds the same values in some order.
#[verifier::external_body]
fn shuffle(v: &mut Vec<usize>)
    ensures
        final(v)@.to_multiset() == old(v)@.to_multiset(),
{
    v.shuffle(&mut rand::thread_rng());
}

/// A permutation of `0..256`.
pub struct Permutation {
    data: Vec<usize>,
}

/// The entry of `data` for lattice coordinate `c` (taken modulo 256), moved
/// on by `d` places.
pub open spec fn perm_at(data: Seq<usize>, c: u64, d: int) -> usize {
    data[((c % 256) as int + d) % 256]
}

impl Permutation {
    pub closed spec fn data_spec(&self) -> Seq<usize> {
        self.data@
    }

    /// Holds each of `0..256` exactly once.
    pub open spec fn wf(&self) -> bool {
        &&& self.data_spec().len() == 256
        &&& self.data_spec().to_multiset() == all_items(256).to_multiset()
    }

    /// A permutation of `0..256` drawn at random.
    pub fn new() -> (r: Permutation)
        ensures
            r.wf(),
    {
        let mut data: Vec<usize> = Vec::new();
        let mut i: usize = 0;
        while i < PERIOD
            invariant
                i <= 256,
                data@ == all_items(i as nat),
            decreases 256 - i,
        {
            data.push(i);
            assert(data@ =~= all_items((i + 1) as nat));
            i += 1;
        }
        let ghost before = data@;
        shuffle(&mut data);
        proof {
            vstd::seq_lib::to_multiset_len(before);
            vstd::seq_lib::to_multiset_len(data@);
        }
        Permutation { data }
    }

    /// The entries for lattice coordinates `c` and `c + 1` (modulo 256). A
    /// negative coordinate is given in two's complement.
    pub fn lookup(&self, c: u64) -> (r: (usize, usize))
        requires
            self.wf(),
        ensures
            r.0 == perm_at(self.data_spec(), c, 0),
            r.1 == perm_at(self.data_spec(), c, 1),
            r.0 < 256,
            r.1 < 256,
    {
        let i = (c % 256) as usize;
        let j = (i + 1) % PERIOD;
        proof {
            lemma_entries_below_period(self.data@, i as int);
            lemma_entries_below_period(self.data@, j as int);
        }
        (self.data[i], self.data[j])
    }
}

/// Every entry of a permutation of `0..256` is below 256.
proof fn lemma_entries_below_period(data: Seq<usize>, i: int)
    requires
        data.len() == 256,
        data.to_multiset() == all_items(256).to_multiset(),
        0 <= i < 256,
    ensures
        data[i] < 256,
{
    assert(data.contains(data[i]));
    assert(all_items(256).to_multiset().count(data[i]) > 0);
    assert(all_items(256).contains(data[i]));
}

/// Two indices below 256 combined by exclusive or stay below 256.
proof fn lemma_xor_below_period(a: usize, b: usize)
    requires
        a < 256,
        b < 256,
    ensures
        a ^ b < 256,
{
    assert(a < 256 && b < 256 ==> a ^ b < 256) by (bit_vector);
}

/// The gradient index of corner `k` (`k = 4i + 2j + l`, each of `i, j, l` 0
/// or 1) of the lattice cell at `(cx, cy, cz)`: the exclusive or of the three
/// axes' entries for `cx + i`, `cy + j`, `cz + l`.
pub open spec fn corner_spec(
    px: Seq<usize>,
    py: Seq<usize>,
    pz: Seq<usize>,
    cx: u64,
    cy: u64,
    cz: u64,
    k: int,
) -> usize {
    perm_at(px, cx, k / 4) ^ perm_at(py, cy, (k / 2) % 2) ^ perm_at(pz, cz, k % 2)
}

/// The gradient indices of the eight corners of the lattice cell at
/// `(cx, cy, cz)`, each below 256.
pub fn corner_indices(
    px: &Permutation,
    py: &Permutation,
    pz: &Permutation,
    cx: u64,
    cy: u64,
    cz: u64,
) -> (r: [usize; 8])
    requires
        px.wf(),
        py.wf(),
        pz.wf(),
    ensures
        forall|k: int|
            0 <= k < 8 ==> #[trigger] r@[k] == corner_spec(
                px.data_spec(),
                py.data_spec(),
                pz.data_spec(),
                cx,
                cy,
                cz,
                k,
            ) && r@[k] < 256,
{
    let (x0, x1) = px.lookup(cx);
    let (y0, y1) = py.lookup(cy);
    let (z0, z1) = pz.lookup(cz);
    proof {
        lemma_xor_below_period(x0, y0);
        lemma_xor_below_period(x0, y1);
        lemma_xor_below_period(x1, y0);
        lemma_xor_below_period(x1, y1);
        lemma_xor_below_period(x0 ^ y0, z0);
        lemma_xor_below_period(x0 ^ y0, z1);
        lemma_xor_below_period(x0 ^ y1, z0);
        lemma_xor_below_period(x0 ^ y1, z1);
        lemma_xor_below_period(x1 ^ y0, z0);
        lemma_xor_below_period(x1 ^ y0, z1);
        lemma_xor_below_period(x1 ^ y1, z0);
        lemma_xor_below_period(x1 ^ y1, z1);
    }
    let r = [
        x0 ^ y0 ^ z0,
        x0 ^ y0 ^ z1,
        x0 ^ y1 ^ z0,
        x0 ^ y1 ^ z1,
        x1 ^ y0 ^ z0,
        x1 ^ y0 ^ z1,
        x1 ^ y1 ^ z0,
        x1 ^ y1 ^ z1,
    ];
    assert forall|k: int| 0 <= k < 8 implies #[trigger] r@[k] == corner_spec(
        px.data_spec(),
        py.data_spec(),
        pz.data_spec(),
        cx,
        cy,
        cz,
        k,
    ) && r@[k] < 256 by {}
    r
}

} // verus!
