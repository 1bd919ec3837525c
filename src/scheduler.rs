//! Handing out image rows to workers, and the framebuffer the rows go to.
//!
//! Workers share one `RowCounter` behind a lock; each claims rows until the
//! counter has none left, renders a claimed row on its own, and copies it
//! into the shared `Framebuffer` under the framebuffer's lock.
use vstd::prelude::*;

verus! {

/// What a claim on a counter at `next`, for an image of `height` rows,
/// returns: the row `next` while rows are left.
pub open spec fn claim_result(next: nat, height: nat) -> Option<nat> {
    if next < height {
        Some(next)
    } else {
        None
    }
}

/// Where the counter stands after that claim.
pub open spec fn claim_next(next: nat, height: nat) -> nat {
    if next < height {
        next + 1
    } else {
        next
    }
}

/// The results of `k` claims in a row on a counter at `next`, whichever
/// workers make them.
pub open spec fn claims(next: nat, height: nat, k: nat) -> Seq<Option<nat>>
    decreases k,
{
    if k == 0 {
        Seq::empty()
    } else {
        seq![claim_result(next, height)] + claims(claim_next(next, height), height, (k - 1) as nat)
    }
}

/// The shared counter of the next row to render.
pub struct RowCounter {
    next: u32,
    height: u32,
}

impl RowCounter {
    pub closed spec fn next_spec(&self) -> nat {
        self.next as nat
    }

    pub closed spec fn height_spec(&self) -> nat {
        self.height as nat
    }

    /// No row beyond the image is ever handed out.
    pub open spec fn wf(&self) -> bool {
        self.next_spec() <= self.height_spec()
    }

    /// A counter for an image of `height` rows, at row 0.
    pub fn new(height: u32) -> (r: RowCounter)
        ensures
            r.wf(),
            r.next_spec() == 0,
            r.height_spec() == height,
    {
        RowCounter { next: 0, height }
    }

    /// Claims the next row: returns it and moves the counter on, or returns
    /// none, and leaves the counter, once every row has been handed out.
    pub fn get_and_increment(&mut self) -> (r: Option<u32>)
        requires
            old(self).wf(),
        ensures
            final(self).wf(),
            final(self).height_spec() == old(self).height_spec(),
            final(self).next_spec() == claim_next(old(self).next_spec(), old(self).height_spec()),
            r matches Some(row) ==> claim_result(
                old(self).next_spec(),
                old(self).height_spec(),
            ) == Some(row as nat),
            r is None ==> claim_result(old(self).next_spec(), old(self).height_spec()) is None,
    {
        if self.next < self.height {
            let row = self.next;
            self.next = self.next + 1;
            Some(row)
        } else {
            None
        }
    }
}

/// The `i`-th of `k` claims on a counter at `next` (`next <= height`) gets
/// row `next + i` while that is a row of the image, and none after.
pub proof fn lemma_claims_in_order(next: nat, height: nat, k: nat, i: int)
    requires
        next <= height,
        0 <= i < k,
    ensures
        claims(next, height, k).len() == k,
        claims(next, height, k)[i] == if next + i < height {
            Some((next + i) as nat)
        } else {
            None
        },
    decreases k,
{
    let rest = claims(claim_next(next, height), height, (k - 1) as nat);
    if k > 1 {
        lemma_claims_in_order(claim_next(next, height), height, (k - 1) as nat, 0);
    }
    if i > 0 {
        lemma_claims_in_order(claim_next(next, height), height, (k - 1) as nat, i - 1);
        assert(claims(next, height, k)[i] == rest[i - 1]);
    }
}

/// Whatever number of workers share a fresh counter, and whichever of them
/// (`owners[i]`) makes the `i`-th claim: once at least `height` claims have
/// been made, every row of the image has been handed to exactly one claim,
/// and so to one worker, and no claim got a row outside the image.
pub proof fn lemma_rows_claimed_once(height: nat, workers: nat, owners: Seq<nat>)
    requires
        workers >= 1,
        owners.len() >= height,
        forall|i: int| 0 <= i < owners.len() ==> #[trigger] owners[i] < workers,
    ensures
        forall|i: int|
            0 <= i < owners.len() ==> (#[trigger] claims(0, height, owners.len())[i] matches Some(
                row,
            ) ==> row < height),
        forall|row: nat| row < height ==> #[trigger] claims(0, height, owners.len()).contains(Some(row)),
        forall|i: int, j: int|
            0 <= i < owners.len() && 0 <= j < owners.len() && #[trigger] claims(
                0,
                height,
                owners.len(),
            )[i] is Some && claims(0, height, owners.len())[i] == #[trigger] claims(
                0,
                height,
                owners.len(),
            )[j] ==> i == j,
{
    let k = owners.len();
    let c = claims(0, height, k);
    if k > 0 {
        lemma_claims_in_order(0, height, k, 0);
    }
    assert forall|i: int| 0 <= i < k implies #[trigger] c[i] == if i < height {
        Some(i as nat)
    } else {
        None
    } by {
        lemma_claims_in_order(0, height, k, i);
    }
    assert forall|row: nat| row < height implies #[trigger] c.contains(Some(row)) by {
        lemma_claims_in_order(0, height, k, row as int);
        assert(c[row as int] == Some(row));
    }
}

/// The rendered image: `width * height` pixels, row after row, and for each
/// row whether it has been written.
pub struct Framebuffer {
    width: usize,
    height: usize,
    pixels: Vec<(u8, u8, u8)>,
    filled: Vec<bool>,
}

impl Framebuffer {
    pub closed spec fn width_spec(&self) -> nat {
        self.width as nat
    }

    pub closed spec fn height_spec(&self) -> nat {
        self.height as nat
    }

    /// The pixels, row after row.
    pub closed spec fn pixels_spec(&self) -> Seq<(u8, u8, u8)> {
        self.pixels@
    }

    /// For each row, whether it has been written.
    pub closed spec fn filled_spec(&self) -> Seq<bool> {
        self.filled@
    }

    pub open spec fn wf(&self) -> bool {
        &&& self.pixels_spec().len() == self.width_spec() * self.height_spec()
        &&& self.filled_spec().len() == self.height_spec()
    }

    /// A black image with no row written.
    pub fn new(width: usize, height: usize) -> (r: Framebuffer)
        requires
            width * height <= usize::MAX,
        ensures
            r.wf(),
            r.width_spec() == width,
            r.height_spec() == height,
            forall|i: int| 0 <= i < r.pixels_spec().len() ==> #[trigger] r.pixels_spec()[i] == (0u8, 0u8, 0u8),
            forall|y: int| 0 <= y < height ==> !#[trigger] r.filled_spec()[y],
    {
        let n = width * height;
        let mut pixels: Vec<(u8, u8, u8)> = Vec::new();
        let mut i: usize = 0;
        while i < n
            invariant
                i <= n,
                pixels@.len() == i,
                forall|j: int| 0 <= j < i ==> #[trigger] pixels@[j] == (0u8, 0u8, 0u8),
            decreases n - i,
        {
            pixels.push((0u8, 0u8, 0u8));
            i += 1;
        }
        let mut filled: Vec<bool> = Vec::new();
        let mut y: usize = 0;
        while y < height
            invariant
                y <= height,
                filled@.len() == y,
                forall|j: int| 0 <= j < y ==> !#[trigger] filled@[j],
            decreases height - y,
        {
            filled.push(false);
            y += 1;
        }
        Framebuffer { width, height, pixels, filled }
    }

    pub fn width(&self) -> (r: usize)
        ensures
            r == self.width_spec(),
    {
        self.width
    }

    pub fn height(&self) -> (r: usize)
        ensures
            r == self.height_spec(),
    {
        self.height
    }

    /// Copies a finished row into the image and marks it written; every
    /// other pixel and row mark stays as it was.
    pub fn put_row(&mut self, y: usize, row: &Vec<(u8, u8, u8)>)
        requires
            old(self).wf(),
            y < old(self).height_spec(),
            row@.len() == old(self).width_spec(),
        ensures
            final(self).wf(),
            final(self).width_spec() == old(self).width_spec(),
            final(self).height_spec() == old(self).height_spec(),
            forall|i: int|
                0 <= i < final(self).pixels_spec().len() ==> #[trigger] final(self).pixels_spec()[i]
                    == if y * old(self).width_spec() <= i < (y + 1) * old(self).width_spec() {
                    row@[i - y * old(self).width_spec()]
                } else {
                    old(self).pixels_spec()[i]
                },
            final(self).filled_spec() == old(self).filled_spec().update(y as int, true),
    {
        let w = self.width;
        let len = self.pixels.len();
        proof {
            assert(self.pixels@.len() == self.width * self.height);
            assert(self.filled@.len() == self.height);
            assert((y + 1) * w <= self.height * w) by (nonlinear_arith)
                requires
                    y < self.height,
            ;
            assert(self.height * w == w * self.height) by (nonlinear_arith);
            assert((y + 1) * w == y * w + w) by (nonlinear_arith);
        }
        let base = y * w;
        let ghost before = self.pixels@;
        let mut x: usize = 0;
        while x < w
            invariant
                x <= w,
                w == self.width,
                base == y * w,
                base + w <= self.pixels@.len(),
                self.filled@ == old(self).filled@,
                self.height == old(self).height,
                self.filled@.len() == self.height,
                len == self.pixels@.len(),
                y < self.height,
                self.pixels@.len() == self.width * self.height,
                row@.len() == w,
                self.pixels@.len() == before.len(),
                forall|i: int|
                    0 <= i < self.pixels@.len() ==> #[trigger] self.pixels@[i] == if base <= i
                        < base + x {
                        row@[i - base]
                    } else {
                        before[i]
                    },
            decreases w - x,
        {
            self.pixels.set(base + x, row[x]);
            x += 1;
        }
        self.filled.set(y, true);
    }

    /// The pixel at column `x` of row `y`.
    pub fn pixel(&self, x: usize, y: usize) -> (r: (u8, u8, u8))
        requires
            self.wf(),
            x < self.width_spec(),
            y < self.height_spec(),
        ensures
            r == self.pixels_spec()[y * self.width_spec() + x],
    {
        let len = self.pixels.len();
        proof {
            assert(y * self.width + x < self.height * self.width) by (nonlinear_arith)
                requires
                    x < self.width,
                    y < self.height,
            ;
            assert(self.height * self.width == self.width * self.height) by (nonlinear_arith);
        }
        self.pixels[y * self.width + x]
    }

    /// Whether every row has been written.
    pub fn is_complete(&self) -> (r: bool)
        requires
            self.wf(),
        ensures
            r == forall|y: int| 0 <= y < self.height_spec() ==> #[trigger] self.filled_spec()[y],
    {
        let mut y: usize = 0;
        while y < self.height
            invariant
                y <= self.height,
                self.filled@.len() == self.height,
                forall|j: int| 0 <= j < y ==> #[trigger] self.filled@[j],
            decreases self.height - y,
        {
            if !self.filled[y] {
                assert(!self.filled_spec()[y as int]);
                return false;
            }
            y += 1;
        }
        true
    }
}

} // verus!
