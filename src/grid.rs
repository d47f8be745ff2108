use vstd::prelude::*;

verus! {

pub open spec fn square(k: int) -> int {
    k * k
}

/// `n` is the square of some integer.
pub open spec fn is_perfect_square(n: int) -> bool {
    exists|k: int| #[trigger] square(k) == n
}

/// Largest `r` with `r * r <= n`.
pub open spec fn is_isqrt(n: int, r: int) -> bool {
    0 <= r && r * r <= n < (r + 1) * (r + 1)
}

/// Integer square root, rounded down.
pub fn isqrt(n: u32) -> (r: u32)
    ensures
        is_isqrt(n as int, r as int),
{
    let mut lo: u64 = 0;
    let mut hi: u64 = 65536;
    assert(hi * hi > u32::MAX) by (nonlinear_arith)
        requires
            hi == 65536,
    ;
    while lo + 1 < hi
        invariant
            lo < hi <= 65536,
            lo * lo <= n,
            n < hi * hi,
        decreases hi - lo,
    {
        let mid: u64 = lo + (hi - lo) / 2;
        assert(mid * mid <= 65536 * 65536) by (nonlinear_arith)
            requires
                mid <= 65536,
        ;
        if mid * mid <= n as u64 {
            lo = mid;
        } else {
            hi = mid;
        }
    }
    assert(hi == lo + 1);
    lo as u32
}

/// The integer part of a view plane: its resolution in pixels and the
/// stratified sampling grid laid over every pixel.
///
/// The number of samples per pixel is a positive perfect square `side * side`;
/// each pixel is split into `side` by `side` cells and every cell is sampled
/// once per pass.
pub struct ViewGrid {
    hres: u32,
    vres: u32,
    samples: u32,
    side: u32,
}

impl ViewGrid {
    pub closed spec fn spec_hres(&self) -> u32 {
        self.hres
    }

    pub closed spec fn spec_vres(&self) -> u32 {
        self.vres
    }

    pub closed spec fn spec_samples(&self) -> u32 {
        self.samples
    }

    pub closed spec fn spec_side(&self) -> u32 {
        self.side
    }

    /// The sampling grid is square and not empty.
    pub open spec fn wf(&self) -> bool {
        &&& self.samples() >= 1
        &&& self.side() * self.side() == self.samples()
    }

    /// A grid of `hres` by `vres` pixels with `samples` samples per pixel.
    /// A sample count that is zero or not a perfect square is refused.
    pub fn new(hres: u32, vres: u32, samples: u32) -> (r: Option<ViewGrid>)
        ensures
            r is Some <==> samples >= 1 && is_perfect_square(samples as int),
            r matches Some(g) ==> {
                &&& g.wf()
                &&& g.hres() == hres
                &&& g.vres() == vres
                &&& g.samples() == samples
            },
    {
        let side = isqrt(samples);
        if samples >= 1 && side * side == samples {
            assert(square(side as int) == samples);
            Some(ViewGrid { hres, vres, samples, side })
        } else {
            proof {
                if samples >= 1 {
                    assert forall|k: int| #[trigger] square(k) != samples by {
                        lemma_square_between(k, side as int, samples as int);
                    }
                }
            }
            None
        }
    }

    /// Horizontal resolution in pixels.
    #[verifier::when_used_as_spec(spec_hres)]
    pub fn hres(&self) -> (r: u32)
        ensures
            r == self.hres(),
    {
        self.hres
    }

    /// Vertical resolution in pixels.
    #[verifier::when_used_as_spec(spec_vres)]
    pub fn vres(&self) -> (r: u32)
        ensures
            r == self.vres(),
    {
        self.vres
    }

    /// Samples per pixel.
    #[verifier::when_used_as_spec(spec_samples)]
    pub fn samples(&self) -> (r: u32)
        ensures
            r == self.samples(),
    {
        self.samples
    }

    /// Cells per side of the stratified sampling grid.
    #[verifier::when_used_as_spec(spec_side)]
    pub fn side(&self) -> (r: u32)
        ensures
            r == self.side(),
    {
        self.side
    }
}

/// No square lies strictly between `r * r` and `(r + 1) * (r + 1)`.
proof fn lemma_square_between(k: int, r: int, n: int)
    requires
        is_isqrt(n, r),
        r * r != n,
    ensures
        k * k != n,
{
    let j = if k < 0 { -k } else { k };
    assert(k * k == j * j) by (nonlinear_arith)
        requires
            j == k || j == -k,
    ;
    if j <= r {
        assert(j * j <= r * r) by (nonlinear_arith)
            requires
                0 <= j <= r,
        ;
    } else {
        assert(j * j >= (r + 1) * (r + 1)) by (nonlinear_arith)
            requires
                r + 1 <= j,
                0 <= r,
        ;
    }
}

} // verus!
