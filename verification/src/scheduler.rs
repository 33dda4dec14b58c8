use vstd::arithmetic::div_mod::{lemma_fundamental_div_mod, lemma_fundamental_div_mod_converse};
use vstd::arithmetic::mul::lemma_mul_inequality;
use vstd::prelude::*;

verus! {

/// The rows that worker `i` of `threads` renders: the half-open band of
/// `height / threads` consecutive rows starting at `i` times that count.
/// The band never reaches past the framebuffer; when `threads` does not
/// divide `height`, the remainder rows at the bottom belong to no band.
pub fn band_rows(height: usize, threads: usize, i: usize) -> (band: (usize, usize))
    requires
        1 <= threads,
        i < threads,
    ensures
        band.0 == (height / threads) * i,
        band.1 == (height / threads) * (i + 1),
        band.0 <= band.1 <= height,
{
    let chunk = height / threads;
    proof {
        let c = chunk as int;
        let t = threads as int;
        let ii = i as int;
        lemma_fundamental_div_mod(height as int, t);
        lemma_mul_inequality(ii + 1, t, c);
        lemma_mul_inequality(ii, ii + 1, c);
        assert(c * (ii + 1) == (ii + 1) * c) by (nonlinear_arith);
        assert(c * ii == ii * c) by (nonlinear_arith);
        assert(t * c == c * t) by (nonlinear_arith);
    }
    (chunk * i, chunk * (i + 1))
}

/// Every row of the image that the render visits is visited by exactly one
/// worker: a row `r` lies in the band of worker `i` exactly when `i` is
/// `r` divided by the band height, so distinct workers' bands never meet,
/// and each row below `(height / threads) * threads` lies in one of them.
pub proof fn lemma_bands_partition(height: int, threads: int, i: int, r: int)
    requires
        1 <= threads,
        0 <= i < threads,
        0 <= r,
        height / threads >= 1,
    ensures
        ((height / threads) * i <= r < (height / threads) * (i + 1)) <==> i == r / (height
            / threads),
{
    let c = height / threads;
    assert(c * (i + 1) == c * i + c) by (nonlinear_arith);
    if c * i <= r < c * (i + 1) {
        assert(r == i * c + (r - c * i)) by (nonlinear_arith);
        lemma_fundamental_div_mod_converse(r, c, i, r - c * i);
    }
    if i == r / c {
        lemma_fundamental_div_mod(r, c);
        assert(c * i <= r < c * (i + 1));
    }
}

} // verus!
