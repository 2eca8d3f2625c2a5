use vstd::prelude::*;
use crate::scalar::{Scalar, ZERO_BITS};

verus! {

/// The running maximum of a scan over `lums` that starts at `+0` and takes
/// each value that is greater (by IEEE `>`) than the maximum so far.
pub open spec fn scan_max(lums: Seq<Scalar>) -> Scalar
    decreases lums.len(),
{
    if lums.len() == 0 {
        Scalar { bits: ZERO_BITS }
    } else {
        let prev = scan_max(lums.drop_last());
        if prev.lt_spec(lums.last()) { lums.last() } else { prev }
    }
}

/// The largest luminance of an image, given the luminance of each pixel in
/// scan order; `+0` when no luminance is above zero.
pub fn max_scene_lum(lums: &[Scalar]) -> (r: Scalar)
    ensures
        r == scan_max(lums@),
{
    let mut max = Scalar::zero();
    let n = lums.len();
    for k in 0..n
        invariant
            n == lums@.len(),
            max == scan_max(lums@.take(k as int)),
    {
        proof {
            assert(lums@.take(k + 1).drop_last() =~= lums@.take(k as int));
        }
        let lum = lums[k];
        if lum.gt(&max) {
            max = lum;
        }
    }
    proof {
        assert(lums@.take(n as int) =~= lums@);
    }
    max
}

/// The scan's maximum is `+0` or one of the luminances, is not a NaN, and is
/// at least zero and at least every luminance that is not a NaN.
pub proof fn lemma_scan_max(lums: Seq<Scalar>)
    ensures
        scan_max(lums) == (Scalar { bits: ZERO_BITS }) || lums.contains(scan_max(lums)),
        !scan_max(lums).is_nan_spec(),
        (Scalar { bits: ZERO_BITS }).le_spec(scan_max(lums)),
        forall|k: int| 0 <= k < lums.len() && !(#[trigger] lums[k]).is_nan_spec() ==> lums[k].le_spec(scan_max(lums)),
    decreases lums.len(),
{
    if lums.len() > 0 {
        let prev = lums.drop_last();
        lemma_scan_max(prev);
        assert forall|k: int| 0 <= k < lums.len() && !(#[trigger] lums[k]).is_nan_spec()
            implies lums[k].le_spec(scan_max(lums)) by {
            if k < lums.len() - 1 {
                assert(prev[k] == lums[k]);
            } else {
                crate::scalar::lemma_trichotomy(lums[k], scan_max(prev));
            }
        }
        if scan_max(lums) != (Scalar { bits: ZERO_BITS }) {
            if scan_max(lums) == scan_max(prev) {
                let j = choose|j: int| 0 <= j < prev.len() && prev[j] == scan_max(prev);
                assert(lums[j] == scan_max(lums));
            } else {
                assert(lums[lums.len() - 1] == scan_max(lums));
            }
        }
    }
}

} // verus!
