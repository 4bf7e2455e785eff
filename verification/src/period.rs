//! The rotation period of a fixed-width bit window.

use vstd::prelude::*;

verus! {

/// The mask selecting the low `n` bits of a 64-bit word.
pub open spec fn win_mask(n: u64) -> u64
    recommends
        n < 64,
{
    (((1u64 << n) - 1) as u64)
}

/// The window `v` of width `w` repeats after `p` shifts: its value shifted
/// down by `p` equals its low `w - p` bits. At `p == w` the comparison mask
/// is empty and the condition holds trivially.
pub open spec fn is_periodic(v: u64, w: u64, p: u64) -> bool
    recommends
        1 <= p <= w <= 63,
{
    v >> p == v & win_mask((w - p) as u64)
}

/// The smallest shift `q` with `p <= q <= w` at which the window repeats
/// (`w` itself at the latest).
pub open spec fn period_from(v: u64, w: u64, p: u64) -> u64
    recommends
        1 <= p <= w <= 63,
    decreases w - p,
{
    if p >= w || is_periodic(v, w, p) {
        p
    } else {
        period_from(v, w, (p + 1) as u64)
    }
}

/// The period of the window `v` at width `w`: the smallest shift `p >= 1`
/// at which the window repeats. Always within `[1, w]`.
pub open spec fn spec_period(v: u64, w: u64) -> u64
    recommends
        1 <= w <= 63,
        v < (1u64 << w),
{
    period_from(v, w, 1)
}

proof fn lemma_period_from_bounds(v: u64, w: u64, p: u64)
    requires
        1 <= p <= w,
    ensures
        p <= period_from(v, w, p) <= w,
    decreases w - p,
{
    if p < w && !is_periodic(v, w, p) {
        lemma_period_from_bounds(v, w, (p + 1) as u64);
    }
}

/// Every width-`w` window has a period, and it lies between 1 and `w`.
pub proof fn lemma_period_in_range(v: u64, w: u64)
    requires
        1 <= w <= 63,
        v < (1u64 << w),
    ensures
        1 <= spec_period(v, w) <= w,
{
    lemma_period_from_bounds(v, w, 1);
}

/// The window repeats at its period.
pub proof fn lemma_period_is_periodic(v: u64, w: u64)
    requires
        1 <= w <= 63,
        v < (1u64 << w),
    ensures
        is_periodic(v, w, spec_period(v, w)),
{
    lemma_period_from_is_periodic(v, w, 1);
}

proof fn lemma_period_from_is_periodic(v: u64, w: u64, p: u64)
    requires
        1 <= p <= w <= 63,
        v < (1u64 << w),
    ensures
        is_periodic(v, w, period_from(v, w, p)),
    decreases w - p,
{
    if is_periodic(v, w, p) {
    } else if p < w {
        lemma_period_from_is_periodic(v, w, (p + 1) as u64);
    } else {
        assert(v >> w == 0 && v & win_mask(0) == 0) by (bit_vector)
            requires
                1 <= w <= 63,
                v < (1u64 << w),
        ;
    }
}

/// No shift smaller than the period makes the window repeat; equivalently,
/// any repeating shift is an upper bound on the period.
pub proof fn lemma_period_le_periodic(v: u64, w: u64, q: u64)
    requires
        1 <= q <= w <= 63,
        is_periodic(v, w, q),
    ensures
        spec_period(v, w) <= q,
{
    lemma_period_from_le(v, w, 1, q);
}

proof fn lemma_period_from_le(v: u64, w: u64, p: u64, q: u64)
    requires
        1 <= p <= q <= w,
        is_periodic(v, w, q),
    ensures
        period_from(v, w, p) <= q,
    decreases q - p,
{
    if p < q && !is_periodic(v, w, p) {
        lemma_period_from_le(v, w, (p + 1) as u64, q);
    }
}

/// The period of `num` as a `width`-bit cyclic window: the smallest shift
/// `p` in `[1, width]` after which the high bits of the window, moved down,
/// match its low bits under a mask that shrinks as `p` grows.
pub fn cycle_len(num: u64, width: u64) -> (p: u64)
    requires
        1 <= width <= 63,
        num < (1u64 << width),
    ensures
        p == spec_period(num, width),
        1 <= p <= width,
{
    proof {
        assert(1u64 << ((width - 1) as u64) >= 1) by (bit_vector)
            requires
                1 <= width <= 63,
        ;
    }
    let mut left: u64 = num >> 1;
    let mut mask: u64 = (1u64 << (width - 1)) - 1;
    let mut p: u64 = 1;
    loop
        invariant
            1 <= p <= width <= 63,
            num < (1u64 << width),
            left == num >> p,
            mask == win_mask((width - p) as u64),
            period_from(num, width, 1) == period_from(num, width, p),
        decreases width - p,
    {
        if left == num & mask {
            proof {
                lemma_period_from_bounds(num, width, p);
            }
            return p;
        }
        proof {
            // at p == width the comparison would have succeeded
            assert(num >> width == 0 && num & win_mask(0) == 0) by (bit_vector)
                requires
                    1 <= width <= 63,
                    num < (1u64 << width),
            ;
            assert(p < width);
            assert((num >> p) >> 1 == num >> ((p + 1) as u64)) by (bit_vector)
                requires
                    1 <= p < width <= 63,
            ;
            assert(win_mask((width - p) as u64) >> 1 == win_mask((width - p - 1) as u64))
                by (bit_vector)
                requires
                    1 <= p < width <= 63,
            ;
        }
        left = left >> 1;
        mask = mask >> 1;
        p = p + 1;
    }
}

} // verus!
