//! The outline of a rectangular body: its outermost particles, in the order
//! of one walk round the lattice.

use crate::spring::site;
use vstd::prelude::*;

verus! {

/// Number of particles on the rim of a lattice of `w` columns and `h` rows.
pub open spec fn ring_len(w: int, h: int) -> int {
    2 * w + 2 * h - 4
}

/// Column and row of stop `t` of the walk: along the first row from the
/// first column to the last, along the last column to the last row, back
/// along the last row, and back along the first column, ending one short of
/// where it began.
pub open spec fn ring_stop(w: int, h: int, t: int) -> (int, int) {
    if t < w {
        (t, 0)
    } else if t < w + h - 1 {
        (w - 1, t - w + 1)
    } else if t < 2 * w + h - 3 {
        (2 * w + h - 3 - t, h - 1)
    } else {
        (0, 2 * w + 2 * h - 4 - t)
    }
}

/// The stop after `t`, the walk being closed.
pub open spec fn ring_next(w: int, h: int, t: int) -> int {
    if t + 1 == ring_len(w, h) {
        0
    } else {
        t + 1
    }
}

/// The indices of the rim particles of a `w` by `h` body whose first
/// particle has index `base`, in walking order.
pub open spec fn ring(base: int, w: int, h: int) -> Seq<usize> {
    Seq::new(
        ring_len(w, h) as nat,
        |t: int| site(base, h, ring_stop(w, h, t).0, ring_stop(w, h, t).1) as usize,
    )
}

/// Column `i`, row `j` lies on the rim of the lattice.
pub open spec fn on_rim(w: int, h: int, i: int, j: int) -> bool {
    &&& 0 <= i < w
    &&& 0 <= j < h
    &&& i == 0 || i == w - 1 || j == 0 || j == h - 1
}

/// Every stop of the walk lies on the rim.
pub proof fn lemma_ring_on_rim(w: int, h: int, t: int)
    requires
        w >= 2,
        h >= 2,
        0 <= t < ring_len(w, h),
    ensures
        on_rim(w, h, ring_stop(w, h, t).0, ring_stop(w, h, t).1),
{
}

/// Every particle on the rim is a stop of the walk.
pub proof fn lemma_ring_covers_rim(w: int, h: int, i: int, j: int)
    requires
        w >= 2,
        h >= 2,
        on_rim(w, h, i, j),
    ensures
        exists|t: int| 0 <= t < ring_len(w, h) && #[trigger] ring_stop(w, h, t) == (i, j),
{
    let t = if j == 0 {
        i
    } else if i == w - 1 {
        w - 1 + j
    } else if j == h - 1 {
        2 * w + h - 3 - i
    } else {
        2 * w + 2 * h - 4 - j
    };
    assert(ring_stop(w, h, t) == (i, j));
}

/// The walk passes no particle twice.
pub proof fn lemma_ring_simple(w: int, h: int, t: int, u: int)
    requires
        w >= 2,
        h >= 2,
        0 <= t < ring_len(w, h),
        0 <= u < ring_len(w, h),
        ring_stop(w, h, t) == ring_stop(w, h, u),
    ensures
        t == u,
{
}

/// Each stop of the walk, the last one too, is followed by a particle that
/// is its neighbour along a row or along a column: the walk is closed and
/// makes no jumps.
pub proof fn lemma_ring_steps(w: int, h: int, t: int)
    requires
        w >= 2,
        h >= 2,
        0 <= t < ring_len(w, h),
    ensures
        ({
            let (i, j) = ring_stop(w, h, t);
            let (i2, j2) = ring_stop(w, h, ring_next(w, h, t));
            ||| i2 == i && (j2 == j + 1 || j2 == j - 1)
            ||| j2 == j && (i2 == i + 1 || i2 == i - 1)
        }),
{
}

/// Appends the outline of a body to `boundaries`.
pub(crate) fn push_ring(boundaries: &mut Vec<usize>, base: usize, w: usize, h: usize)
    requires
        w >= 2,
        h >= 2,
        base + w * h <= usize::MAX,
    ensures
        final(boundaries)@ == old(boundaries)@ + ring(base as int, w as int, h as int),
{
    let ghost before = boundaries@;
    let ghost target = ring(base as int, w as int, h as int);
    proof {
        assert(h <= w * h && w <= w * h && (w - 1) * h + h == w * h) by (nonlinear_arith)
            requires
                w >= 2,
                h >= 2,
        ;
    }
    let mut n: usize = 0;
    while n < w
        invariant
            w >= 2,
            h >= 2,
            base + w * h <= usize::MAX,
            n <= w,
            target == ring(base as int, w as int, h as int),
            boundaries@ == before + target.subrange(0, n as int),
        decreases w - n,
    {
        proof {
            assert(0 <= n * h && n * h + h <= w * h) by (nonlinear_arith)
                requires
                    n < w,
                    h >= 2,
            ;
        }
        boundaries.push(base + n * h);
        assert(target.subrange(0, n as int).push(target[n as int]) == target.subrange(
            0,
            n + 1,
        ));
        n += 1;
    }
    let last: usize = (w - 1) * h;
    let mut n: usize = 1;
    while n < h
        invariant
            w >= 2,
            h >= 2,
            base + w * h <= usize::MAX,
            last == (w - 1) * h,
            last + h == w * h,
            1 <= n <= h,
            target == ring(base as int, w as int, h as int),
            boundaries@ == before + target.subrange(0, w + n - 1),
        decreases h - n,
    {
        boundaries.push(base + last + n);
        assert(target.subrange(0, w + n - 1).push(target[w + n - 1]) == target.subrange(
            0,
            w + n,
        ));
        n += 1;
    }
    let mut n: usize = w - 1;
    while n > 1
        invariant
            w >= 2,
            h >= 2,
            base + w * h <= usize::MAX,
            1 <= n <= w - 1,
            target == ring(base as int, w as int, h as int),
            boundaries@ == before + target.subrange(0, 2 * w + h - 2 - n),
        decreases n,
    {
        n -= 1;
        proof {
            assert(0 <= n * h && n * h + h <= w * h) by (nonlinear_arith)
                requires
                    n < w,
                    h >= 2,
            ;
        }
        boundaries.push(base + n * h + (h - 1));
        assert(target.subrange(0, 2 * w + h - 3 - n).push(target[2 * w + h - 3 - n])
            == target.subrange(0, 2 * w + h - 2 - n));
    }
    let mut n: usize = h;
    while n > 1
        invariant
            w >= 2,
            h >= 2,
            base + w * h <= usize::MAX,
            h <= w * h,
            1 <= n <= h,
            target == ring(base as int, w as int, h as int),
            boundaries@ == before + target.subrange(0, 2 * w + 2 * h - 3 - n),
        decreases n,
    {
        n -= 1;
        proof {
            let t = 2 * w + 2 * h - 4 - n;
            assert(ring_stop(w as int, h as int, t) == (0int, n as int));
            assert(site(base as int, h as int, 0, n as int) == base + n);
            assert(target[t] == base + n);
        }
        boundaries.push(base + n);
        assert(target.subrange(0, 2 * w + 2 * h - 4 - n).push(target[2 * w + 2 * h - 4 - n])
            == target.subrange(0, 2 * w + 2 * h - 3 - n));
    }
    assert(target.subrange(0, 2 * w + 2 * h - 4) == target);
}

} // verus!
