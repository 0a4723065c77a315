//! Springs and the wiring of a rectangular lattice.
//!
//! A body of `w` columns and `h` rows keeps its particles column by column:
//! the particle of column `i` and row `j` has index `base + i * h + j`. Every
//! particle is tied to its right, lower, lower-right and lower-left
//! neighbour, as far as the lattice has them.

use vstd::prelude::*;

verus! {

/// Which of the two rest lengths a spring has: one lattice spacing, or the
/// diagonal of a lattice cell.
#[derive(Clone, Copy, Debug, PartialEq, Eq, Structural)]
pub enum SpringKind {
    Orthogonal,
    Diagonal,
}

/// A damped elastic tie between the particles with indices `a` and `b`.
#[derive(Clone, Copy, Debug, PartialEq, Eq, Structural)]
pub struct Spring {
    pub a: usize,
    pub b: usize,
    pub kind: SpringKind,
}

impl Spring {
    pub fn new(a: usize, b: usize, kind: SpringKind) -> (r: Self)
        ensures
            r == (Spring { a, b, kind }),
    {
        Self { a, b, kind }
    }
}

/// Index of the particle in column `i` and row `j` of a lattice of `h` rows
/// whose first particle has index `base`.
pub open spec fn site(base: int, h: int, i: int, j: int) -> int {
    base + i * h + j
}

/// The spring from index `a` to index `b`.
pub open spec fn link(a: int, b: int, kind: SpringKind) -> Spring {
    Spring { a: a as usize, b: b as usize, kind }
}

/// The springs that start at column `i`, row `j`: to the right, down, down
/// and right, down and left, in that order, each only where the lattice has
/// that neighbour.
pub open spec fn site_springs(base: int, w: int, h: int, i: int, j: int) -> Seq<Spring> {
    let ind = site(base, h, i, j);
    let right = if i < w - 1 {
        seq![link(ind, ind + h, SpringKind::Orthogonal)]
    } else {
        Seq::empty()
    };
    let down = if j < h - 1 {
        seq![link(ind, ind + 1, SpringKind::Orthogonal)]
    } else {
        Seq::empty()
    };
    let down_right = if i < w - 1 && j < h - 1 {
        seq![link(ind, ind + h + 1, SpringKind::Diagonal)]
    } else {
        Seq::empty()
    };
    let down_left = if i > 0 && j < h - 1 {
        seq![link(ind, ind - h + 1, SpringKind::Diagonal)]
    } else {
        Seq::empty()
    };
    right + down + down_right + down_left
}

/// The springs that start in the first `j` rows of column `i`.
pub open spec fn column_springs(base: int, w: int, h: int, i: int, j: nat) -> Seq<Spring>
    decreases j,
{
    if j == 0 {
        Seq::empty()
    } else {
        column_springs(base, w, h, i, (j - 1) as nat) + site_springs(base, w, h, i, j - 1)
    }
}

/// The springs that start in the first `i` columns.
pub open spec fn lattice_springs(base: int, w: int, h: int, i: nat) -> Seq<Spring>
    decreases i,
{
    if i == 0 {
        Seq::empty()
    } else {
        lattice_springs(base, w, h, (i - 1) as nat) + column_springs(base, w, h, i - 1, h as nat)
    }
}

/// All springs of a `w` by `h` body whose first particle has index `base`,
/// in the order in which they are stored.
pub open spec fn body_springs(base: int, w: int, h: int) -> Seq<Spring> {
    lattice_springs(base, w, h, w as nat)
}

/// Number of springs of a `w` by `h` body: the horizontal ties, the vertical
/// ties, and two diagonals for every cell.
pub open spec fn spring_count(w: int, h: int) -> int {
    (w - 1) * h + w * (h - 1) + 2 * (w - 1) * (h - 1)
}

/// Springs that start at one particle of column `i` above the last row.
spec fn fan(w: int, i: int) -> int {
    1 + (if i < w - 1 { 2int } else { 0int }) + (if i > 0 { 1int } else { 0int })
}

proof fn lemma_column_len(base: int, w: int, h: int, i: int, j: nat)
    requires
        h >= 1,
        j <= h,
    ensures
        j < h ==> column_springs(base, w, h, i, j).len() == j * fan(w, i),
        j == h ==> column_springs(base, w, h, i, j).len() == (h - 1) * fan(w, i) + (if i < w
            - 1 { 1int } else { 0int }),
    decreases j,
{
    if j > 0 {
        lemma_column_len(base, w, h, i, (j - 1) as nat);
        assert(j * fan(w, i) == (j - 1) * fan(w, i) + fan(w, i)) by (nonlinear_arith);
    } else {
        assert(0 * fan(w, i) == 0) by (nonlinear_arith);
    }
}

proof fn lemma_lattice_len(base: int, w: int, h: int, i: nat)
    requires
        w >= 2,
        h >= 1,
        i <= w,
    ensures
        i == 0 ==> lattice_springs(base, w, h, i).len() == 0,
        0 < i < w ==> lattice_springs(base, w, h, i).len() == (i - 1) * (4 * h - 3) + 3 * h - 2,
        i == w ==> lattice_springs(base, w, h, i).len() == spring_count(w, h),
    decreases i,
{
    if i > 0 {
        lemma_lattice_len(base, w, h, (i - 1) as nat);
        lemma_column_len(base, w, h, i - 1, h as nat);
        let f = fan(w, i - 1);
        if i == 1 {
            assert(f == 3);
            assert((h - 1) * f == 3 * h - 3) by (nonlinear_arith)
                requires
                    f == 3,
            ;
            assert((i - 1) * (4 * h - 3) == 0) by (nonlinear_arith)
                requires
                    i == 1,
            ;
        } else if i < w {
            assert(f == 4);
            assert((h - 1) * f == 4 * h - 4) by (nonlinear_arith)
                requires
                    f == 4,
            ;
            assert((i - 1) * (4 * h - 3) == (i - 2) * (4 * h - 3) + 4 * h - 3)
                by (nonlinear_arith);
        } else {
            assert(f == 2);
            assert((h - 1) * f == 2 * h - 2) by (nonlinear_arith)
                requires
                    f == 2,
            ;
            assert(spring_count(w, h) == (w - 2) * (4 * h - 3) + 3 * h - 2 + 2 * h - 2)
                by (nonlinear_arith);
        }
    }
}

/// A body of `w` columns and `h` rows has `(w - 1) * h` horizontal springs,
/// `w * (h - 1)` vertical ones and two diagonals in each of its
/// `(w - 1) * (h - 1)` cells.
pub proof fn lemma_spring_count(base: int, w: int, h: int)
    requires
        w >= 2,
        h >= 2,
    ensures
        body_springs(base, w, h).len() == spring_count(w, h),
{
    lemma_lattice_len(base, w, h, w as nat);
}

/// The spring `s` ties the particle of column `i`, row `j` to the one `di`
/// columns and `dj` rows further on, both inside the lattice, and has the
/// kind that this step calls for.
pub open spec fn joins(
    s: Spring,
    base: int,
    w: int,
    h: int,
    i: int,
    j: int,
    di: int,
    dj: int,
) -> bool {
    &&& 0 <= i < w && 0 <= j < h
    &&& 0 <= i + di < w && 0 <= j + dj < h
    &&& (di == 1 && dj == 0) || (dj == 1 && -1 <= di <= 1)
    &&& s.a == site(base, h, i, j)
    &&& s.b == site(base, h, i + di, j + dj)
    &&& s.kind == if di == 0 || dj == 0 {
        SpringKind::Orthogonal
    } else {
        SpringKind::Diagonal
    }
}

/// The spring `s` ties two neighbouring particles of the lattice.
pub open spec fn is_link(s: Spring, base: int, w: int, h: int) -> bool {
    exists|i: int, j: int, di: int, dj: int| joins(s, base, w, h, i, j, di, dj)
}

/// Inside a lattice of `w` columns and `h` rows the indices of the particles
/// stay below `base + w * h`, and two different places have two different
/// indices.
pub proof fn lemma_site_bounds(base: int, w: int, h: int, i: int, j: int)
    requires
        0 <= i < w,
        0 <= j < h,
    ensures
        base <= site(base, h, i, j) < base + w * h,
        forall|i2: int, j2: int|
            0 <= j2 < h && #[trigger] site(base, h, i2, j2) == site(base, h, i, j) ==> i2 == i
                && j2 == j,
{
    assert(0 <= i * h && i * h + h <= w * h) by (nonlinear_arith)
        requires
            0 <= i < w,
            0 < h,
    ;
    assert forall|i2: int, j2: int|
        0 <= j2 < h && #[trigger] site(base, h, i2, j2) == site(base, h, i, j) implies i2 == i
        && j2 == j by {
        assert(i2 == i) by (nonlinear_arith)
            requires
                i2 * h + j2 == i * h + j,
                0 <= j2 < h,
                0 <= j < h,
        ;
    }
}

proof fn lemma_concat_contains(a: Seq<Spring>, b: Seq<Spring>, x: Spring)
    ensures
        (a + b).contains(x) <==> a.contains(x) || b.contains(x),
{
    if a.contains(x) {
        let k = choose|k: int| 0 <= k < a.len() && a[k] == x;
        assert((a + b)[k] == x);
    }
    if b.contains(x) {
        let k = choose|k: int| 0 <= k < b.len() && b[k] == x;
        assert((a + b)[a.len() + k] == x);
    }
    if (a + b).contains(x) {
        let k = choose|k: int| 0 <= k < (a + b).len() && (a + b)[k] == x;
        if k < a.len() {
            assert(a[k] == x);
        } else {
            assert(b[k - a.len()] == x);
        }
    }
}

/// What `site_springs` holds, one spring at a time.
proof fn lemma_site_contains(base: int, w: int, h: int, i: int, j: int, x: Spring)
    ensures
        site_springs(base, w, h, i, j).contains(x) <==> {
            let ind = site(base, h, i, j);
            ||| i < w - 1 && x == link(ind, ind + h, SpringKind::Orthogonal)
            ||| j < h - 1 && x == link(ind, ind + 1, SpringKind::Orthogonal)
            ||| i < w - 1 && j < h - 1 && x == link(ind, ind + h + 1, SpringKind::Diagonal)
            ||| i > 0 && j < h - 1 && x == link(ind, ind - h + 1, SpringKind::Diagonal)
        },
{
    let ind = site(base, h, i, j);
    let right = if i < w - 1 {
        seq![link(ind, ind + h, SpringKind::Orthogonal)]
    } else {
        Seq::empty()
    };
    let down = if j < h - 1 {
        seq![link(ind, ind + 1, SpringKind::Orthogonal)]
    } else {
        Seq::empty()
    };
    let down_right = if i < w - 1 && j < h - 1 {
        seq![link(ind, ind + h + 1, SpringKind::Diagonal)]
    } else {
        Seq::empty()
    };
    let down_left = if i > 0 && j < h - 1 {
        seq![link(ind, ind - h + 1, SpringKind::Diagonal)]
    } else {
        Seq::empty()
    };
    lemma_concat_contains(right + down + down_right, down_left, x);
    lemma_concat_contains(right + down, down_right, x);
    lemma_concat_contains(right, down, x);
    if i < w - 1 {
        assert(right[0] == link(ind, ind + h, SpringKind::Orthogonal));
    }
    if j < h - 1 {
        assert(down[0] == link(ind, ind + 1, SpringKind::Orthogonal));
    }
    if i < w - 1 && j < h - 1 {
        assert(down_right[0] == link(ind, ind + h + 1, SpringKind::Diagonal));
    }
    if i > 0 && j < h - 1 {
        assert(down_left[0] == link(ind, ind - h + 1, SpringKind::Diagonal));
    }
}

/// What `column_springs` holds: the springs of each of its places.
proof fn lemma_column_contains(base: int, w: int, h: int, i: int, j: nat, x: Spring)
    ensures
        column_springs(base, w, h, i, j).contains(x) <==> exists|r: int|
            0 <= r < j && #[trigger] site_springs(base, w, h, i, r).contains(x),
    decreases j,
{
    if j > 0 {
        lemma_column_contains(base, w, h, i, (j - 1) as nat, x);
        lemma_concat_contains(
            column_springs(base, w, h, i, (j - 1) as nat),
            site_springs(base, w, h, i, j - 1),
            x,
        );
    }
}

/// What `lattice_springs` holds: the springs of each of its columns.
proof fn lemma_lattice_contains(base: int, w: int, h: int, i: nat, x: Spring)
    ensures
        lattice_springs(base, w, h, i).contains(x) <==> exists|c: int|
            0 <= c < i && #[trigger] column_springs(base, w, h, c, h as nat).contains(x),
    decreases i,
{
    if i > 0 {
        lemma_lattice_contains(base, w, h, (i - 1) as nat, x);
        lemma_concat_contains(
            lattice_springs(base, w, h, (i - 1) as nat),
            column_springs(base, w, h, i - 1, h as nat),
            x,
        );
    }
}

/// Every spring of a body ties two particles that are neighbours in its
/// lattice, along a row, along a column or across a cell, and is
/// orthogonal or diagonal accordingly.
pub proof fn lemma_springs_are_links(base: int, w: int, h: int)
    requires
        0 <= base,
        0 <= w,
        0 <= h,
        base + w * h <= usize::MAX,
    ensures
        forall|k: int|
            0 <= k < body_springs(base, w, h).len() ==> is_link(
                #[trigger] body_springs(base, w, h)[k],
                base,
                w,
                h,
            ),
{
    assert forall|k: int| 0 <= k < body_springs(base, w, h).len() implies is_link(
        #[trigger] body_springs(base, w, h)[k],
        base,
        w,
        h,
    ) by {
        let x = body_springs(base, w, h)[k];
        assert(body_springs(base, w, h).contains(x));
        lemma_lattice_contains(base, w, h, w as nat, x);
        let i = choose|c: int|
            0 <= c < w && #[trigger] column_springs(base, w, h, c, h as nat).contains(x);
        lemma_column_contains(base, w, h, i, h as nat, x);
        let j = choose|r: int| 0 <= r < h && #[trigger] site_springs(base, w, h, i, r).contains(x);
        lemma_site_contains(base, w, h, i, j, x);
        lemma_site_bounds(base, w, h, i, j);
        let ind = site(base, h, i, j);
        if i < w - 1 && x == link(ind, ind + h, SpringKind::Orthogonal) {
            lemma_site_bounds(base, w, h, i + 1, j);
            assert(site(base, h, i + 1, j) == ind + h) by (nonlinear_arith)
                requires
                    ind == base + i * h + j,
                    site(base, h, i + 1, j) == base + (i + 1) * h + j,
            ;
            assert(joins(x, base, w, h, i, j, 1, 0));
        } else if j < h - 1 && x == link(ind, ind + 1, SpringKind::Orthogonal) {
            lemma_site_bounds(base, w, h, i, j + 1);
            assert(joins(x, base, w, h, i, j, 0, 1));
        } else if i < w - 1 && j < h - 1 && x == link(ind, ind + h + 1, SpringKind::Diagonal) {
            lemma_site_bounds(base, w, h, i + 1, j + 1);
            assert(site(base, h, i + 1, j + 1) == ind + h + 1) by (nonlinear_arith)
                requires
                    ind == base + i * h + j,
                    site(base, h, i + 1, j + 1) == base + (i + 1) * h + (j + 1),
            ;
            assert(joins(x, base, w, h, i, j, 1, 1));
        } else {
            lemma_site_bounds(base, w, h, i - 1, j + 1);
            assert(site(base, h, i - 1, j + 1) == ind - h + 1) by (nonlinear_arith)
                requires
                    ind == base + i * h + j,
                    site(base, h, i - 1, j + 1) == base + (i - 1) * h + (j + 1),
            ;
            assert(joins(x, base, w, h, i, j, -1, 1));
        }
    }
}

/// Any two particles that are neighbours in the lattice of a body, along a
/// row, along a column or across a cell, are tied by one of its springs.
pub proof fn lemma_neighbours_are_tied(
    base: int,
    w: int,
    h: int,
    i: int,
    j: int,
    di: int,
    dj: int,
)
    requires
        0 <= base,
        base + w * h <= usize::MAX,
        0 <= i < w && 0 <= j < h,
        0 <= i + di < w && 0 <= j + dj < h,
        (di == 1 && dj == 0) || (dj == 1 && -1 <= di <= 1),
    ensures
        exists|k: int|
            0 <= k < body_springs(base, w, h).len() && joins(
                #[trigger] body_springs(base, w, h)[k],
                base,
                w,
                h,
                i,
                j,
                di,
                dj,
            ),
{
    let ind = site(base, h, i, j);
    let to = site(base, h, i + di, j + dj);
    lemma_site_bounds(base, w, h, i, j);
    lemma_site_bounds(base, w, h, i + di, j + dj);
    assert(to == ind + di * h + dj) by (nonlinear_arith)
        requires
            ind == base + i * h + j,
            to == base + (i + di) * h + (j + dj),
    ;
    assert(di * h == if di == 1 {
        h
    } else if di == 0 {
        0
    } else {
        -h
    }) by (nonlinear_arith)
        requires
            -1 <= di <= 1,
    ;
    let x = link(
        ind,
        to,
        if di == 0 || dj == 0 {
            SpringKind::Orthogonal
        } else {
            SpringKind::Diagonal
        },
    );
    lemma_site_contains(base, w, h, i, j, x);
    assert(site_springs(base, w, h, i, j).contains(x));
    lemma_column_contains(base, w, h, i, h as nat, x);
    lemma_lattice_contains(base, w, h, w as nat, x);
    assert(body_springs(base, w, h).contains(x));
    let k = choose|k: int| 0 <= k < body_springs(base, w, h).len() && body_springs(base, w, h)[k] == x;
    assert(joins(body_springs(base, w, h)[k], base, w, h, i, j, di, dj));
}

/// Appends the springs that start at column `i`, row `j` of a body.
pub(crate) fn wire(springs: &mut Vec<Spring>, base: usize, w: usize, h: usize, i: usize, j: usize)
    requires
        i < w,
        j < h,
        base + w * h <= usize::MAX,
    ensures
        final(springs)@ == old(springs)@ + site_springs(
            base as int,
            w as int,
            h as int,
            i as int,
            j as int,
        ),
{
    proof {
        lemma_site_bounds(base as int, w as int, h as int, i as int, j as int);
        assert(0 <= i * h && i * h + h <= w * h) by (nonlinear_arith)
            requires
                0 <= i < w,
                0 < h,
        ;
        if i < w - 1 {
            assert(i * h + h + h <= w * h) by (nonlinear_arith)
                requires
                    0 <= i < w - 1,
                    0 < h,
            ;
        }
        if i > 0 {
            assert(i * h >= h) by (nonlinear_arith)
                requires
                    i > 0,
                    0 < h,
            ;
        }
    }
    let ind: usize = base + i * h + j;
    if i < w - 1 {
        springs.push(Spring::new(ind, ind + h, SpringKind::Orthogonal));
    }
    if j < h - 1 {
        springs.push(Spring::new(ind, ind + 1, SpringKind::Orthogonal));
    }
    if i < w - 1 && j < h - 1 {
        springs.push(Spring::new(ind, ind + h + 1, SpringKind::Diagonal));
    }
    if i > 0 && j < h - 1 {
        springs.push(Spring::new(ind, ind - h + 1, SpringKind::Diagonal));
    }
    assert(springs@ =~= old(springs)@ + site_springs(
        base as int,
        w as int,
        h as int,
        i as int,
        j as int,
    ));
}

} // verus!
