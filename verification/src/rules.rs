//! What one sub-step of the simulation does to the particles, stated over
//! the numeric kernels that the caller supplies.
//!
//! The world does no arithmetic on positions and velocities. It decides which
//! kernel is applied to which particles and in which order; what a kernel
//! returns is known here only as a relation between its arguments and its
//! result.

use crate::hash::{hash_of, stencil};
use crate::spring::{Spring, SpringKind};
use crate::world::{Edge, Particle, WorldView, STEP_MICROS};
use vstd::prelude::*;

verus! {

/// The kernels, each as the relation between its arguments and what it may
/// return.
#[verifier::reject_recursive_types(V)]
#[verifier::reject_recursive_types(X)]
pub struct Rules<V, X> {
    /// The grid cell, column and row, that a particle is in.
    pub cell: spec_fn(Particle<V>, (usize, usize)) -> bool,
    /// The force of a spring on its two particles: both particles afterwards,
    /// or the report that the spring is overstretched.
    pub spring: spec_fn(
        SpringKind,
        Particle<V>,
        Particle<V>,
        Result<(Particle<V>, Particle<V>), X>,
    ) -> bool,
    /// The collision of two particles: both afterwards.
    pub collide: spec_fn(Particle<V>, Particle<V>, (Particle<V>, Particle<V>)) -> bool,
    /// Gravity and integration over one sub-step.
    pub advance: spec_fn(Particle<V>, Particle<V>) -> bool,
    /// The collision of a particle with a static edge.
    pub contact: spec_fn(Edge<V>, Particle<V>, Particle<V>) -> bool,
}

impl<V, X> Rules<V, X> {
    pub open spec fn cell_is(self, p: Particle<V>, c: (usize, usize)) -> bool {
        (self.cell)(p, c)
    }

    pub open spec fn spring_gives(
        self,
        kind: SpringKind,
        a: Particle<V>,
        b: Particle<V>,
        r: Result<(Particle<V>, Particle<V>), X>,
    ) -> bool {
        (self.spring)(kind, a, b, r)
    }

    pub open spec fn collide_gives(
        self,
        a: Particle<V>,
        b: Particle<V>,
        r: (Particle<V>, Particle<V>),
    ) -> bool {
        (self.collide)(a, b, r)
    }

    pub open spec fn advance_gives(self, p: Particle<V>, r: Particle<V>) -> bool {
        (self.advance)(p, r)
    }

    pub open spec fn contact_gives(self, e: Edge<V>, p: Particle<V>, r: Particle<V>) -> bool {
        (self.contact)(e, p, r)
    }

    /// Every kernel returns one thing only on given arguments.
    pub open spec fn functional(self) -> bool {
        &&& forall|p: Particle<V>, c: (usize, usize), d: (usize, usize)|
            #[trigger] self.cell_is(p, c) && #[trigger] self.cell_is(p, d) ==> c == d
        &&& forall|
            kind: SpringKind,
            a: Particle<V>,
            b: Particle<V>,
            r: Result<(Particle<V>, Particle<V>), X>,
            s: Result<(Particle<V>, Particle<V>), X>,
        |
            #[trigger] self.spring_gives(kind, a, b, r) && #[trigger] self.spring_gives(
                kind,
                a,
                b,
                s,
            ) ==> r == s
        &&& forall|
            a: Particle<V>,
            b: Particle<V>,
            r: (Particle<V>, Particle<V>),
            s: (Particle<V>, Particle<V>),
        |
            #[trigger] self.collide_gives(a, b, r) && #[trigger] self.collide_gives(a, b, s)
                ==> r == s
        &&& forall|p: Particle<V>, r: Particle<V>, s: Particle<V>|
            #[trigger] self.advance_gives(p, r) && #[trigger] self.advance_gives(p, s) ==> r
                == s
        &&& forall|e: Edge<V>, p: Particle<V>, r: Particle<V>, s: Particle<V>|
            #[trigger] self.contact_gives(e, p, r) && #[trigger] self.contact_gives(e, p, s)
                ==> r == s
    }
}

/// `cells` holds the cell of every particle of `s`.
pub open spec fn observed<V, X>(
    rules: Rules<V, X>,
    s: Seq<Particle<V>>,
    cells: Seq<(usize, usize)>,
) -> bool {
    &&& cells.len() == s.len()
    &&& forall|i: int| 0 <= i < s.len() ==> rules.cell_is(s[i], #[trigger] cells[i])
}

/// The spring `spring` acts on `s0` and leaves `s1`: its two particles are
/// replaced by what the spring kernel gives for them, no other particle
/// changes.
pub open spec fn spring_step<V, X>(
    rules: Rules<V, X>,
    spring: Spring,
    s0: Seq<Particle<V>>,
    s1: Seq<Particle<V>>,
) -> bool {
    let a = spring.a as int;
    let b = spring.b as int;
    &&& rules.spring_gives(spring.kind, s0[a], s0[b], Ok((s1[a], s1[b])))
    &&& s1 == s0.update(a, s1[a]).update(b, s1[b])
}

/// The first `n` springs act on `s0`, one after the other, none reports an
/// overstretch, and `s1` is left.
pub open spec fn spring_pass<V, X>(
    rules: Rules<V, X>,
    springs: Seq<Spring>,
    n: nat,
    s0: Seq<Particle<V>>,
    s1: Seq<Particle<V>>,
) -> bool
    decreases n,
{
    if n == 0 {
        s1 == s0
    } else {
        exists|mid: Seq<Particle<V>>|
            spring_pass(rules, springs, (n - 1) as nat, s0, mid) && #[trigger] spring_step(
                rules,
                springs[n - 1],
                mid,
                s1,
            )
    }
}

/// The first `n` springs act on `s0` and leave `s1`, and the next spring
/// reports the overstretch `x`.
pub open spec fn spring_fail<V, X>(
    rules: Rules<V, X>,
    springs: Seq<Spring>,
    n: nat,
    s0: Seq<Particle<V>>,
    s1: Seq<Particle<V>>,
    x: X,
) -> bool {
    &&& n < springs.len()
    &&& spring_pass(rules, springs, n, s0, s1)
    &&& rules.spring_gives(
        springs[n as int].kind,
        s1[springs[n as int].a as int],
        s1[springs[n as int].b as int],
        Err(x),
    )
}

/// The particle `before` collides with particle `j` of `s0`: `after` is what
/// becomes of it, and `s1` is `s0` with what becomes of particle `j`.
pub open spec fn bump<V, X>(
    rules: Rules<V, X>,
    j: usize,
    before: Particle<V>,
    s0: Seq<Particle<V>>,
    after: Particle<V>,
    s1: Seq<Particle<V>>,
) -> bool {
    &&& rules.collide_gives(before, s0[j as int], (after, s1[j as int]))
    &&& s1 == s0.update(j as int, s1[j as int])
}

/// The particle `before` collides with the first `n` particles of the list
/// `against`, one after the other.
pub open spec fn bumps<V, X>(
    rules: Rules<V, X>,
    against: Seq<usize>,
    n: nat,
    before: Particle<V>,
    s0: Seq<Particle<V>>,
    after: Particle<V>,
    s1: Seq<Particle<V>>,
) -> bool
    decreases n,
{
    if n == 0 {
        after == before && s1 == s0
    } else {
        exists|pm: Particle<V>, sm: Seq<Particle<V>>|
            bumps(rules, against, (n - 1) as nat, before, s0, pm, sm) && #[trigger] bump(
                rules,
                against[n - 1],
                pm,
                sm,
                after,
                s1,
            )
    }
}

/// Particle `i` has its turn: it collides with the particles that the hash
/// pairs it with, by the cell it is in now, is advanced by one sub-step and
/// put back.
pub open spec fn turn<V, X>(
    rules: Rules<V, X>,
    buckets: Seq<Seq<usize>>,
    i: int,
    s0: Seq<Particle<V>>,
    s1: Seq<Particle<V>>,
) -> bool {
    exists|c: (usize, usize), p: Particle<V>, sm: Seq<Particle<V>>|
        #[trigger] turn_with(rules, buckets, i, s0, s1, c, p, sm)
}

/// A turn of particle `i` in which it is found in the cell `c`, leaves its
/// collisions as `p`, and leaves the other particles as in `sm`.
pub open spec fn turn_with<V, X>(
    rules: Rules<V, X>,
    buckets: Seq<Seq<usize>>,
    i: int,
    s0: Seq<Particle<V>>,
    s1: Seq<Particle<V>>,
    c: (usize, usize),
    p: Particle<V>,
    sm: Seq<Particle<V>>,
) -> bool {
    let against = stencil(buckets, i as usize, c.0 as int, c.1 as int);
    &&& rules.cell_is(s0[i], c)
    &&& bumps(rules, against, against.len(), s0[i], s0, p, sm)
    &&& rules.advance_gives(p, s1[i])
    &&& s1 == sm.update(i, s1[i])
}

/// The first `n` particles have their turn, one after the other.
pub open spec fn particle_pass<V, X>(
    rules: Rules<V, X>,
    buckets: Seq<Seq<usize>>,
    n: nat,
    s0: Seq<Particle<V>>,
    s1: Seq<Particle<V>>,
) -> bool
    decreases n,
{
    if n == 0 {
        s1 == s0
    } else {
        exists|mid: Seq<Particle<V>>|
            particle_pass(rules, buckets, (n - 1) as nat, s0, mid) && #[trigger] turn(
                rules,
                buckets,
                n - 1,
                mid,
                s1,
            )
    }
}

/// The particle `before` meets the first `n` edges, one after the other.
pub open spec fn scrapes<V, X>(
    rules: Rules<V, X>,
    edges: Seq<Edge<V>>,
    n: nat,
    before: Particle<V>,
    after: Particle<V>,
) -> bool
    decreases n,
{
    if n == 0 {
        after == before
    } else {
        exists|pm: Particle<V>|
            scrapes(rules, edges, (n - 1) as nat, before, pm) && #[trigger] rules.contact_gives(
                edges[n - 1],
                pm,
                after,
            )
    }
}

/// The particle with index `at` meets every edge; no other particle changes.
pub open spec fn scrape_step<V, X>(
    rules: Rules<V, X>,
    edges: Seq<Edge<V>>,
    at: usize,
    s0: Seq<Particle<V>>,
    s1: Seq<Particle<V>>,
) -> bool {
    &&& scrapes(rules, edges, edges.len(), s0[at as int], s1[at as int])
    &&& s1 == s0.update(at as int, s1[at as int])
}

/// The particles of the first `n` outline entries meet the edges, one after
/// the other.
pub open spec fn contact_pass<V, X>(
    rules: Rules<V, X>,
    boundaries: Seq<usize>,
    edges: Seq<Edge<V>>,
    n: nat,
    s0: Seq<Particle<V>>,
    s1: Seq<Particle<V>>,
) -> bool
    decreases n,
{
    if n == 0 {
        s1 == s0
    } else {
        exists|mid: Seq<Particle<V>>|
            contact_pass(rules, boundaries, edges, (n - 1) as nat, s0, mid)
                && #[trigger] scrape_step(rules, edges, boundaries[n - 1], mid, s1)
    }
}

/// One whole sub-step takes the particles from `s0` to `s1`: the hash is
/// filled from the cells of `s0`; all springs act; then every particle has
/// its turn; then the outline particles meet the edges.
pub open spec fn stepped<V, X>(
    rules: Rules<V, X>,
    springs: Seq<Spring>,
    boundaries: Seq<usize>,
    edges: Seq<Edge<V>>,
    s0: Seq<Particle<V>>,
    s1: Seq<Particle<V>>,
) -> bool {
    exists|cells: Seq<(usize, usize)>, sa: Seq<Particle<V>>, sb: Seq<Particle<V>>|
        #[trigger] stepped_with(rules, springs, boundaries, edges, s0, s1, cells, sa, sb)
}

/// A sub-step that finds the particles in `cells`, and leaves them as `sa`
/// after the springs and as `sb` after their turns.
pub open spec fn stepped_with<V, X>(
    rules: Rules<V, X>,
    springs: Seq<Spring>,
    boundaries: Seq<usize>,
    edges: Seq<Edge<V>>,
    s0: Seq<Particle<V>>,
    s1: Seq<Particle<V>>,
    cells: Seq<(usize, usize)>,
    sa: Seq<Particle<V>>,
    sb: Seq<Particle<V>>,
) -> bool {
    &&& observed(rules, s0, cells)
    &&& spring_pass(rules, springs, springs.len(), s0, sa)
    &&& particle_pass(rules, hash_of(cells), s0.len(), sa, sb)
    &&& contact_pass(rules, boundaries, edges, boundaries.len(), sb, s1)
}

/// `n` whole sub-steps take the particles from `s0` to `s1`.
pub open spec fn run<V, X>(
    rules: Rules<V, X>,
    springs: Seq<Spring>,
    boundaries: Seq<usize>,
    edges: Seq<Edge<V>>,
    n: nat,
    s0: Seq<Particle<V>>,
    s1: Seq<Particle<V>>,
) -> bool
    decreases n,
{
    if n == 0 {
        s1 == s0
    } else {
        exists|mid: Seq<Particle<V>>|
            run(rules, springs, boundaries, edges, (n - 1) as nat, s0, mid)
                && #[trigger] stepped(rules, springs, boundaries, edges, mid, s1)
    }
}

/// Sub-steps that the world `w` is owed.
pub open spec fn owed<V>(w: WorldView<V>) -> nat {
    w.pending / (STEP_MICROS as nat)
}

/// What `update` may do to the world `w0`: run every sub-step that is owed
/// and leave the rest of the time pending; or run fewer, stop in the spring
/// pass of the next at the first spring that reports an overstretch, and hand
/// that report on, with the time of the sub-steps that were run used up.
pub open spec fn updated<V, X>(
    rules: Rules<V, X>,
    w0: WorldView<V>,
    w1: WorldView<V>,
    r: Result<(), X>,
) -> bool {
    match r {
        Ok(_) => {
            &&& run(
                rules,
                w0.springs,
                w0.boundaries,
                w0.edges,
                owed(w0),
                w0.particles,
                w1.particles,
            )
            &&& w1 == (WorldView {
                particles: w1.particles,
                pending: w0.pending % (STEP_MICROS as nat),
                ..w0
            })
        },
        Err(x) => exists|n: nat, mid: Seq<Particle<V>>, k: nat|
            #[trigger] broken_off(rules, w0, w1, x, n, mid, k),
    }
}

/// An update that runs `n` whole sub-steps, which leave the particles as
/// `mid`, and stops in the next at spring `k`, which reports `x`.
pub open spec fn broken_off<V, X>(
    rules: Rules<V, X>,
    w0: WorldView<V>,
    w1: WorldView<V>,
    x: X,
    n: nat,
    mid: Seq<Particle<V>>,
    k: nat,
) -> bool {
    &&& n < owed(w0)
    &&& run(rules, w0.springs, w0.boundaries, w0.edges, n, w0.particles, mid)
    &&& spring_fail(rules, w0.springs, k, mid, w1.particles, x)
    &&& w1 == (WorldView {
        particles: w1.particles,
        pending: (w0.pending - n * STEP_MICROS) as nat,
        ..w0
    })
}

} // verus!
