//! The world: the stores of particles, springs and outline indices, the
//! registry of the bodies that fill them, the static edges and the clock.
//!
//! The world is generic in the vector type `V` of positions and velocities.
//! It never computes with a `V`: it only stores, hands out and compares them.

use crate::boundary::{lemma_ring_on_rim, push_ring, ring, ring_len, ring_stop};
use crate::hash::SpatialHash;
use crate::object::ObjectDescriptor;
use crate::spring::{body_springs, column_springs, lattice_springs, site, spring_count};
use crate::spring::{is_link, joins, lemma_site_bounds, lemma_spring_count, lemma_springs_are_links};
use crate::spring::{wire, Spring};
use vstd::prelude::*;
use vstd::std_specs::cmp::PartialEqSpec;

verus! {

/// Length of one sub-step of the simulation, in microseconds.
pub const STEP_MICROS: u64 = 1250;

/// A point mass.
#[derive(Debug, PartialEq)]
pub struct Particle<V> {
    pub pos: V,
    pub vel: V,
    pub acc: V,
}

impl<V: Copy> Clone for Particle<V> {
    fn clone(&self) -> (r: Self)
        ensures
            r == *self,
    {
        *self
    }
}

impl<V: Copy> Copy for Particle<V> {

}

impl<V: Copy> Particle<V> {
    /// A particle at `pos` whose velocity and acceleration are both `rest`.
    pub fn new(pos: V, rest: V) -> (r: Self)
        ensures
            r == (Particle { pos, vel: rest, acc: rest }),
    {
        Particle { pos, vel: rest, acc: rest }
    }
}

/// A static obstacle: the line segment from `start` to `end`.
#[derive(Debug, PartialEq)]
pub struct Edge<V> {
    pub start: V,
    pub end: V,
}

impl<V: Copy> Clone for Edge<V> {
    fn clone(&self) -> (r: Self)
        ensures
            r == *self,
    {
        *self
    }
}

impl<V: Copy> Copy for Edge<V> {

}

impl<V: Copy> Edge<V> {
    pub fn new(start: V, end: V) -> (r: Self)
        ensures
            r == (Edge { start, end }),
    {
        Edge { start, end }
    }

    pub fn get_start(&self) -> (r: V)
        ensures
            r == self.start,
    {
        self.start
    }

    pub fn get_end(&self) -> (r: V)
        ensures
            r == self.end,
    {
        self.end
    }

    /// Moves the first end point; the second stays where it is.
    pub fn set_start(&mut self, start: V)
        ensures
            *final(self) == (Edge { start, end: old(self).end }),
    {
        self.start = start;
    }

    /// Moves the second end point; the first stays where it is.
    pub fn set_end(&mut self, end: V)
        ensures
            *final(self) == (Edge { start: old(self).start, end }),
    {
        self.end = end;
    }
}

/// What a world holds, as mathematical sequences.
pub struct WorldView<V> {
    pub particles: Seq<Particle<V>>,
    pub springs: Seq<Spring>,
    pub boundaries: Seq<usize>,
    pub objects: Seq<ObjectDescriptor>,
    pub edges: Seq<Edge<V>>,
    /// Time that was handed in and not yet simulated, in microseconds.
    pub pending: nat,
}

impl<V> WorldView<V> {
    /// The bodies lie one after the other in each store and fill it: the
    /// first starts at 0, each next one where the one before it ends, and the
    /// last ends where the store ends. Without bodies the stores are empty.
    pub open spec fn tiled(self) -> bool {
        &&& forall|o: int| 0 <= o < self.objects.len() ==> (#[trigger] self.objects[o]).wf()
        &&& forall|o: int|
            0 <= o < self.objects.len() ==> {
                &&& (#[trigger] self.objects[o]).particle_start == self.end_before(o).0
                &&& self.objects[o].spring_start == self.end_before(o).1
                &&& self.objects[o].boundary_start == self.end_before(o).2
            }
        &&& self.particles.len() == self.end_before(self.objects.len() as int).0
        &&& self.springs.len() == self.end_before(self.objects.len() as int).1
        &&& self.boundaries.len() == self.end_before(self.objects.len() as int).2
    }

    /// Where the stores end before body `o`: at 0 before the first body, and
    /// else where the body before it ends.
    pub open spec fn end_before(self, o: int) -> (int, int, int) {
        if o <= 0 || o > self.objects.len() {
            (0, 0, 0)
        } else {
            (
                self.objects[o - 1].particle_end as int,
                self.objects[o - 1].spring_end as int,
                self.objects[o - 1].boundary_end as int,
            )
        }
    }

    /// No spring and no outline index of a body points past the end of that
    /// body's particles, and no spring ties a particle to itself.
    pub open spec fn anchored(self) -> bool {
        &&& forall|o: int, k: int|
            0 <= o < self.objects.len() && 0 <= k < self.objects[o].spring_end ==> {
                &&& (#[trigger] self.springs[k]).a < (#[trigger] self.objects[o]).particle_end
                &&& self.springs[k].b < self.objects[o].particle_end
            }
        &&& forall|k: int|
            0 <= k < self.springs.len() ==> (#[trigger] self.springs[k]).a != self.springs[k].b
        &&& forall|o: int, k: int|
            0 <= o < self.objects.len() && 0 <= k < self.objects[o].boundary_end ==> (
            #[trigger] self.boundaries[k]) < (#[trigger] self.objects[o]).particle_end
    }

    pub open spec fn wf(self) -> bool {
        &&& self.tiled()
        &&& self.anchored()
        &&& self.pending <= u64::MAX
    }

    /// The world without the body that was added last; the world itself
    /// where it has no body.
    pub open spec fn without_last(self) -> Self {
        if self.objects.len() == 0 {
            self
        } else {
            let last = self.objects.last();
            WorldView {
                particles: self.particles.subrange(0, last.particle_start as int),
                springs: self.springs.subrange(0, last.spring_start as int),
                boundaries: self.boundaries.subrange(0, last.boundary_start as int),
                objects: self.objects.drop_last(),
                ..self
            }
        }
    }

    /// `after` is this world with one more body of `w` columns and `h` rows:
    /// its particles, springs and outline follow what the stores held, and
    /// its descriptor follows the registry.
    pub open spec fn spawned(self, after: Self, w: int, h: int) -> bool {
        let base = self.particles.len() as int;
        &&& after.particles.len() == base + w * h
        &&& after.particles.subrange(0, base) == self.particles
        &&& after.springs == self.springs + body_springs(base, w, h)
        &&& after.springs.len() == self.springs.len() + spring_count(w, h)
        &&& after.boundaries == self.boundaries + ring(base, w, h)
        &&& after.boundaries.len() == self.boundaries.len() + ring_len(w, h)
        &&& after.objects == self.objects.push(
            ObjectDescriptor {
                particle_start: self.particles.len() as usize,
                particle_end: after.particles.len() as usize,
                spring_start: self.springs.len() as usize,
                spring_end: after.springs.len() as usize,
                boundary_start: self.boundaries.len() as usize,
                boundary_end: after.boundaries.len() as usize,
            },
        )
        &&& after.edges == self.edges
        &&& after.pending == self.pending
    }

    /// The positions of the rim particles of body `o`, in walking order.
    pub open spec fn outline(self, o: int) -> Seq<V> {
        Seq::new(
            (self.objects[o].boundary_end - self.objects[o].boundary_start) as nat,
            |t: int| self.particles[self.boundaries[self.objects[o].boundary_start + t] as int].pos,
        )
    }

    /// Every spring and every outline index points at a particle that
    /// exists.
    pub proof fn lemma_indices_live(self)
        requires
            self.wf(),
        ensures
            forall|k: int|
                0 <= k < self.springs.len() ==> {
                    &&& (#[trigger] self.springs[k]).a < self.particles.len()
                    &&& self.springs[k].b < self.particles.len()
                    &&& self.springs[k].a != self.springs[k].b
                },
            forall|k: int|
                0 <= k < self.boundaries.len() ==> (#[trigger] self.boundaries[k])
                    < self.particles.len(),
    {
        if self.objects.len() > 0 {
            let o = self.objects.len() - 1;
            assert(self.objects[o].particle_end == self.particles.len());
        }
    }

    /// The lengths of the stores are numbers that a machine can hold.
    pub proof fn lemma_lengths_fit(self)
        requires
            self.tiled(),
        ensures
            self.particles.len() <= usize::MAX,
            self.springs.len() <= usize::MAX,
            self.boundaries.len() <= usize::MAX,
    {
    }

    /// No body ends past the end of a store.
    pub proof fn lemma_ends_within(self, o: int)
        requires
            self.tiled(),
            0 <= o < self.objects.len(),
        ensures
            self.objects[o].particle_end <= self.particles.len(),
            self.objects[o].spring_end <= self.springs.len(),
            self.objects[o].boundary_end <= self.boundaries.len(),
    {
        let n = self.objects.len() - 1;
        assert(self.objects[n].wf());
        if o < n {
            lemma_ends_rise(self, o, n);
        }
    }

    proof fn lemma_spawned_tiled(self, after: Self, w: int, h: int)
        requires
            self.wf(),
            w >= 2,
            h >= 2,
            self.particles.len() + w * h <= usize::MAX,
            after.springs.len() <= usize::MAX,
            after.boundaries.len() <= usize::MAX,
            self.spawned(after, w, h),
        ensures
            after.tiled(),
    {
        let n = self.objects.len() as int;
        assert(0 <= w * h) by (nonlinear_arith)
            requires
                w >= 2,
                h >= 2,
        ;
        assert(spring_count(w, h) >= 0) by (nonlinear_arith)
            requires
                w >= 2,
                h >= 2,
        ;
        assert forall|o: int| 0 <= o < after.objects.len() implies {
            &&& (#[trigger] after.objects[o]).wf()
            &&& after.objects[o].particle_start == after.end_before(o).0
            &&& after.objects[o].spring_start == after.end_before(o).1
            &&& after.objects[o].boundary_start == after.end_before(o).2
        } by {
            if o < n {
                assert(after.objects[o] == self.objects[o]);
                assert(self.objects[o].wf());
                assert(after.end_before(o) == self.end_before(o));
            } else {
                assert(after.end_before(n) == self.end_before(n));
            }
        }
    }

    proof fn lemma_spawned_live(self, after: Self, w: int, h: int)
        requires
            self.wf(),
            w >= 2,
            h >= 2,
            self.particles.len() + w * h <= usize::MAX,
            self.spawned(after, w, h),
        ensures
            forall|k: int|
                0 <= k < after.springs.len() ==> {
                    &&& (#[trigger] after.springs[k]).a < after.particles.len()
                    &&& after.springs[k].b < after.particles.len()
                    &&& after.springs[k].a != after.springs[k].b
                },
            forall|k: int|
                0 <= k < after.boundaries.len() ==> (#[trigger] after.boundaries[k])
                    < after.particles.len(),
    {
        let base = self.particles.len() as int;
        self.lemma_indices_live();
        lemma_springs_are_links(base, w, h);
        assert(0 <= w * h) by (nonlinear_arith)
            requires
                w >= 2,
                h >= 2,
        ;
        assert forall|k: int| 0 <= k < after.springs.len() implies {
            &&& (#[trigger] after.springs[k]).a < after.particles.len()
            &&& after.springs[k].b < after.particles.len()
            &&& after.springs[k].a != after.springs[k].b
        } by {
            if k < self.springs.len() {
                assert(after.springs[k] == self.springs[k]);
            } else {
                let x = body_springs(base, w, h)[k - self.springs.len()];
                assert(after.springs[k] == x);
                assert(is_link(x, base, w, h));
                let (i, j, di, dj) = choose|i: int, j: int, di: int, dj: int|
                    joins(x, base, w, h, i, j, di, dj);
                lemma_site_bounds(base, w, h, i, j);
                lemma_site_bounds(base, w, h, i + di, j + dj);
            }
        }
        assert forall|k: int| 0 <= k < after.boundaries.len() implies (
        #[trigger] after.boundaries[k]) < after.particles.len() by {
            if k < self.boundaries.len() {
                assert(after.boundaries[k] == self.boundaries[k]);
            } else {
                let t = k - self.boundaries.len();
                assert(after.boundaries[k] == ring(base, w, h)[t]);
                lemma_ring_on_rim(w, h, t);
                let stop = ring_stop(w, h, t);
                lemma_site_bounds(base, w, h, stop.0, stop.1);
            }
        }
    }

    /// A world with one more body is well formed again.
    pub proof fn lemma_spawned_wf(self, after: Self, w: int, h: int)
        requires
            self.wf(),
            w >= 2,
            h >= 2,
            self.particles.len() + w * h <= usize::MAX,
            after.springs.len() <= usize::MAX,
            after.boundaries.len() <= usize::MAX,
            self.spawned(after, w, h),
        ensures
            after.wf(),
    {
        let n = self.objects.len() as int;
        self.lemma_spawned_tiled(after, w, h);
        self.lemma_spawned_live(after, w, h);
        assert forall|o: int, k: int|
            0 <= o < after.objects.len() && 0 <= k < after.objects[o].spring_end implies {
            &&& (#[trigger] after.springs[k]).a < (#[trigger] after.objects[o]).particle_end
            &&& after.springs[k].b < after.objects[o].particle_end
        } by {
            if o < n {
                assert(after.objects[o] == self.objects[o]);
                self.lemma_ends_within(o);
                assert(after.springs[k] == self.springs[k]);
            }
        }
        assert forall|o: int, k: int|
            0 <= o < after.objects.len() && 0 <= k < after.objects[o].boundary_end implies (
        #[trigger] after.boundaries[k]) < (#[trigger] after.objects[o]).particle_end by {
            if o < n {
                assert(after.objects[o] == self.objects[o]);
                self.lemma_ends_within(o);
                assert(after.boundaries[k] == self.boundaries[k]);
            }
        }
    }

    /// Taking the last body out leaves a world whose stores fit together.
    pub proof fn lemma_without_last_wf(self)
        requires
            self.wf(),
        ensures
            self.without_last().wf(),
            self.objects.len() > 0 ==> {
                &&& self.objects.last().particle_start <= self.particles.len()
                &&& self.objects.last().spring_start <= self.springs.len()
                &&& self.objects.last().boundary_start <= self.boundaries.len()
            },
    {
        if self.objects.len() > 0 {
            let n = self.objects.len() - 1;
            let rest = self.without_last();
            assert(self.objects[n].wf());
            assert(self.objects[n].particle_end == self.particles.len());
            assert forall|o: int| 0 <= o < rest.objects.len() implies {
                &&& (#[trigger] rest.objects[o]).particle_start == rest.end_before(o).0
                &&& rest.objects[o].spring_start == rest.end_before(o).1
                &&& rest.objects[o].boundary_start == rest.end_before(o).2
            } by {
                assert(rest.objects[o] == self.objects[o]);
                assert(self.end_before(o) == rest.end_before(o));
            }
            assert(rest.end_before(n) == self.end_before(n));
            assert(rest.tiled());
            assert forall|o: int, k: int|
                0 <= o < rest.objects.len() && 0 <= k < rest.objects[o].spring_end implies {
                &&& (#[trigger] rest.springs[k]).a < (#[trigger] rest.objects[o]).particle_end
                &&& rest.springs[k].b < rest.objects[o].particle_end
            } by {
                lemma_ends_rise(self, o, n);
                assert(rest.objects[o] == self.objects[o]);
                assert(rest.springs[k] == self.springs[k]);
            }
            assert forall|o: int, k: int|
                0 <= o < rest.objects.len() && 0 <= k < rest.objects[o].boundary_end implies (
            #[trigger] rest.boundaries[k]) < (#[trigger] rest.objects[o]).particle_end by {
                lemma_ends_rise(self, o, n);
                assert(rest.objects[o] == self.objects[o]);
                assert(rest.boundaries[k] == self.boundaries[k]);
            }
        }
    }
}

/// To take the last body out of a world without bodies changes nothing,
/// and all its stores are and stay empty.
pub proof fn lemma_remove_without_bodies<V>(w: WorldView<V>)
    requires
        w.wf(),
        w.objects.len() == 0,
    ensures
        w.without_last() == w,
        w.particles.len() == 0,
        w.springs.len() == 0,
        w.boundaries.len() == 0,
{
}

/// Last in, first out: to spawn a body and then take the last body out
/// gives back the world as it was before, particle for particle.
pub proof fn lemma_spawn_then_remove<V>(before: WorldView<V>, after: WorldView<V>, w: int, h: int)
    requires
        before.wf(),
        w >= 2,
        h >= 2,
        before.spawned(after, w, h),
    ensures
        after.without_last() == before,
{
    let back = after.without_last();
    before.lemma_lengths_fit();
    assert(after.objects.last().particle_start == before.particles.len());
    assert(back.particles =~= before.particles);
    assert(back.springs =~= before.springs);
    assert(back.boundaries =~= before.boundaries);
    assert(back.objects =~= before.objects);
}

/// A body ends no later than any body after it starts.
pub proof fn lemma_ends_rise<V>(v: WorldView<V>, o: int, p: int)
    requires
        v.tiled(),
        0 <= o < p < v.objects.len(),
    ensures
        v.objects[o].particle_end <= v.objects[p].particle_start,
        v.objects[o].spring_end <= v.objects[p].spring_start,
        v.objects[o].boundary_end <= v.objects[p].boundary_start,
    decreases p - o,
{
    assert(v.objects[p].wf());
    assert(v.objects[p - 1].wf());
    assert(v.objects[p].particle_start == v.end_before(p).0);
    if o < p - 1 {
        lemma_ends_rise(v, o, p - 1);
    }
}

/// The simulation state, owned as one value.
pub struct World<V> {
    pub(crate) particles: Vec<Particle<V>>,
    pub(crate) springs: Vec<Spring>,
    pub(crate) boundaries: Vec<usize>,
    pub(crate) objects: Vec<ObjectDescriptor>,
    pub(crate) edges: Vec<Edge<V>>,
    pub(crate) hash: SpatialHash,
    pub(crate) pending: u64,
}

impl<V> View for World<V> {
    type V = WorldView<V>;

    open(crate) spec fn view(&self) -> WorldView<V> {
        WorldView {
            particles: self.particles@,
            springs: self.springs@,
            boundaries: self.boundaries@,
            objects: self.objects@,
            edges: self.edges@,
            pending: self.pending as nat,
        }
    }
}

impl<V: Copy> World<V> {
    /// The stores fit together, and, no sub-step being under way, the
    /// spatial hash is empty.
    pub open(crate) spec fn wf(&self) -> bool {
        &&& self@.wf()
        &&& self.hash.wf()
        &&& self.hash.is_clear()
    }

    /// In a well-formed world every spring and every outline index points at
    /// a particle that exists.
    pub proof fn lemma_indices_live(&self)
        requires
            self.wf(),
        ensures
            self@.wf(),
            forall|k: int|
                0 <= k < self@.springs.len() ==> {
                    &&& (#[trigger] self@.springs[k]).a < self@.particles.len()
                    &&& self@.springs[k].b < self@.particles.len()
                    &&& self@.springs[k].a != self@.springs[k].b
                },
            forall|k: int|
                0 <= k < self@.boundaries.len() ==> (#[trigger] self@.boundaries[k])
                    < self@.particles.len(),
    {
        self@.lemma_indices_live();
    }

    /// An empty world: no bodies, no edges, no time pending.
    pub fn new() -> (r: Self)
        ensures
            r.wf(),
            r@.particles.len() == 0,
            r@.springs.len() == 0,
            r@.boundaries.len() == 0,
            r@.objects.len() == 0,
            r@.edges.len() == 0,
            r@.pending == 0,
    {
        World {
            particles: Vec::new(),
            springs: Vec::new(),
            boundaries: Vec::new(),
            objects: Vec::new(),
            edges: Vec::new(),
            hash: SpatialHash::new(),
            pending: 0,
        }
    }

    /// Numbers of particles, springs, outline indices, edges and bodies.
    pub fn info(&self) -> (r: (usize, usize, usize, usize, usize))
        ensures
            r.0 == self@.particles.len(),
            r.1 == self@.springs.len(),
            r.2 == self@.boundaries.len(),
            r.3 == self@.edges.len(),
            r.4 == self@.objects.len(),
    {
        (
            self.particles.len(),
            self.springs.len(),
            self.boundaries.len(),
            self.edges.len(),
            self.objects.len(),
        )
    }

    /// Hands in the time that a frame took, in microseconds.
    pub fn end_frame(&mut self, elapsed: u64)
        requires
            old(self).wf(),
            old(self)@.pending + elapsed <= u64::MAX,
        ensures
            final(self).wf(),
            final(self)@ == (WorldView {
                pending: (old(self)@.pending + elapsed) as nat,
                ..old(self)@
            }),
    {
        self.pending = self.pending + elapsed;
    }

    /// Time handed in and not yet simulated, in microseconds.
    pub fn pending(&self) -> (r: u64)
        ensures
            r == self@.pending,
    {
        self.pending
    }

    /// Discards all bodies. The edges and the clock stay as they are.
    pub fn clear(&mut self)
        requires
            old(self).wf(),
        ensures
            final(self).wf(),
            final(self)@ == (WorldView {
                particles: Seq::empty(),
                springs: Seq::empty(),
                boundaries: Seq::empty(),
                objects: Seq::empty(),
                ..old(self)@
            }),
    {
        self.particles.clear();
        self.springs.clear();
        self.boundaries.clear();
        self.objects.clear();
    }

    /// Takes the body that was added last back out, if there is one.
    pub fn remove_last(&mut self)
        requires
            old(self).wf(),
        ensures
            final(self).wf(),
            final(self)@ == old(self)@.without_last(),
    {
        proof {
            old(self)@.lemma_without_last_wf();
        }
        if let Some(obj) = self.objects.pop() {
            self.particles.truncate(obj.particle_start);
            self.springs.truncate(obj.spring_start);
            self.boundaries.truncate(obj.boundary_start);
        }
    }

    /// Removes the edge with index `n`; the later ones move up.
    pub fn remove_edge(&mut self, n: usize)
        requires
            old(self).wf(),
            n < old(self)@.edges.len(),
        ensures
            final(self).wf(),
            final(self)@ == (WorldView { edges: old(self)@.edges.remove(n as int), ..old(self)@ }),
    {
        self.edges.remove(n);
    }

    /// Whether a body of `w` columns and `h` rows can be spawned: it needs two
    /// of each.
    pub fn can_spawn_rect(&self, w: usize, h: usize) -> (r: bool)
        ensures
            r == (w >= 2 && h >= 2),
    {
        w >= 2 && h >= 2
    }

    /// Spawns a body of `w` columns and `h` rows, the particle of column `i`
    /// and row `j` being `place(i, j)`. A body with fewer than two columns or
    /// rows is refused, and the world stays as it is.
    pub fn spawn_rect<F: Fn(usize, usize) -> Particle<V>>(
        &mut self,
        w: usize,
        h: usize,
        place: F,
    ) -> (r: Result<(), (usize, usize)>)
        requires
            old(self).wf(),
            w >= 2 && h >= 2 ==> {
                &&& old(self)@.particles.len() + w * h <= usize::MAX
                &&& old(self)@.springs.len() + 4 * w * h <= usize::MAX
                &&& old(self)@.boundaries.len() + 2 * w + 2 * h <= usize::MAX
                &&& forall|i: usize, j: usize| i < w && j < h ==> place.requires((i, j))
            },
        ensures
            final(self).wf(),
            w < 2 || h < 2 ==> r == Err::<(), (usize, usize)>((w, h)) && final(self)@ == old(
                self,
            )@,
            w >= 2 && h >= 2 ==> {
                &&& r is Ok
                &&& old(self)@.spawned(final(self)@, w as int, h as int)
                &&& forall|i: usize, j: usize|
                    i < w && j < h ==> place.ensures(
                        (i, j),
                        final(self)@.particles[#[trigger] site(
                            old(self)@.particles.len() as int,
                            h as int,
                            i as int,
                            j as int,
                        )],
                    )
            },
    {
        if !self.can_spawn_rect(w, h) {
            return Err((w, h));
        }
        let p_start = self.particles.len();
        let s_start = self.springs.len();
        let b_start = self.boundaries.len();
        let ghost before = self@;
        let ghost base = p_start as int;
        proof {
            lemma_spring_count(base, w as int, h as int);
            assert(spring_count(w as int, h as int) <= 4 * w * h) by (nonlinear_arith)
                requires
                    w >= 2,
                    h >= 2,
            ;
        }
        let mut i: usize = 0;
        while i < w
            invariant
                i <= w,
                h >= 2,
                base == p_start,
                base + w * h <= usize::MAX,
                forall|i2: usize, j2: usize| i2 < w && j2 < h ==> place.requires((i2, j2)),
                self.particles@.len() == base + i * h,
                self.particles@.subrange(0, base) == before.particles,
                forall|i2: usize, j2: usize|
                    i2 < i && j2 < h ==> place.ensures(
                        (i2, j2),
                        self.particles@[#[trigger] site(base, h as int, i2 as int, j2 as int)],
                    ),
                self.springs@ == before.springs + lattice_springs(
                    base,
                    w as int,
                    h as int,
                    i as nat,
                ),
                self.boundaries@ == before.boundaries,
                self.objects@ == before.objects,
                self.edges@ == before.edges,
                self.pending == before.pending,
                self.hash == old(self).hash,
            decreases w - i,
        {
            let ghost column = self.springs@;
            let mut j: usize = 0;
            while j < h
                invariant
                    i < w,
                    j <= h,
                    base == p_start,
                    base + w * h <= usize::MAX,
                    forall|i2: usize, j2: usize| i2 < w && j2 < h ==> place.requires((i2, j2)),
                    self.particles@.len() == base + i * h + j,
                    self.particles@.subrange(0, base) == before.particles,
                    forall|i2: usize, j2: usize|
                        (i2 < i && j2 < h) || (i2 == i && j2 < j) ==> place.ensures(
                            (i2, j2),
                            self.particles@[#[trigger] site(base, h as int, i2 as int, j2 as int)],
                        ),
                    self.springs@ == column + column_springs(
                        base,
                        w as int,
                        h as int,
                        i as int,
                        j as nat,
                    ),
                    self.boundaries@ == before.boundaries,
                    self.objects@ == before.objects,
                    self.edges@ == before.edges,
                    self.pending == before.pending,
                    self.hash == old(self).hash,
                decreases h - j,
            {
                let ghost held = self.particles@;
                let particle = place(i, j);
                self.particles.push(particle);
                wire(&mut self.springs, p_start, w, h, i, j);
                proof {
                    assert(self.particles@.subrange(0, base) == held.subrange(0, base));
                    assert forall|i2: usize, j2: usize|
                        (i2 < i && j2 < h) || (i2 == i && j2 < j + 1) implies place.ensures(
                        (i2, j2),
                        self.particles@[#[trigger] site(base, h as int, i2 as int, j2 as int)],
                    ) by {
                        lemma_site_order(h as int, i2 as int, j2 as int, i as int, j as int);
                    }
                }
                j += 1;
            }
            proof {
                assert(i * h + h == (i + 1) * h) by (nonlinear_arith);
            }
            i += 1;
        }
        push_ring(&mut self.boundaries, p_start, w, h);
        self.objects.push(
            ObjectDescriptor::new(
                p_start,
                self.particles.len(),
                s_start,
                self.springs.len(),
                b_start,
                self.boundaries.len(),
            ),
        );
        proof {
            before.lemma_spawned_wf(self@, w as int, h as int);
        }
        Ok(())
    }
}

impl<V: Copy + PartialEq> World<V> {
    /// Whether an edge from `start` to `end` can be added: not if the two
    /// are equal.
    pub fn can_add_edge(&self, start: V, end: V) -> (r: bool)
        ensures
            V::obeys_eq_spec() ==> r == !start.eq_spec(&end),
    {
        start != end
    }

    /// Adds the edge from `start` to `end` behind the edges that are there.
    /// An edge whose ends are equal is refused, and the world stays as it is.
    pub fn add_edge(&mut self, start: V, end: V) -> (r: Result<(), &'static str>)
        requires
            old(self).wf(),
        ensures
            final(self).wf(),
            V::obeys_eq_spec() ==> (r is Err <==> start.eq_spec(&end)),
            match r {
                Ok(_) => final(self)@ == (WorldView {
                    edges: old(self)@.edges.push(Edge { start, end }),
                    ..old(self)@
                }),
                Err(msg) => msg@ == "cant add edge, length cannot be 0"@ && final(self)@ == old(
                    self,
                )@,
            },
    {
        if !self.can_add_edge(start, end) {
            return Err("cant add edge, length cannot be 0");
        }
        self.edges.push(Edge::new(start, end));
        Ok(())
    }
}

impl<V: Copy> World<V> {
    /// The particle with index `i`.
    pub fn particle(&self, i: usize) -> (r: Particle<V>)
        requires
            i < self@.particles.len(),
        ensures
            r == self@.particles[i as int],
    {
        self.particles[i]
    }

    /// Puts `particle` in the place of the particle with index `i`.
    pub fn set_particle(&mut self, i: usize, particle: Particle<V>)
        requires
            old(self).wf(),
            i < old(self)@.particles.len(),
        ensures
            final(self).wf(),
            final(self)@ == (WorldView {
                particles: old(self)@.particles.update(i as int, particle),
                ..old(self)@
            }),
    {
        self.particles[i] = particle;
    }

    /// The spring with index `k`.
    pub fn spring(&self, k: usize) -> (r: Spring)
        requires
            k < self@.springs.len(),
        ensures
            r == self@.springs[k as int],
    {
        self.springs[k]
    }

    /// Entry `k` of the outlines: the index of a particle.
    pub fn boundary(&self, k: usize) -> (r: usize)
        requires
            k < self@.boundaries.len(),
        ensures
            r == self@.boundaries[k as int],
    {
        self.boundaries[k]
    }

    /// The descriptor of body `o`.
    pub fn object(&self, o: usize) -> (r: ObjectDescriptor)
        requires
            o < self@.objects.len(),
        ensures
            r == self@.objects[o as int],
    {
        self.objects[o]
    }

    /// The edge with index `n`.
    pub fn edge(&self, n: usize) -> (r: Edge<V>)
        requires
            n < self@.edges.len(),
        ensures
            r == self@.edges[n as int],
    {
        self.edges[n]
    }

    /// Moves the first end point of edge `n`.
    pub fn set_edge_start(&mut self, n: usize, start: V)
        requires
            old(self).wf(),
            n < old(self)@.edges.len(),
        ensures
            final(self).wf(),
            final(self)@ == (WorldView {
                edges: old(self)@.edges.update(
                    n as int,
                    Edge { start, end: old(self)@.edges[n as int].end },
                ),
                ..old(self)@
            }),
    {
        self.edges[n].set_start(start);
    }

    /// Moves the second end point of edge `n`.
    pub fn set_edge_end(&mut self, n: usize, end: V)
        requires
            old(self).wf(),
            n < old(self)@.edges.len(),
        ensures
            final(self).wf(),
            final(self)@ == (WorldView {
                edges: old(self)@.edges.update(
                    n as int,
                    Edge { start: old(self)@.edges[n as int].start, end },
                ),
                ..old(self)@
            }),
    {
        self.edges[n].set_end(end);
    }

    /// The corners of the outline of body `o`: the positions of its rim
    /// particles, in walking order.
    pub fn polygon(&self, o: usize) -> (r: Vec<V>)
        requires
            self.wf(),
            o < self@.objects.len(),
        ensures
            r@ == self@.outline(o as int),
    {
        let obj = self.objects[o];
        proof {
            self@.lemma_ends_within(o as int);
            self@.lemma_indices_live();
            assert(self@.objects[o as int].wf());
        }
        let mut corners: Vec<V> = Vec::new();
        let mut k: usize = obj.boundary_start;
        while k < obj.boundary_end
            invariant
                obj.boundary_start <= k <= obj.boundary_end <= self.boundaries@.len(),
                forall|t: int|
                    0 <= t < self.boundaries@.len() ==> (#[trigger] self.boundaries@[t])
                        < self.particles@.len(),
                corners@.len() == k - obj.boundary_start,
                forall|t: int|
                    0 <= t < corners@.len() ==> (#[trigger] corners@[t])
                        == self.particles@[self.boundaries@[obj.boundary_start + t] as int].pos,
            decreases obj.boundary_end - k,
        {
            corners.push(self.particles[self.boundaries[k]].pos);
            k += 1;
        }
        assert(corners@ =~= self@.outline(o as int));
        corners
    }
}

/// Column by column, then row by row: a place of an earlier column, or of
/// the same column and an earlier row, has the smaller index.
pub proof fn lemma_site_order(h: int, i2: int, j2: int, i: int, j: int)
    requires
        0 <= j2 < h,
        0 <= j,
        0 <= i2,
        i2 < i || (i2 == i && j2 <= j),
    ensures
        i2 * h + j2 <= i * h + j,
        i2 * h + j2 == i * h + j ==> i2 == i && j2 == j,
{
    if i2 < i {
        assert(i2 * h + h <= i * h) by (nonlinear_arith)
            requires
                i2 < i,
                0 < h,
        ;
    }
}

} // verus!
