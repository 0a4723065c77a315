//! The driver: sub-steps of fixed length, run while the clock owes them.

use crate::hash::{
    hash_of, lemma_members_below, lemma_members_prefix, lemma_stencil_valid, members, stencil,
    BUCKETS,
};
use crate::rules::{
    broken_off, bump, bumps, contact_pass, observed, owed, particle_pass, run,
    scrape_step, scrapes, spring_fail, spring_pass, spring_step, stepped, stepped_with, turn,
    turn_with, updated, Rules,
};
use crate::spring::SpringKind;
use crate::world::{Edge, Particle, World, WorldView, STEP_MICROS};
use vstd::prelude::*;

verus! {

/// The kernels as relations: each holds between the arguments of a call and
/// whatever that call may return.
pub open spec fn rules_of<V, X, C, S, P, A, E>(
    cell: C,
    spring: S,
    collide: P,
    advance: A,
    contact: E,
) -> Rules<V, X> where
    C: Fn(Particle<V>) -> (usize, usize),
    S: Fn(SpringKind, Particle<V>, Particle<V>) -> Result<(Particle<V>, Particle<V>), X>,
    P: Fn(Particle<V>, Particle<V>) -> (Particle<V>, Particle<V>),
    A: Fn(Particle<V>) -> Particle<V>,
    E: Fn(Edge<V>, Particle<V>) -> Particle<V>,
 {
    Rules {
        cell: |p: Particle<V>, c: (usize, usize)| cell.ensures((p,), c),
        spring: |
            kind: SpringKind,
            a: Particle<V>,
            b: Particle<V>,
            r: Result<(Particle<V>, Particle<V>), X>,
        | spring.ensures((kind, a, b), r),
        collide: |a: Particle<V>, b: Particle<V>, r: (Particle<V>, Particle<V>)|
            collide.ensures((a, b), r),
        advance: |p: Particle<V>, r: Particle<V>| advance.ensures((p,), r),
        contact: |e: Edge<V>, p: Particle<V>, r: Particle<V>| contact.ensures((e, p), r),
    }
}

/// Every kernel can be called on every argument.
pub open spec fn total<V, X, C, S, P, A, E>(
    cell: C,
    spring: S,
    collide: P,
    advance: A,
    contact: E,
) -> bool where
    C: Fn(Particle<V>) -> (usize, usize),
    S: Fn(SpringKind, Particle<V>, Particle<V>) -> Result<(Particle<V>, Particle<V>), X>,
    P: Fn(Particle<V>, Particle<V>) -> (Particle<V>, Particle<V>),
    A: Fn(Particle<V>) -> Particle<V>,
    E: Fn(Edge<V>, Particle<V>) -> Particle<V>,
 {
    &&& forall|p: Particle<V>| cell.requires((p,))
    &&& forall|kind: SpringKind, a: Particle<V>, b: Particle<V>| spring.requires((kind, a, b))
    &&& forall|a: Particle<V>, b: Particle<V>| collide.requires((a, b))
    &&& forall|p: Particle<V>| advance.requires((p,))
    &&& forall|e: Edge<V>, p: Particle<V>| contact.requires((e, p))
}

impl<V: Copy> World<V> {
    /// Lets every spring act, in the order of the store, up to the first
    /// that reports an overstretch.
    fn apply_springs<X, S>(&mut self, spring: &S, Ghost(rules): Ghost<Rules<V, X>>) -> (r: Result<
        (),
        X,
    >) where S: Fn(SpringKind, Particle<V>, Particle<V>) -> Result<(Particle<V>, Particle<V>), X>
        requires
            old(self)@.wf(),
            forall|kind: SpringKind, a: Particle<V>, b: Particle<V>| spring.requires((kind, a, b)),
            forall|
                kind: SpringKind,
                a: Particle<V>,
                b: Particle<V>,
                r: Result<(Particle<V>, Particle<V>), X>,
            |
                spring.ensures((kind, a, b), r) ==> rules.spring_gives(kind, a, b, r),
        ensures
            final(self)@ == (WorldView { particles: final(self)@.particles, ..old(self)@ }),
            final(self)@.particles.len() == old(self)@.particles.len(),
            final(self).hash == old(self).hash,
            r is Ok ==> spring_pass(
                rules,
                old(self)@.springs,
                old(self)@.springs.len(),
                old(self)@.particles,
                final(self)@.particles,
            ),
            r matches Err(x) ==> exists|k: nat| #[trigger]
                spring_fail(
                    rules,
                    old(self)@.springs,
                    k,
                    old(self)@.particles,
                    final(self)@.particles,
                    x,
                ),
    {
        let ghost s0 = self@.particles;
        proof {
            self@.lemma_indices_live();
        }
        let mut k: usize = 0;
        while k < self.springs.len()
            invariant
                k <= self.springs@.len(),
                self@ == (WorldView { particles: self@.particles, ..old(self)@ }),
                self.hash == old(self).hash,
                self@.particles.len() == s0.len(),
                s0 == old(self)@.particles,
                forall|t: int|
                    0 <= t < self@.springs.len() ==> {
                        &&& (#[trigger] self@.springs[t]).a < s0.len()
                        &&& self@.springs[t].b < s0.len()
                        &&& self@.springs[t].a != self@.springs[t].b
                    },
                forall|kind: SpringKind, a: Particle<V>, b: Particle<V>|
                    spring.requires((kind, a, b)),
                forall|
                    kind: SpringKind,
                    a: Particle<V>,
                    b: Particle<V>,
                    r: Result<(Particle<V>, Particle<V>), X>,
                |
                    spring.ensures((kind, a, b), r) ==> rules.spring_gives(kind, a, b, r),
                spring_pass(rules, self@.springs, k as nat, s0, self@.particles),
            decreases self.springs@.len() - k,
        {
            let tie = self.springs[k];
            let ghost held = self@.particles;
            let a = self.particles[tie.a];
            let b = self.particles[tie.b];
            match spring(tie.kind, a, b) {
                Ok((a2, b2)) => {
                    self.particles[tie.a] = a2;
                    self.particles[tie.b] = b2;
                    proof {
                        assert(self@.particles == held.update(tie.a as int, a2).update(
                            tie.b as int,
                            b2,
                        ));
                        assert(spring_step(rules, self@.springs[k as int], held, self@.particles));
                        assert(spring_step(
                            rules,
                            self@.springs[(k + 1) as nat - 1],
                            held,
                            self@.particles,
                        ));
                    }
                },
                Err(x) => {
                    let r = Err(x);
                    assert(r matches Err(y) ==> spring_fail(
                        rules,
                        old(self)@.springs,
                        k as nat,
                        old(self)@.particles,
                        self@.particles,
                        y,
                    ));
                    return r;
                },
            }
            k += 1;
        }
        Ok(())
    }

    /// Enters every particle into the bucket of its cell.
    fn fill_hash<X, C>(&mut self, cell: &C, Ghost(rules): Ghost<Rules<V, X>>) -> (cells: Ghost<
        Seq<(usize, usize)>,
    >) where C: Fn(Particle<V>) -> (usize, usize)
        requires
            old(self).hash.wf(),
            old(self).hash.is_clear(),
            forall|p: Particle<V>| cell.requires((p,)),
            forall|p: Particle<V>, c: (usize, usize)|
                cell.ensures((p,), c) ==> rules.cell_is(p, c),
        ensures
            final(self)@ == old(self)@,
            final(self).hash.wf(),
            final(self).hash.below(old(self)@.particles.len() as int),
            final(self).hash@ == hash_of(cells@),
            observed(rules, old(self)@.particles, cells@),
    {
        let ghost mut cells: Seq<(usize, usize)> = Seq::empty();
        assert forall|b: int| 0 <= b < BUCKETS implies #[trigger] self.hash@[b] == members(
            cells,
            b,
            0,
        ) by {
            assert(self.hash@[b].len() == 0);
            assert(self.hash@[b] =~= Seq::empty());
        }
        let mut i: usize = 0;
        while i < self.particles.len()
            invariant
                i <= self.particles@.len(),
                self@ == old(self)@,
                self.hash.wf(),
                cells.len() == i,
                forall|p: Particle<V>| cell.requires((p,)),
                forall|p: Particle<V>, c: (usize, usize)|
                    cell.ensures((p,), c) ==> rules.cell_is(p, c),
                forall|t: int| 0 <= t < i ==> rules.cell_is(self@.particles[t], #[trigger] cells[t]),
                forall|b: int|
                    0 <= b < BUCKETS ==> #[trigger] self.hash@[b] == members(cells, b, i as nat),
            decreases self.particles@.len() - i,
        {
            let c = cell(self.particles[i]);
            let ghost seen = cells;
            self.hash.insert(i, c.0, c.1);
            proof {
                cells = seen.push(c);
                assert forall|b: int| 0 <= b < BUCKETS implies #[trigger] self.hash@[b]
                    == members(cells, b, (i + 1) as nat) by {
                    lemma_members_prefix(seen, cells, b, i as nat);
                }
            }
            i += 1;
        }
        proof {
            assert(self.hash@ =~= hash_of(cells));
            assert forall|b: int, k: int|
                0 <= b < self.hash@.len() && 0 <= k < self.hash@[b].len() implies (
            #[trigger] self.hash@[b][k]) < self@.particles.len() by {
                lemma_members_below(cells, b, cells.len());
            }
        }
        Ghost(cells)
    }

    /// Gives every particle its turn, in the order of the store.
    fn take_turns<X, C, P, A>(
        &mut self,
        cell: &C,
        collide: &P,
        advance: &A,
        Ghost(rules): Ghost<Rules<V, X>>,
    ) where
        C: Fn(Particle<V>) -> (usize, usize),
        P: Fn(Particle<V>, Particle<V>) -> (Particle<V>, Particle<V>),
        A: Fn(Particle<V>) -> Particle<V>,

        requires
            old(self).hash.wf(),
            old(self).hash.below(old(self)@.particles.len() as int),
            forall|p: Particle<V>| cell.requires((p,)),
            forall|p: Particle<V>, c: (usize, usize)|
                cell.ensures((p,), c) ==> rules.cell_is(p, c),
            forall|a: Particle<V>, b: Particle<V>| collide.requires((a, b)),
            forall|a: Particle<V>, b: Particle<V>, r: (Particle<V>, Particle<V>)|
                collide.ensures((a, b), r) ==> rules.collide_gives(a, b, r),
            forall|p: Particle<V>| advance.requires((p,)),
            forall|p: Particle<V>, r: Particle<V>|
                advance.ensures((p,), r) ==> rules.advance_gives(p, r),
        ensures
            final(self)@ == (WorldView { particles: final(self)@.particles, ..old(self)@ }),
            final(self)@.particles.len() == old(self)@.particles.len(),
            final(self).hash == old(self).hash,
            particle_pass(
                rules,
                old(self).hash@,
                old(self)@.particles.len(),
                old(self)@.particles,
                final(self)@.particles,
            ),
    {
        let ghost s0 = self@.particles;
        let n = self.particles.len();
        let mut against: Vec<usize> = Vec::new();
        let mut i: usize = 0;
        while i < n
            invariant
                i <= n,
                n == s0.len(),
                s0 == old(self)@.particles,
                self@ == (WorldView { particles: self@.particles, ..old(self)@ }),
                self@.particles.len() == n,
                self.hash == old(self).hash,
                self.hash.wf(),
                self.hash.below(n as int),
                forall|p: Particle<V>| cell.requires((p,)),
                forall|p: Particle<V>, c: (usize, usize)|
                    cell.ensures((p,), c) ==> rules.cell_is(p, c),
                forall|a: Particle<V>, b: Particle<V>| collide.requires((a, b)),
                forall|a: Particle<V>, b: Particle<V>, r: (Particle<V>, Particle<V>)|
                    collide.ensures((a, b), r) ==> rules.collide_gives(a, b, r),
                forall|p: Particle<V>| advance.requires((p,)),
                forall|p: Particle<V>, r: Particle<V>|
                    advance.ensures((p,), r) ==> rules.advance_gives(p, r),
                particle_pass(rules, self.hash@, i as nat, s0, self@.particles),
            decreases n - i,
        {
            let ghost start = self@.particles;
            let mut p = self.particles[i];
            let c = cell(p);
            self.hash.collect(i, c.0, c.1, &mut against);
            proof {
                lemma_stencil_valid(self.hash@, n as int, i, c.0 as int, c.1 as int);
            }
            let mut t: usize = 0;
            while t < against.len()
                invariant
                    t <= against@.len(),
                    i < n,
                    self@ == (WorldView { particles: self@.particles, ..old(self)@ }),
                    self@.particles.len() == n,
                    start.len() == n,
                    self.hash == old(self).hash,
                    forall|k: int|
                        0 <= k < against@.len() ==> (#[trigger] against@[k]) < n && against@[k]
                            != i,
                    forall|a: Particle<V>, b: Particle<V>| collide.requires((a, b)),
                    forall|a: Particle<V>, b: Particle<V>, r: (Particle<V>, Particle<V>)|
                        collide.ensures((a, b), r) ==> rules.collide_gives(a, b, r),
                    bumps(rules, against@, t as nat, start[i as int], start, p, self@.particles),
                decreases against@.len() - t,
            {
                let j = against[t];
                let ghost pm = p;
                let ghost sm = self@.particles;
                let (after, q) = collide(p, self.particles[j]);
                self.particles[j] = q;
                p = after;
                proof {
                    assert(self@.particles == sm.update(j as int, q));
                    assert(bump(
                        rules,
                        against@[(t + 1) as nat - 1],
                        pm,
                        sm,
                        p,
                        self@.particles,
                    ));
                }
                t += 1;
            }
            let ghost sm = self@.particles;
            let moved = advance(p);
            self.particles[i] = moved;
            proof {
                assert(self@.particles == sm.update(i as int, moved));
                assert(against@ == stencil(self.hash@, i as int as usize, c.0 as int, c.1 as int));
                assert(turn_with(rules, self.hash@, i as int, start, self@.particles, c, p, sm));
                assert(turn(rules, self.hash@, (i + 1) as nat - 1, start, self@.particles));
            }
            i += 1;
        }
    }

    /// Lets the particles of the outlines meet the edges: entry by entry,
    /// and for each entry edge by edge.
    fn meet_edges<X, E>(&mut self, contact: &E, Ghost(rules): Ghost<Rules<V, X>>) where
        E: Fn(Edge<V>, Particle<V>) -> Particle<V>,

        requires
            old(self)@.wf(),
            forall|e: Edge<V>, p: Particle<V>| contact.requires((e, p)),
            forall|e: Edge<V>, p: Particle<V>, r: Particle<V>|
                contact.ensures((e, p), r) ==> rules.contact_gives(e, p, r),
        ensures
            final(self)@ == (WorldView { particles: final(self)@.particles, ..old(self)@ }),
            final(self)@.particles.len() == old(self)@.particles.len(),
            final(self).hash == old(self).hash,
            contact_pass(
                rules,
                old(self)@.boundaries,
                old(self)@.edges,
                old(self)@.boundaries.len(),
                old(self)@.particles,
                final(self)@.particles,
            ),
    {
        let ghost s0 = self@.particles;
        proof {
            self@.lemma_indices_live();
        }
        let mut k: usize = 0;
        while k < self.boundaries.len()
            invariant
                k <= self.boundaries@.len(),
                s0 == old(self)@.particles,
                self@ == (WorldView { particles: self@.particles, ..old(self)@ }),
                self@.particles.len() == s0.len(),
                self.hash == old(self).hash,
                forall|t: int|
                    0 <= t < self@.boundaries.len() ==> (#[trigger] self@.boundaries[t])
                        < s0.len(),
                forall|e: Edge<V>, p: Particle<V>| contact.requires((e, p)),
                forall|e: Edge<V>, p: Particle<V>, r: Particle<V>|
                    contact.ensures((e, p), r) ==> rules.contact_gives(e, p, r),
                contact_pass(
                    rules,
                    self@.boundaries,
                    self@.edges,
                    k as nat,
                    s0,
                    self@.particles,
                ),
            decreases self.boundaries@.len() - k,
        {
            let at = self.boundaries[k];
            let ghost held = self@.particles;
            let mut p = self.particles[at];
            let mut n: usize = 0;
            while n < self.edges.len()
                invariant
                    n <= self.edges@.len(),
                    self@ == (WorldView { particles: held, ..old(self)@ }),
                    self.hash == old(self).hash,
                    at < held.len(),
                    forall|e: Edge<V>, p: Particle<V>| contact.requires((e, p)),
                    forall|e: Edge<V>, p: Particle<V>, r: Particle<V>|
                        contact.ensures((e, p), r) ==> rules.contact_gives(e, p, r),
                    scrapes(rules, self@.edges, n as nat, held[at as int], p),
                decreases self.edges@.len() - n,
            {
                let ghost pm = p;
                p = contact(self.edges[n], p);
                proof {
                    assert(rules.contact_gives(self@.edges[(n + 1) as nat - 1], pm, p));
                }
                n += 1;
            }
            self.particles[at] = p;
            proof {
                assert(self@.particles == held.update(at as int, p));
                assert(scrape_step(
                    rules,
                    self@.edges,
                    self@.boundaries[(k + 1) as nat - 1],
                    held,
                    self@.particles,
                ));
            }
            k += 1;
        }
    }
}

impl<V: Copy> World<V> {
    /// Runs one sub-step: fills the hash, lets the springs act, gives every
    /// particle its turn, lets the outlines meet the edges, and empties the
    /// hash. Stops at the first spring that reports an overstretch and hands
    /// the report on. The clock is left alone.
    pub fn step<X, C, S, P, A, E>(
        &mut self,
        cell: &C,
        spring: &S,
        collide: &P,
        advance: &A,
        contact: &E,
    ) -> (r: Result<(), X>) where
        C: Fn(Particle<V>) -> (usize, usize),
        S: Fn(SpringKind, Particle<V>, Particle<V>) -> Result<(Particle<V>, Particle<V>), X>,
        P: Fn(Particle<V>, Particle<V>) -> (Particle<V>, Particle<V>),
        A: Fn(Particle<V>) -> Particle<V>,
        E: Fn(Edge<V>, Particle<V>) -> Particle<V>,

        requires
            old(self).wf(),
            total::<V, X, C, S, P, A, E>(*cell, *spring, *collide, *advance, *contact),
        ensures
            final(self).wf(),
            final(self)@ == (WorldView { particles: final(self)@.particles, ..old(self)@ }),
            final(self)@.particles.len() == old(self)@.particles.len(),
            r is Ok ==> stepped(
                rules_of::<V, X, C, S, P, A, E>(*cell, *spring, *collide, *advance, *contact),
                old(self)@.springs,
                old(self)@.boundaries,
                old(self)@.edges,
                old(self)@.particles,
                final(self)@.particles,
            ),
            r matches Err(x) ==> exists|k: nat| #[trigger]
                spring_fail(
                    rules_of::<V, X, C, S, P, A, E>(*cell, *spring, *collide, *advance, *contact),
                    old(self)@.springs,
                    k,
                    old(self)@.particles,
                    final(self)@.particles,
                    x,
                ),
    {
        let ghost rules = rules_of::<V, X, C, S, P, A, E>(
            *cell,
            *spring,
            *collide,
            *advance,
            *contact,
        );
        let ghost w0 = self@;
        let Ghost(cells) = self.fill_hash::<X, C>(cell, Ghost(rules));
        let sprung = self.apply_springs(spring, Ghost(rules));
        if sprung.is_err() {
            self.hash.clear();
            proof {
                lemma_same_shape(w0, self@);
            }
            return sprung;
        }
        let ghost sa = self@.particles;
        proof {
            lemma_same_shape(w0, self@);
        }
        self.take_turns::<X, C, P, A>(cell, collide, advance, Ghost(rules));
        let ghost sb = self@.particles;
        proof {
            lemma_same_shape(w0, self@);
        }
        self.meet_edges::<X, E>(contact, Ghost(rules));
        self.hash.clear();
        proof {
            lemma_same_shape(w0, self@);
            assert(stepped_with(
                rules,
                w0.springs,
                w0.boundaries,
                w0.edges,
                w0.particles,
                self@.particles,
                cells,
                sa,
                sb,
            ));
        }
        Ok(())
    }
}

impl<V: Copy> World<V> {
    /// Advances the simulation by every whole sub-step that the clock owes,
    /// and leaves what is less than a sub-step pending. Where a spring
    /// reports an overstretch, stops there and hands the report on.
    pub fn update<X, C, S, P, A, E>(
        &mut self,
        cell: &C,
        spring: &S,
        collide: &P,
        advance: &A,
        contact: &E,
    ) -> (r: Result<(), X>) where
        C: Fn(Particle<V>) -> (usize, usize),
        S: Fn(SpringKind, Particle<V>, Particle<V>) -> Result<(Particle<V>, Particle<V>), X>,
        P: Fn(Particle<V>, Particle<V>) -> (Particle<V>, Particle<V>),
        A: Fn(Particle<V>) -> Particle<V>,
        E: Fn(Edge<V>, Particle<V>) -> Particle<V>,

        requires
            old(self).wf(),
            total::<V, X, C, S, P, A, E>(*cell, *spring, *collide, *advance, *contact),
        ensures
            final(self).wf(),
            updated(
                rules_of::<V, X, C, S, P, A, E>(*cell, *spring, *collide, *advance, *contact),
                old(self)@,
                final(self)@,
                r,
            ),
    {
        let ghost rules = rules_of::<V, X, C, S, P, A, E>(
            *cell,
            *spring,
            *collide,
            *advance,
            *contact,
        );
        let ghost w0 = self@;
        let ghost mut n: nat = 0;
        while self.pending >= STEP_MICROS
            invariant
                self.wf(),
                total::<V, X, C, S, P, A, E>(*cell, *spring, *collide, *advance, *contact),
                rules == rules_of::<V, X, C, S, P, A, E>(
                    *cell,
                    *spring,
                    *collide,
                    *advance,
                    *contact,
                ),
                w0 == old(self)@,
                w0.wf(),
                n * STEP_MICROS + self@.pending == w0.pending,
                self@ == (WorldView {
                    particles: self@.particles,
                    pending: self@.pending,
                    ..w0
                }),
                run(rules, w0.springs, w0.boundaries, w0.edges, n, w0.particles, self@.particles),
            decreases self@.pending,
        {
            let ghost mid = self@.particles;
            let r = self.step(cell, spring, collide, advance, contact);
            if r.is_err() {
                proof {
                    let x = r->Err_0;
                    let k = choose|k: nat| #[trigger]
                        spring_fail(rules, w0.springs, k, mid, self@.particles, x);
                    lemma_owed(w0.pending, n, self@.pending);
                    assert(broken_off(rules, w0, self@, x, n, mid, k));
                }
                return r;
            }
            self.pending = self.pending - STEP_MICROS;
            proof {
                n = n + 1;
                assert(stepped(
                    rules,
                    w0.springs,
                    w0.boundaries,
                    w0.edges,
                    mid,
                    self@.particles,
                ));
                assert(run(
                    rules,
                    w0.springs,
                    w0.boundaries,
                    w0.edges,
                    (n - 1) as nat,
                    w0.particles,
                    mid,
                ));
                lemma_same_shape(w0, self@);
            }
        }
        proof {
            lemma_owed(w0.pending, n, self@.pending);
        }
        Ok(())
    }
}

/// A time `total` that is `n` sub-steps and `rest` more: while `rest` holds a
/// whole sub-step not all that is owed has been run, and else `n` is all that
/// is owed and `rest` the remainder.
pub proof fn lemma_owed(total: nat, n: nat, rest: nat)
    requires
        n * STEP_MICROS + rest == total,
    ensures
        rest >= STEP_MICROS ==> n < total / (STEP_MICROS as nat),
        rest < STEP_MICROS ==> n == total / (STEP_MICROS as nat) && rest == total % (
        STEP_MICROS as nat),
{
    assert(n * 1250 + rest == total);
    if rest < 1250 {
        assert(total / 1250 == n && total % 1250 == rest) by (nonlinear_arith)
            requires
                n * 1250 + rest == total,
                0 <= rest < 1250,
        ;
    } else {
        assert(n < total / 1250) by (nonlinear_arith)
            requires
                n * 1250 + rest == total,
                rest >= 1250,
        ;
    }
}

/// Well-formedness looks at how many particles there are, not at what they
/// hold, and not at the clock.
pub proof fn lemma_same_shape<V>(w0: WorldView<V>, w1: WorldView<V>)
    requires
        w0.wf(),
        w1 == (WorldView { particles: w1.particles, pending: w1.pending, ..w0 }),
        w1.particles.len() == w0.particles.len(),
        w1.pending <= u64::MAX,
    ensures
        w1.wf(),
{
    assert forall|o: int| 0 <= o < w1.objects.len() implies {
        &&& (#[trigger] w1.objects[o]).particle_start == w1.end_before(o).0
        &&& w1.objects[o].spring_start == w1.end_before(o).1
        &&& w1.objects[o].boundary_start == w1.end_before(o).2
    } by {
        assert(w1.end_before(o) == w0.end_before(o));
    }
    assert(w1.end_before(w1.objects.len() as int) == w0.end_before(w0.objects.len() as int));
}

} // verus!
