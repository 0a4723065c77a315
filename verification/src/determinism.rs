//! With kernels that return one thing only on given arguments, the world
//! after an update is a function of the world before it.

use crate::rules::{
    broken_off, bump, bumps, contact_pass, observed, owed, particle_pass, run,
    scrape_step, scrapes, spring_fail, spring_pass, spring_step, stepped, stepped_with, turn,
    turn_with, updated, Rules,
};
use crate::hash::{hash_of, stencil};
use crate::spring::Spring;
use crate::world::{Edge, Particle, WorldView};
use vstd::prelude::*;

verus! {

/// The cells that the particles are found in are determined.
pub proof fn lemma_observed_one<V, X>(
    rules: Rules<V, X>,
    s: Seq<Particle<V>>,
    c1: Seq<(usize, usize)>,
    c2: Seq<(usize, usize)>,
)
    requires
        rules.functional(),
        observed(rules, s, c1),
        observed(rules, s, c2),
    ensures
        c1 == c2,
{
    assert forall|i: int| 0 <= i < c1.len() implies c1[i] == c2[i] by {
        assert(rules.cell_is(s[i], c1[i]));
        assert(rules.cell_is(s[i], c2[i]));
    }
    assert(c1 =~= c2);
}

/// What the first `n` springs leave is determined.
pub proof fn lemma_spring_pass_one<V, X>(
    rules: Rules<V, X>,
    springs: Seq<Spring>,
    n: nat,
    s0: Seq<Particle<V>>,
    s1: Seq<Particle<V>>,
    s2: Seq<Particle<V>>,
)
    requires
        rules.functional(),
        spring_pass(rules, springs, n, s0, s1),
        spring_pass(rules, springs, n, s0, s2),
    ensures
        s1 == s2,
    decreases n,
{
    if n > 0 {
        let m1 = choose|mid: Seq<Particle<V>>|
            spring_pass(rules, springs, (n - 1) as nat, s0, mid) && #[trigger] spring_step(
                rules,
                springs[n - 1],
                mid,
                s1,
            );
        let m2 = choose|mid: Seq<Particle<V>>|
            spring_pass(rules, springs, (n - 1) as nat, s0, mid) && #[trigger] spring_step(
                rules,
                springs[n - 1],
                mid,
                s2,
            );
        lemma_spring_pass_one(rules, springs, (n - 1) as nat, s0, m1, m2);
        let a = springs[n - 1].a as int;
        let b = springs[n - 1].b as int;
        assert(rules.spring_gives(springs[n - 1].kind, m1[a], m1[b], Ok((s1[a], s1[b]))));
        assert(rules.spring_gives(springs[n - 1].kind, m1[a], m1[b], Ok((s2[a], s2[b]))));
        assert(Ok::<(Particle<V>, Particle<V>), X>((s1[a], s1[b])) == Ok::<
            (Particle<V>, Particle<V>),
            X,
        >((s2[a], s2[b])));
    }
}

/// Where the first `n` springs act without a report, none of them reports
/// an overstretch.
pub proof fn lemma_pass_excludes_fail<V, X>(
    rules: Rules<V, X>,
    springs: Seq<Spring>,
    n: nat,
    s0: Seq<Particle<V>>,
    s1: Seq<Particle<V>>,
    k: nat,
    sf: Seq<Particle<V>>,
    x: X,
)
    requires
        rules.functional(),
        spring_pass(rules, springs, n, s0, s1),
        k < n,
        spring_pass(rules, springs, k, s0, sf),
    ensures
        !rules.spring_gives(
            springs[k as int].kind,
            sf[springs[k as int].a as int],
            sf[springs[k as int].b as int],
            Err(x),
        ),
    decreases n,
{
    let mid = choose|mid: Seq<Particle<V>>|
        spring_pass(rules, springs, (n - 1) as nat, s0, mid) && #[trigger] spring_step(
            rules,
            springs[n - 1],
            mid,
            s1,
        );
    if k == n - 1 {
        lemma_spring_pass_one(rules, springs, k, s0, mid, sf);
        let a = springs[n - 1].a as int;
        let b = springs[n - 1].b as int;
        assert(rules.spring_gives(springs[n - 1].kind, sf[a], sf[b], Ok((s1[a], s1[b]))));
        if rules.spring_gives(springs[n - 1].kind, sf[a], sf[b], Err(x)) {
            assert(Ok::<(Particle<V>, Particle<V>), X>((s1[a], s1[b])) == Err::<
                (Particle<V>, Particle<V>),
                X,
            >(x));
        }
    } else {
        lemma_pass_excludes_fail(rules, springs, (n - 1) as nat, s0, mid, k, sf, x);
    }
}

/// Which spring reports first, what it reports, and what the springs before
/// it leave, is determined.
pub proof fn lemma_spring_fail_one<V, X>(
    rules: Rules<V, X>,
    springs: Seq<Spring>,
    s0: Seq<Particle<V>>,
    k1: nat,
    s1: Seq<Particle<V>>,
    x1: X,
    k2: nat,
    s2: Seq<Particle<V>>,
    x2: X,
)
    requires
        rules.functional(),
        spring_fail(rules, springs, k1, s0, s1, x1),
        spring_fail(rules, springs, k2, s0, s2, x2),
    ensures
        k1 == k2,
        s1 == s2,
        x1 == x2,
{
    if k1 < k2 {
        lemma_pass_excludes_fail(rules, springs, k2, s0, s2, k1, s1, x1);
    } else if k2 < k1 {
        lemma_pass_excludes_fail(rules, springs, k1, s0, s1, k2, s2, x2);
    } else {
        lemma_spring_pass_one(rules, springs, k1, s0, s1, s2);
        assert(Err::<(Particle<V>, Particle<V>), X>(x1) == Err::<(Particle<V>, Particle<V>), X>(
            x2,
        ));
    }
}

/// What a run of collisions leaves is determined.
pub proof fn lemma_bumps_one<V, X>(
    rules: Rules<V, X>,
    against: Seq<usize>,
    n: nat,
    before: Particle<V>,
    s0: Seq<Particle<V>>,
    pa: Particle<V>,
    s1: Seq<Particle<V>>,
    pb: Particle<V>,
    s2: Seq<Particle<V>>,
)
    requires
        rules.functional(),
        bumps(rules, against, n, before, s0, pa, s1),
        bumps(rules, against, n, before, s0, pb, s2),
    ensures
        pa == pb,
        s1 == s2,
    decreases n,
{
    if n > 0 {
        let (ma, sa) = choose|pm: Particle<V>, sm: Seq<Particle<V>>|
            bumps(rules, against, (n - 1) as nat, before, s0, pm, sm) && #[trigger] bump(
                rules,
                against[n - 1],
                pm,
                sm,
                pa,
                s1,
            );
        let (mb, sb) = choose|pm: Particle<V>, sm: Seq<Particle<V>>|
            bumps(rules, against, (n - 1) as nat, before, s0, pm, sm) && #[trigger] bump(
                rules,
                against[n - 1],
                pm,
                sm,
                pb,
                s2,
            );
        lemma_bumps_one(rules, against, (n - 1) as nat, before, s0, ma, sa, mb, sb);
        let j = against[n - 1] as int;
        assert(rules.collide_gives(ma, sa[j], (pa, s1[j])));
        assert(rules.collide_gives(ma, sa[j], (pb, s2[j])));
    }
}

/// What the turn of a particle leaves is determined.
pub proof fn lemma_turn_one<V, X>(
    rules: Rules<V, X>,
    buckets: Seq<Seq<usize>>,
    i: int,
    s0: Seq<Particle<V>>,
    s1: Seq<Particle<V>>,
    s2: Seq<Particle<V>>,
)
    requires
        rules.functional(),
        turn(rules, buckets, i, s0, s1),
        turn(rules, buckets, i, s0, s2),
    ensures
        s1 == s2,
{
    let (c1, pa, m1) = choose|c: (usize, usize), p: Particle<V>, sm: Seq<Particle<V>>|
        #[trigger] turn_with(rules, buckets, i, s0, s1, c, p, sm);
    let (c2, pb, m2) = choose|c: (usize, usize), p: Particle<V>, sm: Seq<Particle<V>>|
        #[trigger] turn_with(rules, buckets, i, s0, s2, c, p, sm);
    assert(rules.cell_is(s0[i], c1));
    assert(rules.cell_is(s0[i], c2));
    let against = stencil(buckets, i as usize, c1.0 as int, c1.1 as int);
    lemma_bumps_one(rules, against, against.len(), s0[i], s0, pa, m1, pb, m2);
    assert(rules.advance_gives(pa, s1[i]));
    assert(rules.advance_gives(pa, s2[i]));
}

/// What the turns of the first `n` particles leave is determined.
pub proof fn lemma_particle_pass_one<V, X>(
    rules: Rules<V, X>,
    buckets: Seq<Seq<usize>>,
    n: nat,
    s0: Seq<Particle<V>>,
    s1: Seq<Particle<V>>,
    s2: Seq<Particle<V>>,
)
    requires
        rules.functional(),
        particle_pass(rules, buckets, n, s0, s1),
        particle_pass(rules, buckets, n, s0, s2),
    ensures
        s1 == s2,
    decreases n,
{
    if n > 0 {
        let m1 = choose|mid: Seq<Particle<V>>|
            particle_pass(rules, buckets, (n - 1) as nat, s0, mid) && #[trigger] turn(
                rules,
                buckets,
                n - 1,
                mid,
                s1,
            );
        let m2 = choose|mid: Seq<Particle<V>>|
            particle_pass(rules, buckets, (n - 1) as nat, s0, mid) && #[trigger] turn(
                rules,
                buckets,
                n - 1,
                mid,
                s2,
            );
        lemma_particle_pass_one(rules, buckets, (n - 1) as nat, s0, m1, m2);
        lemma_turn_one(rules, buckets, n - 1, m1, s1, s2);
    }
}

/// What a particle is after it has met the first `n` edges is determined.
pub proof fn lemma_scrapes_one<V, X>(
    rules: Rules<V, X>,
    edges: Seq<Edge<V>>,
    n: nat,
    before: Particle<V>,
    pa: Particle<V>,
    pb: Particle<V>,
)
    requires
        rules.functional(),
        scrapes(rules, edges, n, before, pa),
        scrapes(rules, edges, n, before, pb),
    ensures
        pa == pb,
    decreases n,
{
    if n > 0 {
        let m1 = choose|pm: Particle<V>|
            scrapes(rules, edges, (n - 1) as nat, before, pm) && #[trigger] rules.contact_gives(
                edges[n - 1],
                pm,
                pa,
            );
        let m2 = choose|pm: Particle<V>|
            scrapes(rules, edges, (n - 1) as nat, before, pm) && #[trigger] rules.contact_gives(
                edges[n - 1],
                pm,
                pb,
            );
        lemma_scrapes_one(rules, edges, (n - 1) as nat, before, m1, m2);
    }
}

/// What the outlines' meeting with the edges leaves is determined.
pub proof fn lemma_contact_pass_one<V, X>(
    rules: Rules<V, X>,
    boundaries: Seq<usize>,
    edges: Seq<Edge<V>>,
    n: nat,
    s0: Seq<Particle<V>>,
    s1: Seq<Particle<V>>,
    s2: Seq<Particle<V>>,
)
    requires
        rules.functional(),
        contact_pass(rules, boundaries, edges, n, s0, s1),
        contact_pass(rules, boundaries, edges, n, s0, s2),
    ensures
        s1 == s2,
    decreases n,
{
    if n > 0 {
        let m1 = choose|mid: Seq<Particle<V>>|
            contact_pass(rules, boundaries, edges, (n - 1) as nat, s0, mid)
                && #[trigger] scrape_step(rules, edges, boundaries[n - 1], mid, s1);
        let m2 = choose|mid: Seq<Particle<V>>|
            contact_pass(rules, boundaries, edges, (n - 1) as nat, s0, mid)
                && #[trigger] scrape_step(rules, edges, boundaries[n - 1], mid, s2);
        lemma_contact_pass_one(rules, boundaries, edges, (n - 1) as nat, s0, m1, m2);
        let at = boundaries[n - 1] as int;
        lemma_scrapes_one(rules, edges, edges.len(), m1[at], s1[at], s2[at]);
    }
}

/// What a whole sub-step leaves is determined.
pub proof fn lemma_stepped_one<V, X>(
    rules: Rules<V, X>,
    springs: Seq<Spring>,
    boundaries: Seq<usize>,
    edges: Seq<Edge<V>>,
    s0: Seq<Particle<V>>,
    s1: Seq<Particle<V>>,
    s2: Seq<Particle<V>>,
)
    requires
        rules.functional(),
        stepped(rules, springs, boundaries, edges, s0, s1),
        stepped(rules, springs, boundaries, edges, s0, s2),
    ensures
        s1 == s2,
{
    let (c1, a1, b1) = choose|
        cells: Seq<(usize, usize)>,
        sa: Seq<Particle<V>>,
        sb: Seq<Particle<V>>,
    | #[trigger] stepped_with(rules, springs, boundaries, edges, s0, s1, cells, sa, sb);
    let (c2, a2, b2) = choose|
        cells: Seq<(usize, usize)>,
        sa: Seq<Particle<V>>,
        sb: Seq<Particle<V>>,
    | #[trigger] stepped_with(rules, springs, boundaries, edges, s0, s2, cells, sa, sb);
    lemma_observed_one(rules, s0, c1, c2);
    lemma_spring_pass_one(rules, springs, springs.len(), s0, a1, a2);
    lemma_particle_pass_one(rules, hash_of(c1), s0.len(), a1, b1, b2);
    lemma_contact_pass_one(rules, boundaries, edges, boundaries.len(), b1, s1, s2);
}

/// What `n` whole sub-steps leave is determined.
pub proof fn lemma_run_one<V, X>(
    rules: Rules<V, X>,
    springs: Seq<Spring>,
    boundaries: Seq<usize>,
    edges: Seq<Edge<V>>,
    n: nat,
    s0: Seq<Particle<V>>,
    s1: Seq<Particle<V>>,
    s2: Seq<Particle<V>>,
)
    requires
        rules.functional(),
        run(rules, springs, boundaries, edges, n, s0, s1),
        run(rules, springs, boundaries, edges, n, s0, s2),
    ensures
        s1 == s2,
    decreases n,
{
    if n > 0 {
        let m1 = choose|mid: Seq<Particle<V>>|
            run(rules, springs, boundaries, edges, (n - 1) as nat, s0, mid)
                && #[trigger] stepped(rules, springs, boundaries, edges, mid, s1);
        let m2 = choose|mid: Seq<Particle<V>>|
            run(rules, springs, boundaries, edges, (n - 1) as nat, s0, mid)
                && #[trigger] stepped(rules, springs, boundaries, edges, mid, s2);
        lemma_run_one(rules, springs, boundaries, edges, (n - 1) as nat, s0, m1, m2);
        lemma_stepped_one(rules, springs, boundaries, edges, m1, s1, s2);
    }
}

/// Where `n` whole sub-steps run, none of them is broken off: after fewer
/// sub-steps no spring reports an overstretch.
pub proof fn lemma_run_excludes_fail<V, X>(
    rules: Rules<V, X>,
    springs: Seq<Spring>,
    boundaries: Seq<usize>,
    edges: Seq<Edge<V>>,
    n: nat,
    s0: Seq<Particle<V>>,
    s1: Seq<Particle<V>>,
    m: nat,
    mid: Seq<Particle<V>>,
    k: nat,
    sf: Seq<Particle<V>>,
    x: X,
)
    requires
        rules.functional(),
        run(rules, springs, boundaries, edges, n, s0, s1),
        m < n,
        run(rules, springs, boundaries, edges, m, s0, mid),
    ensures
        !spring_fail(rules, springs, k, mid, sf, x),
    decreases n,
{
    let before = choose|before: Seq<Particle<V>>|
        run(rules, springs, boundaries, edges, (n - 1) as nat, s0, before)
            && #[trigger] stepped(rules, springs, boundaries, edges, before, s1);
    if m == n - 1 {
        lemma_run_one(rules, springs, boundaries, edges, m, s0, before, mid);
        let (cells, sa, sb) = choose|
            cells: Seq<(usize, usize)>,
            sa: Seq<Particle<V>>,
            sb: Seq<Particle<V>>,
        | #[trigger] stepped_with(rules, springs, boundaries, edges, mid, s1, cells, sa, sb);
        if k < springs.len() && spring_pass(rules, springs, k, mid, sf) {
            lemma_pass_excludes_fail(rules, springs, springs.len(), mid, sa, k, sf, x);
        }
    } else {
        lemma_run_excludes_fail(
            rules,
            springs,
            boundaries,
            edges,
            (n - 1) as nat,
            s0,
            before,
            m,
            mid,
            k,
            sf,
            x,
        );
    }
}

/// An update leaves one world and returns one result: with kernels that
/// return one thing only on given arguments, any two outcomes that the
/// contract of `update` admits of one world are the same.
pub proof fn lemma_update_deterministic<V, X>(
    rules: Rules<V, X>,
    w0: WorldView<V>,
    w1: WorldView<V>,
    r1: Result<(), X>,
    w2: WorldView<V>,
    r2: Result<(), X>,
)
    requires
        rules.functional(),
        updated(rules, w0, w1, r1),
        updated(rules, w0, w2, r2),
    ensures
        w1 == w2,
        r1 == r2,
{
    match (r1, r2) {
        (Ok(_), Ok(_)) => {
            lemma_run_one(
                rules,
                w0.springs,
                w0.boundaries,
                w0.edges,
                owed(w0),
                w0.particles,
                w1.particles,
                w2.particles,
            );
            assert(r1->Ok_0 == r2->Ok_0);
        },
        (Ok(_), Err(x)) => {
            let (n, mid, k) = choose|n: nat, mid: Seq<Particle<V>>, k: nat|
                #[trigger] broken_off(rules, w0, w2, x, n, mid, k);
            lemma_run_excludes_fail(
                rules,
                w0.springs,
                w0.boundaries,
                w0.edges,
                owed(w0),
                w0.particles,
                w1.particles,
                n,
                mid,
                k,
                w2.particles,
                x,
            );
        },
        (Err(x), Ok(_)) => {
            let (n, mid, k) = choose|n: nat, mid: Seq<Particle<V>>, k: nat|
                #[trigger] broken_off(rules, w0, w1, x, n, mid, k);
            lemma_run_excludes_fail(
                rules,
                w0.springs,
                w0.boundaries,
                w0.edges,
                owed(w0),
                w0.particles,
                w2.particles,
                n,
                mid,
                k,
                w1.particles,
                x,
            );
        },
        (Err(x1), Err(x2)) => {
            let (n1, m1, k1) = choose|n: nat, mid: Seq<Particle<V>>, k: nat|
                #[trigger] broken_off(rules, w0, w1, x1, n, mid, k);
            let (n2, m2, k2) = choose|n: nat, mid: Seq<Particle<V>>, k: nat|
                #[trigger] broken_off(rules, w0, w2, x2, n, mid, k);
            if n1 < n2 {
                lemma_run_excludes_fail(
                    rules,
                    w0.springs,
                    w0.boundaries,
                    w0.edges,
                    n2,
                    w0.particles,
                    m2,
                    n1,
                    m1,
                    k1,
                    w1.particles,
                    x1,
                );
            } else if n2 < n1 {
                lemma_run_excludes_fail(
                    rules,
                    w0.springs,
                    w0.boundaries,
                    w0.edges,
                    n1,
                    w0.particles,
                    m1,
                    n2,
                    m2,
                    k2,
                    w2.particles,
                    x2,
                );
            } else {
                lemma_run_one(
                    rules,
                    w0.springs,
                    w0.boundaries,
                    w0.edges,
                    n1,
                    w0.particles,
                    m1,
                    m2,
                );
                lemma_spring_fail_one(
                    rules,
                    w0.springs,
                    m1,
                    k1,
                    w1.particles,
                    x1,
                    k2,
                    w2.particles,
                    x2,
                );
                assert(r1 == r2);
            }
        },
    }
}

/// An overstretch is reported: where the clock owes a sub-step and, on the
/// particles as they are, the springs before spring `k` act and spring `k`
/// reports `x`, every update returns that report and leaves the particles as
/// those springs left them, with nothing else changed.
pub proof fn lemma_overstretch_reported<V, X>(
    rules: Rules<V, X>,
    w0: WorldView<V>,
    k: nat,
    sf: Seq<Particle<V>>,
    x: X,
    w1: WorldView<V>,
    r: Result<(), X>,
)
    requires
        rules.functional(),
        owed(w0) >= 1,
        spring_fail(rules, w0.springs, k, w0.particles, sf, x),
        updated(rules, w0, w1, r),
    ensures
        r == Err::<(), X>(x),
        w1 == (WorldView { particles: sf, ..w0 }),
{
    let w = WorldView { particles: sf, ..w0 };
    let r0 = Err::<(), X>(x);
    assert(r0 matches Err(y) ==> broken_off(rules, w0, w, y, 0, w0.particles, k));
    lemma_update_deterministic(rules, w0, w, r0, w1, r);
}

} // verus!
