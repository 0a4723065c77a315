//! Making a world out of stores that were kept elsewhere: the parts are
//! taken only if they fit together.

use crate::hash::SpatialHash;
use crate::object::ObjectDescriptor;
use crate::spring::Spring;
use crate::world::{Edge, Particle, World, WorldView};
use vstd::prelude::*;

verus! {

/// Body `t` fits: it starts where the body before it ends, ends inside the
/// stores, and its own springs and outline entries point below the end of its
/// particles, no spring at one particle twice.
pub open spec fn body_fits<V>(v: WorldView<V>, t: int) -> bool {
    let d = v.objects[t];
    &&& d.wf()
    &&& d.particle_start == v.end_before(t).0
    &&& d.spring_start == v.end_before(t).1
    &&& d.boundary_start == v.end_before(t).2
    &&& d.spring_end <= v.springs.len()
    &&& d.boundary_end <= v.boundaries.len()
    &&& forall|k: int|
        d.spring_start <= k < d.spring_end ==> {
            &&& (#[trigger] v.springs[k]).a < d.particle_end
            &&& v.springs[k].b < d.particle_end
            &&& v.springs[k].a != v.springs[k].b
        }
    &&& forall|k: int|
        d.boundary_start <= k < d.boundary_end ==> (#[trigger] v.boundaries[k]) < d.particle_end
}

/// The first `n` bodies fit.
pub open spec fn bodies_fit<V>(v: WorldView<V>, n: int) -> bool {
    forall|t: int| 0 <= t < n ==> #[trigger] body_fits(v, t)
}

/// The bodies fit and fill the stores.
pub open spec fn parts_fit<V>(v: WorldView<V>) -> bool {
    &&& bodies_fit(v, v.objects.len() as int)
    &&& v.particles.len() == v.end_before(v.objects.len() as int).0
    &&& v.springs.len() == v.end_before(v.objects.len() as int).1
    &&& v.boundaries.len() == v.end_before(v.objects.len() as int).2
}

/// Where the bodies up to body `t` fit, whatever lies before the end of
/// body `t` in the spring and outline stores points below the end of its
/// particles.
proof fn lemma_fit_reaches_back<V>(v: WorldView<V>, t: int, k: int)
    requires
        0 <= t < v.objects.len(),
        bodies_fit(v, t + 1),
        0 <= k,
    ensures
        k < v.objects[t].spring_end ==> {
            &&& v.springs[k].a < v.objects[t].particle_end
            &&& v.springs[k].b < v.objects[t].particle_end
            &&& v.springs[k].a != v.springs[k].b
        },
        k < v.objects[t].boundary_end ==> v.boundaries[k] < v.objects[t].particle_end,
    decreases t,
{
    assert(body_fits(v, t));
    if t > 0 {
        assert(body_fits(v, t - 1));
        lemma_fit_reaches_back(v, t - 1, k);
    }
}

/// To fit part by part is to be well formed.
pub proof fn lemma_parts_fit<V>(v: WorldView<V>)
    requires
        v.pending <= u64::MAX,
    ensures
        parts_fit(v) == v.wf(),
{
    let n = v.objects.len() as int;
    if parts_fit(v) {
        assert forall|o: int| 0 <= o < n implies {
            &&& (#[trigger] v.objects[o]).wf()
            &&& v.objects[o].particle_start == v.end_before(o).0
            &&& v.objects[o].spring_start == v.end_before(o).1
            &&& v.objects[o].boundary_start == v.end_before(o).2
        } by {
            assert(body_fits(v, o));
        }
        assert forall|o: int, k: int| 0 <= o < n && 0 <= k < v.objects[o].spring_end implies {
            &&& (#[trigger] v.springs[k]).a < (#[trigger] v.objects[o]).particle_end
            &&& v.springs[k].b < v.objects[o].particle_end
        } by {
            lemma_fit_reaches_back(v, o, k);
        }
        assert forall|k: int| 0 <= k < v.springs.len() implies (#[trigger] v.springs[k]).a
            != v.springs[k].b by {
            lemma_fit_reaches_back(v, n - 1, k);
        }
        assert forall|o: int, k: int| 0 <= o < n && 0 <= k < v.objects[o].boundary_end implies (
        #[trigger] v.boundaries[k]) < (#[trigger] v.objects[o]).particle_end by {
            lemma_fit_reaches_back(v, o, k);
        }
    }
    if v.wf() {
        assert forall|t: int| 0 <= t < n implies #[trigger] body_fits(v, t) by {
            v.lemma_ends_within(t);
            assert(v.objects[t].wf());
        }
    }
}

impl<V: Copy> World<V> {
    /// Whether the springs of the body `d` point below the end of its
    /// particles, none at one particle twice.
    fn springs_fit(springs: &Vec<Spring>, d: &ObjectDescriptor) -> (r: bool)
        requires
            d.spring_start <= d.spring_end <= springs@.len(),
        ensures
            r == forall|k: int|
                d.spring_start <= k < d.spring_end ==> {
                    &&& (#[trigger] springs@[k]).a < d.particle_end
                    &&& springs@[k].b < d.particle_end
                    &&& springs@[k].a != springs@[k].b
                },
    {
        let mut k: usize = d.spring_start;
        while k < d.spring_end
            invariant
                d.spring_start <= k <= d.spring_end <= springs@.len(),
                forall|t: int|
                    d.spring_start <= t < k ==> {
                        &&& (#[trigger] springs@[t]).a < d.particle_end
                        &&& springs@[t].b < d.particle_end
                        &&& springs@[t].a != springs@[t].b
                    },
            decreases d.spring_end - k,
        {
            let tie = springs[k];
            if tie.a >= d.particle_end || tie.b >= d.particle_end || tie.a == tie.b {
                assert(springs@[k as int] == tie);
                return false;
            }
            k += 1;
        }
        true
    }

    /// Whether the outline entries of the body `d` point below the end of
    /// its particles.
    fn outline_fits(boundaries: &Vec<usize>, d: &ObjectDescriptor) -> (r: bool)
        requires
            d.boundary_start <= d.boundary_end <= boundaries@.len(),
        ensures
            r == forall|k: int|
                d.boundary_start <= k < d.boundary_end ==> (#[trigger] boundaries@[k])
                    < d.particle_end,
    {
        let mut k: usize = d.boundary_start;
        while k < d.boundary_end
            invariant
                d.boundary_start <= k <= d.boundary_end <= boundaries@.len(),
                forall|t: int|
                    d.boundary_start <= t < k ==> (#[trigger] boundaries@[t]) < d.particle_end,
            decreases d.boundary_end - k,
        {
            if boundaries[k] >= d.particle_end {
                return false;
            }
            k += 1;
        }
        true
    }

    /// The world that holds the given stores, registry, edges and pending
    /// time, in microseconds, if they fit together.
    pub fn from_parts(
        particles: Vec<Particle<V>>,
        springs: Vec<Spring>,
        boundaries: Vec<usize>,
        objects: Vec<ObjectDescriptor>,
        edges: Vec<Edge<V>>,
        pending: u64,
    ) -> (r: Option<Self>)
        ensures
            r is Some <==> (WorldView {
                particles: particles@,
                springs: springs@,
                boundaries: boundaries@,
                objects: objects@,
                edges: edges@,
                pending: pending as nat,
            }).wf(),
            r matches Some(world) ==> world.wf() && world@ == (WorldView {
                particles: particles@,
                springs: springs@,
                boundaries: boundaries@,
                objects: objects@,
                edges: edges@,
                pending: pending as nat,
            }),
    {
        let ghost v = WorldView {
            particles: particles@,
            springs: springs@,
            boundaries: boundaries@,
            objects: objects@,
            edges: edges@,
            pending: pending as nat,
        };
        proof {
            lemma_parts_fit(v);
        }
        let mut p_end: usize = 0;
        let mut s_end: usize = 0;
        let mut b_end: usize = 0;
        let mut o: usize = 0;
        while o < objects.len()
            invariant
                o <= objects@.len(),
                v == (WorldView {
                    particles: particles@,
                    springs: springs@,
                    boundaries: boundaries@,
                    objects: objects@,
                    edges: edges@,
                    pending: pending as nat,
                }),
                parts_fit(v) == v.wf(),
                (p_end as int, s_end as int, b_end as int) == v.end_before(o as int),
                bodies_fit(v, o as int),
            decreases objects@.len() - o,
        {
            let d = objects[o];
            let starts = d.particle_start == p_end && d.spring_start == s_end && d.boundary_start
                == b_end;
            let ordered = d.particle_start <= d.particle_end && d.spring_start <= d.spring_end
                && d.boundary_start <= d.boundary_end;
            let inside = d.spring_end <= springs.len() && d.boundary_end <= boundaries.len();
            if !(starts && ordered && inside && Self::springs_fit(&springs, &d)
                && Self::outline_fits(&boundaries, &d)) {
                assert(!body_fits(v, o as int));
                return None;
            }
            assert(body_fits(v, o as int));
            p_end = d.particle_end;
            s_end = d.spring_end;
            b_end = d.boundary_end;
            o += 1;
        }
        if !(p_end == particles.len() && s_end == springs.len() && b_end == boundaries.len()) {
            return None;
        }
        Some(World { particles, springs, boundaries, objects, edges, hash: SpatialHash::new(), pending })
    }
}

} // verus!
