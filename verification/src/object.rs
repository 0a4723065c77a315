//! The index ranges that delimit one body inside the world's stores.

use std::ops::Range;
use vstd::prelude::*;

verus! {

/// Where one body lives: a half-open interval of indices into each of the
/// particle, spring and boundary stores.
#[derive(Clone, Copy, Debug, PartialEq, Eq, Structural)]
pub struct ObjectDescriptor {
    pub particle_start: usize,
    pub particle_end: usize,
    pub spring_start: usize,
    pub spring_end: usize,
    pub boundary_start: usize,
    pub boundary_end: usize,
}

impl ObjectDescriptor {
    /// No interval ends before it starts.
    pub open spec fn wf(&self) -> bool {
        &&& self.particle_start <= self.particle_end
        &&& self.spring_start <= self.spring_end
        &&& self.boundary_start <= self.boundary_end
    }

    pub fn new(
        particle_start: usize,
        particle_end: usize,
        spring_start: usize,
        spring_end: usize,
        boundary_start: usize,
        boundary_end: usize,
    ) -> (r: Self)
        ensures
            r == (ObjectDescriptor {
                particle_start,
                particle_end,
                spring_start,
                spring_end,
                boundary_start,
                boundary_end,
            }),
    {
        Self {
            particle_start,
            particle_end,
            spring_start,
            spring_end,
            boundary_start,
            boundary_end,
        }
    }

    pub fn particles_len(&self) -> (r: usize)
        requires
            self.particle_start <= self.particle_end,
        ensures
            r == self.particle_end - self.particle_start,
    {
        self.particle_end - self.particle_start
    }

    pub fn particles_range(&self) -> (r: Range<usize>)
        ensures
            r.start == self.particle_start,
            r.end == self.particle_end,
    {
        self.particle_start..self.particle_end
    }

    pub fn springs_len(&self) -> (r: usize)
        requires
            self.spring_start <= self.spring_end,
        ensures
            r == self.spring_end - self.spring_start,
    {
        self.spring_end - self.spring_start
    }

    pub fn springs_range(&self) -> (r: Range<usize>)
        ensures
            r.start == self.spring_start,
            r.end == self.spring_end,
    {
        self.spring_start..self.spring_end
    }

    pub fn boundaries_len(&self) -> (r: usize)
        requires
            self.boundary_start <= self.boundary_end,
        ensures
            r == self.boundary_end - self.boundary_start,
    {
        self.boundary_end - self.boundary_start
    }

    pub fn boundaries_range(&self) -> (r: Range<usize>)
        ensures
            r.start == self.boundary_start,
            r.end == self.boundary_end,
    {
        self.boundary_start..self.boundary_end
    }
}

} // verus!
