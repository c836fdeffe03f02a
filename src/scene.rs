//! Spheres, scenes and rays.
use vstd::prelude::*;
use crate::geometry::{within, Vec3, COORD_LIMIT, DIRECTION_LIMIT, SCALE};

verus! {

/// A sphere with a centre, a radius and a base colour (albedo), all in
/// fixed-point steps of `1 / SCALE`.
#[derive(Clone, Copy, Debug, PartialEq, Eq, Structural)]
pub struct Sphere {
    pub position: Vec3,
    pub radius: i64,
    pub albedo: Vec3,
}

impl Sphere {
    /// The sphere lies in the range the tracer computes exactly: centre and
    /// albedo components within `COORD_LIMIT`, radius in `0..=COORD_LIMIT`.
    pub open spec fn wf(self) -> bool {
        &&& within(self.position, COORD_LIMIT as int)
        &&& 0 <= self.radius <= COORD_LIMIT
        &&& within(self.albedo, COORD_LIMIT as int)
    }
}

impl Default for Sphere {
    /// A white sphere of radius one half at the origin.
    fn default() -> (r: Sphere)
        ensures
            r.position == (Vec3 { x: 0, y: 0, z: 0 }),
            r.radius == SCALE / 2,
            r.albedo == (Vec3 { x: SCALE, y: SCALE, z: SCALE }),
            r.wf(),
    {
        Sphere {
            position: Vec3::zero(),
            radius: SCALE / 2,
            albedo: Vec3::new(SCALE, SCALE, SCALE),
        }
    }
}

/// An ordered collection of spheres; the order only breaks ties between
/// equally distant hits.
#[derive(Debug)]
pub struct Scene {
    pub spheres: Vec<Sphere>,
}

impl Scene {
    /// Every sphere of the scene is well formed.
    pub open spec fn wf(self) -> bool {
        forall|i: int| 0 <= i < self.spheres@.len() ==> (#[trigger] self.spheres@[i]).wf()
    }

    /// A scene without spheres.
    pub fn empty() -> (r: Scene)
        ensures
            r.spheres@.len() == 0,
            r.wf(),
    {
        Scene { spheres: Vec::new() }
    }
}

/// A ray from `origin` along `direction`; the direction need not have unit
/// length.
#[derive(Clone, Copy, Debug, PartialEq, Eq, Structural)]
pub struct Ray {
    pub origin: Vec3,
    pub direction: Vec3,
}

impl Ray {
    /// The origin lies within `COORD_LIMIT`, the direction within
    /// `DIRECTION_LIMIT` and is not the zero vector.
    pub open spec fn wf(self) -> bool {
        &&& within(self.origin, COORD_LIMIT as int)
        &&& within(self.direction, DIRECTION_LIMIT as int)
        &&& self.direction != (Vec3 { x: 0, y: 0, z: 0 })
    }
}

} // verus!
