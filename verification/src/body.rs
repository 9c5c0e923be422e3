//! A point mass with position, velocity and acceleration state.
//!
//! A body's coordinate vectors all share one length, the dimension of the
//! simulated space.  The integrator mutates bodies in place; the spatial
//! tree stores copies taken at build time.

use vstd::prelude::*;
use crate::vector::{seq_scale, seq_wadd, vec_dup, vec_wadd, vec_scale, vec_zero, seq_zero};

verus! {

/// The mathematical value of a [`Body`]: its mass and coordinate vectors.
#[verifier::ext_equal]
pub struct BodyModel {
    pub mass: i64,
    pub pos: Seq<i64>,
    pub vel: Seq<i64>,
    pub acc: Seq<i64>,
}

impl BodyModel {
    /// All coordinate vectors have the stated dimension.
    pub open spec fn wf(self, dim: nat) -> bool {
        &&& self.pos.len() == dim
        &&& self.vel.len() == dim
        &&& self.acc.len() == dim
    }
}

/// A point mass; `mass` is expected positive by the simulation's caller.
#[derive(Clone, Debug)]
pub struct Body {
    pub mass: i64,
    pub position: Vec<i64>,
    pub velocity: Vec<i64>,
    pub acceleration: Vec<i64>,
}

impl View for Body {
    type V = BodyModel;

    open spec fn view(&self) -> BodyModel {
        BodyModel {
            mass: self.mass,
            pos: self.position@,
            vel: self.velocity@,
            acc: self.acceleration@,
        }
    }
}

impl Body {
    /// A two-dimensional body at `(x, y)` with velocity `(vx, vy)`.
    pub fn new(mass: i64, x: i64, y: i64, vx: i64, vy: i64) -> (b: Body)
        ensures
            b@ == (BodyModel {
                mass,
                pos: seq![x, y],
                vel: seq![vx, vy],
                acc: seq![0i64, 0i64],
            }),
            b@.wf(2),
    {
        let b = Body {
            mass,
            position: vec![x, y],
            velocity: vec![vx, vy],
            acceleration: vec![0, 0],
        };
        proof {
            assert(b@.pos =~= seq![x, y]);
            assert(b@.vel =~= seq![vx, vy]);
            assert(b@.acc =~= seq![0i64, 0i64]);
        }
        b
    }

    /// A three-dimensional body at `(x, y, z)` with velocity `(vx, vy, vz)`.
    pub fn new_3d(mass: i64, x: i64, y: i64, z: i64, vx: i64, vy: i64, vz: i64) -> (b: Body)
        ensures
            b@ == (BodyModel {
                mass,
                pos: seq![x, y, z],
                vel: seq![vx, vy, vz],
                acc: seq![0i64, 0i64, 0i64],
            }),
            b@.wf(3),
    {
        let b = Body {
            mass,
            position: vec![x, y, z],
            velocity: vec![vx, vy, vz],
            acceleration: vec![0, 0, 0],
        };
        proof {
            assert(b@.pos =~= seq![x, y, z]);
            assert(b@.vel =~= seq![vx, vy, vz]);
            assert(b@.acc =~= seq![0i64, 0i64, 0i64]);
        }
        b
    }

    /// A body of any dimension, from whole coordinate vectors.
    pub fn new_with_arrays(mass: i64, position: Vec<i64>, velocity: Vec<i64>) -> (b: Body)
        requires
            position@.len() == velocity@.len(),
        ensures
            b@ == (BodyModel {
                mass,
                pos: position@,
                vel: velocity@,
                acc: seq_zero(position@.len()),
            }),
            b@.wf(position@.len()),
    {
        let dim = position.len();
        Body {
            mass,
            position,
            velocity,
            acceleration: vec_zero(dim),
        }
    }

    /// Advance the position by one step of the current velocity.
    pub fn update_position(&mut self, dt: i64)
        requires
            old(self)@.vel.len() == old(self)@.pos.len(),
        ensures
            final(self)@ == (BodyModel {
                pos: seq_wadd(old(self)@.pos, seq_scale(old(self)@.vel, dt)),
                ..old(self)@
            }),
    {
        let step = vec_scale(&self.velocity, dt);
        self.position = vec_wadd(&self.position, &step);
    }

    /// Advance the velocity by one step of the current acceleration.
    pub fn update_velocity(&mut self, dt: i64)
        requires
            old(self)@.acc.len() == old(self)@.vel.len(),
        ensures
            final(self)@ == (BodyModel {
                vel: seq_wadd(old(self)@.vel, seq_scale(old(self)@.acc, dt)),
                ..old(self)@
            }),
    {
        let step = vec_scale(&self.acceleration, dt);
        self.velocity = vec_wadd(&self.velocity, &step);
    }

    /// An exact copy of this body.
    pub fn duplicate(&self) -> (r: Body)
        ensures
            r@ == self@,
    {
        Body {
            mass: self.mass,
            position: vec_dup(&self.position),
            velocity: vec_dup(&self.velocity),
            acceleration: vec_dup(&self.acceleration),
        }
    }
}

} // verus!
