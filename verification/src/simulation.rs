//! The per-step integration driver.
//!
//! Each step computes bounds over the current positions, builds a fresh
//! spatial tree by inserting every body in array order, queries the tree
//! for every body's force in parallel, and then advances velocities and
//! positions with a semi-implicit (Euler-Cromer) update: the position step
//! uses the just-updated velocity.  The tree is rebuilt from scratch every
//! step and never mutated after construction, so the parallel query phase
//! shares it read-only.
//!
//! [`Simulation`] drives a two-dimensional body array, [`Simulation3D`] a
//! three-dimensional one; both forward to the same dimension-agnostic core.

use vstd::prelude::*;
use rayon::iter::{IndexedParallelIterator, IntoParallelRefMutIterator, ParallelIterator};
use crate::body::{Body, BodyModel};
use crate::bounds::{Bounds, BoundsModel};
use crate::fixed::{fx_div, fx_wdiv, lemma_wrap64_bounds, lemma_wrap64_id};
use crate::tree::{
    DEPTH_LIMIT, EntryModel, SpatialTree, TreeModel, lemma_empty_node_wf, lemma_force_len,
    lemma_insert_props,
};
use crate::vector::{seq_scale, seq_wadd};

verus! {

broadcast use lemma_wrap64_bounds, lemma_wrap64_id;

/// The models of a run of bodies.
pub open spec fn models_of(bs: Seq<Body>) -> Seq<BodyModel> {
    Seq::new(bs.len(), |i: int| bs[i]@)
}

/// The tagged entries a build inserts: body `i` under identifier `i`.
pub open spec fn entries_of(ms: Seq<BodyModel>) -> Seq<EntryModel> {
    Seq::new(ms.len(), |i: int| EntryModel { id: i, body: ms[i] })
}

/// All models have the given dimension.
pub open spec fn all_wf(ms: Seq<BodyModel>, dim: nat) -> bool {
    forall|i: int| 0 <= i < ms.len() ==> (#[trigger] ms[i]).wf(dim)
}

/// One step short of `i64::MIN`, saturating.
pub open spec fn sat_dec(v: i64) -> i64 {
    if v == i64::MIN {
        v
    } else {
        (v - 1) as i64
    }
}

/// One step short of `i64::MAX`, saturating.
pub open spec fn sat_inc(v: i64) -> i64 {
    if v == i64::MAX {
        v
    } else {
        (v + 1) as i64
    }
}

/// The least axis-`k` coordinate among the first `i` bodies.
pub open spec fn fold_min(ms: Seq<BodyModel>, i: nat, k: int) -> i64
    decreases i,
{
    if i <= 1 {
        ms[0].pos[k]
    } else {
        let p = fold_min(ms, (i - 1) as nat, k);
        let v = ms[i - 1].pos[k];
        if v < p {
            v
        } else {
            p
        }
    }
}

/// The greatest axis-`k` coordinate among the first `i` bodies.
pub open spec fn fold_max(ms: Seq<BodyModel>, i: nat, k: int) -> i64
    decreases i,
{
    if i <= 1 {
        ms[0].pos[k]
    } else {
        let p = fold_max(ms, (i - 1) as nat, k);
        let v = ms[i - 1].pos[k];
        if v > p {
            v
        } else {
            p
        }
    }
}

/// The region a step builds its tree over: the per-axis extent of the
/// bodies, each degenerate (zero-width) axis padded outward by one unit in
/// the last place; a unit box around the origin when there are no bodies.
pub open spec fn spec_compute_bounds(ms: Seq<BodyModel>, dim: nat) -> BoundsModel {
    if ms.len() == 0 {
        BoundsModel {
            min: Seq::new(dim, |k: int| (-0x1_0000_0000) as i64),
            max: Seq::new(dim, |k: int| 0x1_0000_0000 as i64),
        }
    } else {
        BoundsModel {
            min: Seq::new(
                dim,
                |k: int|
                    {
                        let mn = fold_min(ms, ms.len(), k);
                        let mx = fold_max(ms, ms.len(), k);
                        if mn == mx {
                            sat_dec(mn)
                        } else {
                            mn
                        }
                    },
            ),
            max: Seq::new(
                dim,
                |k: int|
                    {
                        let mn = fold_min(ms, ms.len(), k);
                        let mx = fold_max(ms, ms.len(), k);
                        if mn == mx {
                            sat_inc(mx)
                        } else {
                            mx
                        }
                    },
            ),
        }
    }
}

/// The tree a step builds over the first `i` bodies, inserted in array
/// order under their indices.
pub open spec fn spec_build_upto(ms: Seq<BodyModel>, dim: nat, i: nat) -> TreeModel
    decreases i,
{
    if i == 0 {
        TreeModel::empty_node(spec_compute_bounds(ms, dim))
    } else {
        spec_build_upto(ms, dim, (i - 1) as nat).spec_insert(
            EntryModel { id: i - 1, body: ms[i - 1] },
            DEPTH_LIMIT as nat,
        )
    }
}

/// The tree a step builds: every body inserted in array order.
pub open spec fn spec_build(ms: Seq<BodyModel>, dim: nat) -> TreeModel {
    spec_build_upto(ms, dim, ms.len())
}

/// A body after the force phase: acceleration set to the tree's force on
/// it, divided by its own mass, the rest untouched.
pub open spec fn spec_accel(t: TreeModel, i: int, b: BodyModel, g: i64, s: i64, th: i64) -> BodyModel {
    let fv = t.spec_force(i, b, g, s, th);
    BodyModel { acc: Seq::new(b.pos.len(), |k: int| fx_wdiv(fv[k] as int, b.mass as int) as i64), ..b }
}

/// A body after the velocity phase.
pub open spec fn spec_vel_step(b: BodyModel, dt: i64) -> BodyModel {
    BodyModel { vel: seq_wadd(b.vel, seq_scale(b.acc, dt)), ..b }
}

/// A body after the position phase.
pub open spec fn spec_pos_step(b: BodyModel, dt: i64) -> BodyModel {
    BodyModel { pos: seq_wadd(b.pos, seq_scale(b.vel, dt)), ..b }
}

/// Body `i` after one whole step of the system `ms`.
pub open spec fn spec_step_body(
    ms: Seq<BodyModel>,
    dim: nat,
    i: int,
    dt: i64,
    g: i64,
    s: i64,
    th: i64,
) -> BodyModel {
    spec_pos_step(spec_vel_step(spec_accel(spec_build(ms, dim), i, ms[i], g, s, th), dt), dt)
}

/// A build is well-formed, sits over the computed bounds, and holds exactly
/// the tagged entries of the bodies given to it.
pub proof fn lemma_build_props(ms: Seq<BodyModel>, dim: nat, i: nat)
    requires
        all_wf(ms, dim),
        1 <= dim <= 16,
        i <= ms.len(),
    ensures
        spec_build_upto(ms, dim, i).wf(),
        spec_build_upto(ms, dim, i).bounds == spec_compute_bounds(ms, dim),
        spec_build_upto(ms, dim, i).dim() == dim,
        spec_build_upto(ms, dim, i).contents().to_multiset() == entries_of(
            ms.take(i as int),
        ).to_multiset(),
        spec_build_upto(ms, dim, i).contents().len() == i,
    decreases i,
{
    broadcast use vstd::seq_lib::group_to_multiset_ensures;

    if i == 0 {
        lemma_empty_node_wf(spec_compute_bounds(ms, dim));
        assert(entries_of(ms.take(0)) =~= Seq::<EntryModel>::empty());
        assert(spec_build_upto(ms, dim, 0).contents().to_multiset() =~= entries_of(
            ms.take(0),
        ).to_multiset());
    } else {
        lemma_build_props(ms, dim, (i - 1) as nat);
        let prev = spec_build_upto(ms, dim, (i - 1) as nat);
        let e = EntryModel { id: i - 1, body: ms[i - 1] };
        assert(ms[i - 1].wf(dim));
        lemma_insert_props(prev, e, DEPTH_LIMIT as nat);
        assert(entries_of(ms.take(i as int)).drop_last() =~= entries_of(ms.take(i as int - 1)));
        assert(entries_of(ms.take(i as int)) =~= entries_of(ms.take(i as int - 1)).push(e));
    }
}

/// The bounds of a body run, executably.
#[verifier::loop_isolation(false)]
pub fn bounds_of_bodies(bodies: &Vec<Body>, dim: usize) -> (r: Bounds)
    requires
        all_wf(models_of(bodies@), dim as nat),
        1 <= dim <= 16,
    ensures
        r@ == spec_compute_bounds(models_of(bodies@), dim as nat),
        r@.wf(),
{
    let ghost ms = models_of(bodies@);
    let n = bodies.len();
    if n == 0 {
        let mut mn: Vec<i64> = Vec::new();
        let mut mx: Vec<i64> = Vec::new();
        let mut k: usize = 0;
        while k < dim
            invariant
                k <= dim,
                mn@.len() == k,
                mx@.len() == k,
                forall|k2: int| 0 <= k2 < k ==> (#[trigger] mn@[k2]) == (-0x1_0000_0000) as i64,
                forall|k2: int| 0 <= k2 < k ==> (#[trigger] mx@[k2]) == 0x1_0000_0000 as i64,
            decreases dim - k,
        {
            mn.push(-0x1_0000_0000);
            mx.push(0x1_0000_0000);
            k = k + 1;
        }
        let r = Bounds { min: mn, max: mx };
        proof {
            assert(r@.min =~= spec_compute_bounds(ms, dim as nat).min);
            assert(r@.max =~= spec_compute_bounds(ms, dim as nat).max);
        }
        return r;
    }
    let mut mn: Vec<i64> = Vec::new();
    let mut mx: Vec<i64> = Vec::new();
    let mut k: usize = 0;
    proof {
        assert(ms[0] == bodies@[0]@);
        assert(ms[0].wf(dim as nat));
    }
    while k < dim
        invariant
            k <= dim,
            mn@.len() == k,
            mx@.len() == k,
            forall|k2: int| 0 <= k2 < k ==> (#[trigger] mn@[k2]) == spec_compute_bounds(
                ms,
                dim as nat,
            ).min[k2],
            forall|k2: int| 0 <= k2 < k ==> (#[trigger] mx@[k2]) == spec_compute_bounds(
                ms,
                dim as nat,
            ).max[k2],
        decreases dim - k,
    {
        let mut lo: i64 = bodies[0].position[k];
        let mut hi: i64 = bodies[0].position[k];
        let mut j: usize = 1;
        proof {
            assert(ms[0] == bodies@[0]@);
        }
        while j < n
            invariant
                1 <= j <= n,
                lo == fold_min(ms, j as nat, k as int),
                hi == fold_max(ms, j as nat, k as int),
            decreases n - j,
        {
            proof {
                assert(ms[j as int] == bodies@[j as int]@);
                assert(ms[j as int].wf(dim as nat));
            }
            let v = bodies[j].position[k];
            if v < lo {
                lo = v;
            }
            if v > hi {
                hi = v;
            }
            j = j + 1;
        }
        if lo == hi {
            let plo: i64 = if lo == i64::MIN {
                lo
            } else {
                lo - 1
            };
            let phi: i64 = if hi == i64::MAX {
                hi
            } else {
                hi + 1
            };
            mn.push(plo);
            mx.push(phi);
        } else {
            mn.push(lo);
            mx.push(hi);
        }
        k = k + 1;
    }
    let r = Bounds { min: mn, max: mx };
    proof {
        assert(r@.min =~= spec_compute_bounds(ms, dim as nat).min);
        assert(r@.max =~= spec_compute_bounds(ms, dim as nat).max);
    }
    r
}

/// The tree of a body run: every body inserted in array order, executably.
#[verifier::loop_isolation(false)]
pub fn tree_of_bodies(bodies: &Vec<Body>, dim: usize) -> (t: SpatialTree)
    requires
        all_wf(models_of(bodies@), dim as nat),
        1 <= dim <= 16,
    ensures
        t@ == spec_build(models_of(bodies@), dim as nat),
        t@.wf(),
        t@.dim() == dim as nat,
{
    let ghost ms = models_of(bodies@);
    let bounds = bounds_of_bodies(bodies, dim);
    let mut t = SpatialTree::new(bounds);
    proof {
        lemma_build_props(ms, dim as nat, 0);
    }
    let n = bodies.len();
    let mut i: usize = 0;
    while i < n
        invariant
            i <= n,
            t@ == spec_build_upto(ms, dim as nat, i as nat),
            t@.wf(),
        decreases n - i,
    {
        let b = bodies[i].duplicate();
        proof {
            assert(ms[i as int] == bodies@[i as int]@);
            assert(b@.wf(dim as nat));
            assert(t@.dim() == dim as nat) by {
                lemma_build_props(ms, dim as nat, i as nat);
            }
        }
        t.insert(i, b);
        i = i + 1;
    }
    proof {
        lemma_build_props(ms, dim as nat, ms.len() as nat);
    }
    t
}

/// Set one body's acceleration from the tree's force on it.
pub fn apply_tree_force(
    body: &mut Body,
    idx: usize,
    tree: &SpatialTree,
    g: i64,
    softening: i64,
    threshold: i64,
)
    requires
        tree@.wf(),
        old(body)@.pos.len() == tree@.dim(),
    ensures
        final(body)@ == spec_accel(tree@, idx as int, old(body)@, g, softening, threshold),
{
    let fv = tree.calculate_force(body, idx, g, softening, threshold);
    proof {
        lemma_force_len(tree@, idx as int, body@, g, softening, threshold);
    }
    let dim = body.position.len();
    let mut acc: Vec<i64> = Vec::new();
    let mut k: usize = 0;
    while k < dim
        invariant
            k <= dim,
            acc@.len() == k,
            dim == fv@.len(),
            forall|k2: int| 0 <= k2 < k ==> (#[trigger] acc@[k2]) as int == fx_wdiv(
                fv@[k2] as int,
                body@.mass as int,
            ),
            body@ == old(body)@,
            fv@ == tree@.spec_force(idx as int, old(body)@, g, softening, threshold),
        decreases dim - k,
    {
        acc.push(fx_div(fv[k], body.mass));
        k = k + 1;
    }
    body.acceleration = acc;
    proof {
        let want = spec_accel(tree@, idx as int, old(body)@, g, softening, threshold);
        assert(body@.acc =~= want.acc);
        assert(body@ =~~= want);
    }
}

/// Relies on rayon's `par_iter_mut().enumerate().for_each`: it runs the
/// verified per-body force update once on every element in place, handing
/// each closure call the element's index.
#[verifier::external_body]
fn par_apply_forces(bodies: &mut Vec<Body>, tree: &SpatialTree, g: i64, softening: i64, threshold: i64)
    requires
        tree@.wf(),
        forall|i: int| 0 <= i < old(bodies)@.len() ==> (#[trigger] old(bodies)@[i])@.pos.len()
            == tree@.dim(),
    ensures
        final(bodies)@.len() == old(bodies)@.len(),
        forall|i: int| 0 <= i < old(bodies)@.len() ==> (#[trigger] final(bodies)@[i])@ == spec_accel(
            tree@,
            i,
            old(bodies)@[i]@,
            g,
            softening,
            threshold,
        ),
{
    bodies.par_iter_mut().enumerate().for_each(|(i, b)| apply_tree_force(b, i, tree, g, softening, threshold));
}

/// Relies on rayon's `par_iter_mut().for_each`: it runs the verified
/// velocity update once on every element in place.
#[verifier::external_body]
fn par_update_velocities(bodies: &mut Vec<Body>, dt: i64)
    requires
        forall|i: int| 0 <= i < old(bodies)@.len() ==> (#[trigger] old(bodies)@[i])@.acc.len()
            == old(bodies)@[i]@.vel.len(),
    ensures
        final(bodies)@.len() == old(bodies)@.len(),
        forall|i: int| 0 <= i < old(bodies)@.len() ==> (#[trigger] final(bodies)@[i])@
            == spec_vel_step(old(bodies)@[i]@, dt),
{
    bodies.par_iter_mut().for_each(|b| b.update_velocity(dt));
}

/// Relies on rayon's `par_iter_mut().for_each`: it runs the verified
/// position update once on every element in place.
#[verifier::external_body]
fn par_update_positions(bodies: &mut Vec<Body>, dt: i64)
    requires
        forall|i: int| 0 <= i < old(bodies)@.len() ==> (#[trigger] old(bodies)@[i])@.vel.len()
            == old(bodies)@[i]@.pos.len(),
    ensures
        final(bodies)@.len() == old(bodies)@.len(),
        forall|i: int| 0 <= i < old(bodies)@.len() ==> (#[trigger] final(bodies)@[i])@
            == spec_pos_step(old(bodies)@[i]@, dt),
{
    bodies.par_iter_mut().for_each(|b| b.update_position(dt));
}

/// One whole step over a body array of the given dimension.
fn step_bodies(bodies: &mut Vec<Body>, dim: usize, dt: i64, g: i64, softening: i64, threshold: i64)
    requires
        all_wf(models_of(old(bodies)@), dim as nat),
        1 <= dim <= 16,
    ensures
        final(bodies)@.len() == old(bodies)@.len(),
        forall|i: int| 0 <= i < old(bodies)@.len() ==> (#[trigger] final(bodies)@[i])@
            == spec_step_body(models_of(old(bodies)@), dim as nat, i, dt, g, softening, threshold),
        all_wf(models_of(final(bodies)@), dim as nat),
{
    let ghost ms = models_of(bodies@);
    let tree = tree_of_bodies(bodies, dim);
    proof {
        assert forall|i: int| 0 <= i < bodies@.len() implies (#[trigger] bodies@[i])@.pos.len()
            == tree@.dim() by {
            assert(ms[i] == bodies@[i]@);
            assert(ms[i].wf(dim as nat));
        }
    }
    par_apply_forces(bodies, &tree, g, softening, threshold);
    let ghost after_acc = bodies@;
    proof {
        assert forall|i: int| 0 <= i < bodies@.len() implies (#[trigger] bodies@[i])@.acc.len()
            == bodies@[i]@.vel.len() by {
            assert(bodies@[i]@ == spec_accel(tree@, i, ms[i], g, softening, threshold));
            assert(ms[i].wf(dim as nat));
        }
    }
    par_update_velocities(bodies, dt);
    let ghost after_vel = bodies@;
    proof {
        assert forall|i: int| 0 <= i < bodies@.len() implies (#[trigger] bodies@[i])@.vel.len()
            == bodies@[i]@.pos.len() by {
            assert(after_vel[i]@ == spec_vel_step(after_acc[i]@, dt));
            assert(after_acc[i]@ == spec_accel(tree@, i, ms[i], g, softening, threshold));
            assert(ms[i].wf(dim as nat));
        }
    }
    par_update_positions(bodies, dt);
    proof {
        assert forall|i: int| 0 <= i < bodies@.len() implies (#[trigger] bodies@[i])@
            == spec_step_body(ms, dim as nat, i, dt, g, softening, threshold) by {
            assert(bodies@[i]@ == spec_pos_step(after_vel[i]@, dt));
            assert(after_vel[i]@ == spec_vel_step(after_acc[i]@, dt));
            assert(after_acc[i]@ == spec_accel(tree@, i, ms[i], g, softening, threshold));
        }
        assert forall|i: int| 0 <= i < bodies@.len() implies (#[trigger] models_of(bodies@)[i]).wf(
            dim as nat,
        ) by {
            assert(models_of(bodies@)[i] == bodies@[i]@);
            assert(bodies@[i]@ == spec_step_body(ms, dim as nat, i, dt, g, softening, threshold));
            assert(ms[i].wf(dim as nat));
            assert(tree@.spec_force(i, ms[i], g, softening, threshold).len() == dim as nat) by {
                crate::tree::lemma_force_len(tree@, i, ms[i], g, softening, threshold);
            }
        }
    }
}

/// A two-dimensional N-body simulation: the body array plus the step
/// parameters `timestep`, `g`, `softening` and `tree_threshold`.
#[derive(Debug)]
pub struct Simulation {
    pub bodies: Vec<Body>,
    pub timestep: i64,
    pub g: i64,
    pub softening: i64,
    pub tree_threshold: i64,
}

impl Simulation {
    /// All bodies are two-dimensional.
    pub open spec fn wf(self) -> bool {
        all_wf(models_of(self.bodies@), 2)
    }

    /// A simulation over the given bodies and parameters.
    pub fn new(bodies: Vec<Body>, timestep: i64, g: i64, softening: i64, tree_threshold: i64) -> (s:
        Simulation)
        requires
            all_wf(models_of(bodies@), 2),
        ensures
            s.bodies@ == bodies@,
            s.timestep == timestep,
            s.g == g,
            s.softening == softening,
            s.tree_threshold == tree_threshold,
            s.wf(),
    {
        Simulation { bodies, timestep, g, softening, tree_threshold }
    }

    /// The current bodies.
    pub fn bodies(&self) -> (r: &Vec<Body>)
        ensures
            r@ == self.bodies@,
    {
        &self.bodies
    }

    /// The region a step would build its tree over.
    pub fn compute_bounds(&self) -> (r: Bounds)
        requires
            self.wf(),
        ensures
            r@ == spec_compute_bounds(models_of(self.bodies@), 2),
            r@.wf(),
    {
        bounds_of_bodies(&self.bodies, 2)
    }

    /// The tree a step would use: every body inserted in array order.
    pub fn build_tree(&self) -> (t: SpatialTree)
        requires
            self.wf(),
        ensures
            t@ == spec_build(models_of(self.bodies@), 2),
            t@.wf(),
    {
        tree_of_bodies(&self.bodies, 2)
    }

    /// Advance the system by one step.
    pub fn step(&mut self)
        requires
            old(self).wf(),
        ensures
            final(self).bodies@.len() == old(self).bodies@.len(),
            forall|i: int| 0 <= i < old(self).bodies@.len() ==> (#[trigger] final(self).bodies@[i])@
                == spec_step_body(
                models_of(old(self).bodies@),
                2,
                i,
                old(self).timestep,
                old(self).g,
                old(self).softening,
                old(self).tree_threshold,
            ),
            final(self).timestep == old(self).timestep,
            final(self).g == old(self).g,
            final(self).softening == old(self).softening,
            final(self).tree_threshold == old(self).tree_threshold,
            final(self).wf(),
    {
        let dt = self.timestep;
        let g = self.g;
        let softening = self.softening;
        let threshold = self.tree_threshold;
        step_bodies(&mut self.bodies, 2, dt, g, softening, threshold);
    }

    /// The tree a step would use, rebuilt on demand for visualization.
    pub fn get_tree(&self) -> (t: SpatialTree)
        requires
            self.wf(),
        ensures
            t@ == spec_build(models_of(self.bodies@), 2),
            t@.wf(),
    {
        self.build_tree()
    }
}

/// A three-dimensional N-body simulation: the body array plus the step
/// parameters `timestep`, `g`, `softening` and `tree_threshold`.
#[derive(Debug)]
pub struct Simulation3D {
    pub bodies: Vec<Body>,
    pub timestep: i64,
    pub g: i64,
    pub softening: i64,
    pub tree_threshold: i64,
}

impl Simulation3D {
    /// All bodies are three-dimensional.
    pub open spec fn wf(self) -> bool {
        all_wf(models_of(self.bodies@), 3)
    }

    /// A simulation over the given bodies and parameters.
    pub fn new(bodies: Vec<Body>, timestep: i64, g: i64, softening: i64, tree_threshold: i64) -> (s:
        Simulation3D)
        requires
            all_wf(models_of(bodies@), 3),
        ensures
            s.bodies@ == bodies@,
            s.timestep == timestep,
            s.g == g,
            s.softening == softening,
            s.tree_threshold == tree_threshold,
            s.wf(),
    {
        Simulation3D { bodies, timestep, g, softening, tree_threshold }
    }

    /// The current bodies.
    pub fn bodies(&self) -> (r: &Vec<Body>)
        ensures
            r@ == self.bodies@,
    {
        &self.bodies
    }

    /// The region a step would build its tree over.
    pub fn compute_bounds(&self) -> (r: Bounds)
        requires
            self.wf(),
        ensures
            r@ == spec_compute_bounds(models_of(self.bodies@), 3),
            r@.wf(),
    {
        bounds_of_bodies(&self.bodies, 3)
    }

    /// The tree a step would use: every body inserted in array order.
    pub fn build_tree(&self) -> (t: SpatialTree)
        requires
            self.wf(),
        ensures
            t@ == spec_build(models_of(self.bodies@), 3),
            t@.wf(),
    {
        tree_of_bodies(&self.bodies, 3)
    }

    /// Advance the system by one step.
    pub fn step(&mut self)
        requires
            old(self).wf(),
        ensures
            final(self).bodies@.len() == old(self).bodies@.len(),
            forall|i: int| 0 <= i < old(self).bodies@.len() ==> (#[trigger] final(self).bodies@[i])@
                == spec_step_body(
                models_of(old(self).bodies@),
                3,
                i,
                old(self).timestep,
                old(self).g,
                old(self).softening,
                old(self).tree_threshold,
            ),
            final(self).timestep == old(self).timestep,
            final(self).g == old(self).g,
            final(self).softening == old(self).softening,
            final(self).tree_threshold == old(self).tree_threshold,
            final(self).wf(),
    {
        let dt = self.timestep;
        let g = self.g;
        let softening = self.softening;
        let threshold = self.tree_threshold;
        step_bodies(&mut self.bodies, 3, dt, g, softening, threshold);
    }

    /// The tree a step would use, rebuilt on demand for visualization.
    pub fn get_tree(&self) -> (t: SpatialTree)
        requires
            self.wf(),
        ensures
            t@ == spec_build(models_of(self.bodies@), 3),
            t@.wf(),
    {
        self.build_tree()
    }
}

} // verus!
