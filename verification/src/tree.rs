//! The hierarchical spatial index: a 2^D-ary tree over [`Bounds`].
//!
//! Every node aggregates the total mass and the first mass moment of all
//! bodies beneath it; the centre of mass is the moment divided by the mass.
//! A node is empty, holds resident bodies and no children, or holds children
//! and (outside one depth-capped corner case) no resident bodies.  Bodies
//! that share one exact position stack in a single leaf, so insertion always
//! terminates; any other conflict splits the leaf, pushing its residents
//! down one level, to a depth cap of [`DEPTH_LIMIT`] levels.
//!
//! Each inserted body carries a caller-chosen identifier; a force query
//! excludes the node holding the querying body's identifier, so a body
//! exerts no force on itself.

use vstd::prelude::*;
use crate::body::{Body, BodyModel};
use crate::bounds::{Bounds, BoundsModel, pow2i, quadrant_of, lemma_pow2i_16, lemma_pow2i_mono, lemma_pow2i_pos};
use crate::fixed::{fx_add, fx_div, fx_mul, fx_sqrt, fx_wadd, fx_wdiv, fx_wmul, fx_wsqrt, lemma_wrap64_bounds, lemma_wrap64_add, lemma_wrap64_id, two63, wrap64};
use vstd::seq_lib::{group_to_multiset_ensures, lemma_multiset_commutative};
use vstd::multiset::{Multiset, group_multiset_axioms};
use crate::vector::{norm_sq, seq_wadd, seq_wsub, seq_zero, vec_norm_sq, vec_wadd, vec_wsub, vec_zero, vec_eq, vec_dup};

verus! {

broadcast use lemma_wrap64_bounds, lemma_wrap64_id, group_to_multiset_ensures, group_multiset_axioms;

/// How many levels an insertion may split before bodies stack in place.
pub const DEPTH_LIMIT: u64 = 96;

/// One body held by the tree, tagged with its caller-chosen identifier.
#[verifier::ext_equal]
pub struct EntryModel {
    pub id: int,
    pub body: BodyModel,
}

/// The mathematical value of a tree node.
#[verifier::ext_equal]
pub struct TreeModel {
    pub bounds: BoundsModel,
    pub total: i64,
    pub moment: Seq<i64>,
    pub com: Seq<i64>,
    pub bodies: Seq<EntryModel>,
    pub kids: Seq<Option<TreeModel>>,
}

/// The wrapping sum of the masses of a run of entries.
pub open spec fn wsum_mass(es: Seq<EntryModel>) -> int
    decreases es.len(),
{
    if es.len() == 0 {
        0
    } else {
        fx_wadd(wsum_mass(es.drop_last()), es.last().body.mass as int)
    }
}

/// The wrapping sum of the axis-`k` mass moments of a run of entries.
pub open spec fn wsum_moment(es: Seq<EntryModel>, k: int) -> int
    decreases es.len(),
{
    if es.len() == 0 {
        0
    } else {
        fx_wadd(
            wsum_moment(es.drop_last(), k),
            fx_wmul(es.last().body.mass as int, es.last().body.pos[k] as int),
        )
    }
}

/// All entries sit at exactly the given position.
pub open spec fn all_at(es: Seq<EntryModel>, p: Seq<i64>) -> bool {
    forall|j: int| 0 <= j < es.len() ==> #[trigger] es[j].body.pos == p
}

/// The componentwise fixed-point quotient of a vector by a scalar.
pub open spec fn seq_fx_div(m: Seq<i64>, d: i64) -> Seq<i64> {
    Seq::new(m.len(), |k: int| fx_wdiv(m[k] as int, d as int) as i64)
}

/// The entries beneath the first `i` slots of a child row, in slot order.
pub open spec fn subtree_entries(kids: Seq<Option<TreeModel>>, i: nat) -> Seq<EntryModel>
    decreases kids, i,
    via subtree_entries_dec
{
    if i == 0 || i > kids.len() {
        Seq::empty()
    } else {
        subtree_entries(kids, (i - 1) as nat) + match kids[i - 1] {
            Some(k) => k.contents(),
            None => Seq::empty(),
        }
    }
}

#[via_fn]
proof fn subtree_entries_dec(kids: Seq<Option<TreeModel>>, i: nat) {
    if 0 < i <= kids.len() {
        match kids[i - 1] {
            Some(k) => {
                assert(decreases_to!(kids => kids[i - 1]));
                assert(decreases_to!(kids[i - 1] => k));
            }
            None => {}
        }
    }
}

/// The entries beneath one child slot.
pub open spec fn slot_entries(o: Option<TreeModel>) -> Seq<EntryModel> {
    match o {
        Some(k) => k.contents(),
        None => Seq::empty(),
    }
}

/// Whether some resident entry carries the given identifier.
pub open spec fn holds_id(es: Seq<EntryModel>, tid: int) -> bool {
    exists|j: int| 0 <= j < es.len() && (#[trigger] es[j]).id == tid
}

/// The force the first `i` child slots exert on a queried body, summed in
/// slot order with wrapping addition.
pub open spec fn force_kids(
    kids: Seq<Option<TreeModel>>,
    i: nat,
    tid: int,
    tb: BodyModel,
    g: i64,
    s: i64,
    th: i64,
    dim: nat,
) -> Seq<i64>
    decreases kids, i,
    via force_kids_dec
{
    if i == 0 || i > kids.len() {
        seq_zero(dim)
    } else {
        let rest = force_kids(kids, (i - 1) as nat, tid, tb, g, s, th, dim);
        match kids[i - 1] {
            Some(k) => seq_wadd(rest, k.spec_force(tid, tb, g, s, th)),
            None => rest,
        }
    }
}

#[via_fn]
proof fn force_kids_dec(
    kids: Seq<Option<TreeModel>>,
    i: nat,
    tid: int,
    tb: BodyModel,
    g: i64,
    s: i64,
    th: i64,
    dim: nat,
) {
    if 0 < i <= kids.len() {
        match kids[i - 1] {
            Some(k) => {
                assert(decreases_to!(kids => kids[i - 1]));
                assert(decreases_to!(kids[i - 1] => k));
            }
            None => {}
        }
    }
}

impl TreeModel {
    /// The dimension of the node's region.
    pub open spec fn dim(self) -> nat {
        self.bounds.dim()
    }

    /// No child slot is occupied.
    pub open spec fn kids_all_none(self) -> bool {
        forall|q: int| 0 <= q < self.kids.len() ==> self.kids[q] is None
    }

    /// Every entry in the subtree: the resident bodies, then each child's
    /// contents in slot order.
    pub open spec fn contents(self) -> Seq<EntryModel>
        decreases self, self.kids.len() + 1,
        via Self::contents_dec
    {
        self.bodies + subtree_entries(self.kids, self.kids.len())
    }

    #[via_fn]
    proof fn contents_dec(self) {
        assert(decreases_to!(self => self.kids));
    }

    /// The node holds resident bodies, no children, and all residents share
    /// one position (the common case: a leaf, possibly a coincident stack).
    pub open spec fn is_cluster(self) -> bool {
        &&& self.bodies.len() > 0
        &&& self.kids_all_none()
        &&& all_at(self.bodies, self.bodies[0].body.pos)
    }

    /// Structural well-formedness: consistent dimensions, a full child-slot
    /// row, well-formed and non-empty children, and at least two entries
    /// beneath any node that has split.
    pub open spec fn wf_shape(self) -> bool
        decreases self,
    {
        &&& self.bounds.wf()
        &&& self.com.len() == self.dim()
        &&& self.moment.len() == self.dim()
        &&& self.kids.len() == pow2i(self.dim() as int)
        &&& (forall|j: int| 0 <= j < self.bodies.len() ==> #[trigger] self.bodies[j].body.wf(self.dim()))
        &&& (forall|q: int| 0 <= q < self.kids.len() && self.kids[q] is Some ==> {
            &&& (#[trigger] self.kids[q])->0.wf_shape()
            &&& self.kids[q]->0.wf_aggs()
            &&& self.kids[q]->0.dim() == self.dim()
            &&& self.kids[q]->0.contents().len() > 0
        })
        &&& (!self.kids_all_none() ==> subtree_entries(self.kids, self.kids.len()).len() >= 2)
    }

    /// Aggregate well-formedness of the node itself: the stored total mass
    /// and moment are the wrapping sums over the subtree's entries, and the
    /// centre of mass follows its rule: the shared position for a coincident
    /// cluster, zero for an empty node, else moment over mass.
    pub open spec fn wf_aggs(self) -> bool {
        &&& self.total as int == wsum_mass(self.contents())
        &&& (forall|k: int| 0 <= k < self.dim() ==>
            (#[trigger] self.moment[k]) as int == wsum_moment(self.contents(), k))
        &&& (self.bodies.len() == 0 && self.kids_all_none() ==> {
            &&& self.com == seq_zero(self.dim())
            &&& self.moment == seq_zero(self.dim())
        })
        &&& (self.is_cluster() ==> self.com == self.bodies[0].body.pos)
        &&& (!self.is_cluster() && self.contents().len() > 0 && self.total > 0 ==>
            self.com == seq_fx_div(self.moment, self.total))
    }

    /// Full well-formedness.
    pub open spec fn wf(self) -> bool {
        self.wf_shape() && self.wf_aggs()
    }

    /// The child row is complete and every present child is well-formed,
    /// non-empty and of the node's own dimension.
    pub open spec fn kids_ok(self) -> bool {
        &&& self.bounds.wf()
        &&& self.com.len() == self.dim()
        &&& self.moment.len() == self.dim()
        &&& self.kids.len() == pow2i(self.dim() as int)
        &&& (forall|q: int| 0 <= q < self.kids.len() && self.kids[q] is Some ==> {
            &&& (#[trigger] self.kids[q])->0.wf()
            &&& self.kids[q]->0.dim() == self.dim()
            &&& self.kids[q]->0.contents().len() > 0
        })
    }

    /// Recompute the node's aggregates from the entries beneath it: the
    /// wrapping total mass and moment, and — whenever mass remains positive
    /// — the centre of mass as moment over mass.
    pub open spec fn spec_recompute(self) -> TreeModel {
        let es = self.contents();
        let total2 = wsum_mass(es) as i64;
        let moment2 = Seq::new(self.dim(), |k: int| wsum_moment(es, k) as i64);
        let com2 = if total2 > 0 {
            seq_fx_div(moment2, total2)
        } else {
            self.com
        };
        TreeModel { total: total2, moment: moment2, com: com2, ..self }
    }

    /// Hand one entry down into the child its position selects, creating
    /// the child over its sub-region first if the slot is empty.
    pub open spec fn spec_route(self, e: EntryModel, fuel: nat) -> TreeModel
        decreases fuel, 0nat, 0nat,
    {
        if fuel == 0 {
            self
        } else {
            let c = self.bounds.center_of();
            let q = quadrant_of(e.body.pos, c, self.dim() as int);
            let kid = match self.kids[q] {
                Some(k) => k,
                None => TreeModel::empty_node(self.bounds.child_of(q)),
            };
            let kid2 = kid.spec_insert(e, (fuel - 1) as nat);
            TreeModel { kids: self.kids.update(q, Some(kid2)), ..self }
        }
    }

    /// Hand a run of entries down, last entry first.
    pub open spec fn spec_spread(self, es: Seq<EntryModel>, fuel: nat) -> TreeModel
        decreases fuel, 1nat, es.len(),
    {
        if es.len() == 0 {
            self
        } else {
            self.spec_route(es.last(), fuel).spec_spread(es.drop_last(), fuel)
        }
    }

    /// Insert one entry, to a remaining split budget of `fuel` levels.
    ///
    /// An empty node stores the entry directly; a leaf whose residents all
    /// share the entry's exact position stacks it in place; with the budget
    /// spent the entry also stays put; otherwise the node hands its
    /// residents and then the entry down into children and recomputes its
    /// aggregates from them.
    pub open spec fn spec_insert(self, e: EntryModel, fuel: nat) -> TreeModel
        decreases fuel, 2nat, 0nat,
    {
        if self.bodies.len() == 0 && self.kids_all_none() {
            TreeModel {
                total: e.body.mass,
                moment: Seq::new(
                    self.dim(),
                    |k: int| fx_wmul(e.body.mass as int, e.body.pos[k] as int) as i64,
                ),
                com: e.body.pos,
                bodies: seq![e],
                ..self
            }
        } else if self.kids_all_none() && all_at(self.bodies, e.body.pos) {
            TreeModel {
                total: fx_wadd(self.total as int, e.body.mass as int) as i64,
                moment: Seq::new(
                    self.dim(),
                    |k: int| fx_wadd(
                        self.moment[k] as int,
                        fx_wmul(e.body.mass as int, e.body.pos[k] as int),
                    ) as i64,
                ),
                bodies: self.bodies.push(e),
                ..self
            }
        } else if fuel == 0 {
            let total2 = fx_wadd(self.total as int, e.body.mass as int) as i64;
            let moment2 = Seq::new(
                self.dim(),
                |k: int| fx_wadd(
                    self.moment[k] as int,
                    fx_wmul(e.body.mass as int, e.body.pos[k] as int),
                ) as i64,
            );
            let com2 = if total2 > 0 {
                seq_fx_div(moment2, total2)
            } else {
                self.com
            };
            TreeModel {
                total: total2,
                moment: moment2,
                com: com2,
                bodies: self.bodies.push(e),
                ..self
            }
        } else {
            let cleared = TreeModel { bodies: Seq::empty(), ..self };
            cleared.spec_spread(self.bodies, fuel).spec_route(e, fuel).spec_recompute()
        }
    }

    /// The force this subtree exerts on a queried body.
    ///
    /// A node whose resident list holds the querying identifier contributes
    /// nothing.  A leaf, or a node far enough away that its diagonal over
    /// the distance stays below the opening threshold, acts as one point
    /// mass at its centre of mass — except at exactly zero distance, which
    /// contributes nothing.  Any other node contributes the sum over its
    /// children.
    pub open spec fn spec_force(self, tid: int, tb: BodyModel, g: i64, s: i64, th: i64) -> Seq<i64>
        decreases self, self.kids.len() + 1,
        via Self::spec_force_dec
    {
        if holds_id(self.bodies, tid) {
            seq_zero(self.dim())
        } else {
            let dx = seq_wsub(self.com, tb.pos);
            let dsq = norm_sq(dx);
            let dist = fx_wsqrt(dsq);
            if self.kids_all_none() || (dist > 0 && fx_wdiv(self.bounds.diag_of(), dist) < th) {
                if dsq == 0 {
                    seq_zero(self.dim())
                } else {
                    let f = fx_wdiv(
                        fx_wmul(fx_wmul(g as int, tb.mass as int), self.total as int),
                        fx_wadd(dsq, s as int),
                    );
                    Seq::new(self.dim(), |k: int| fx_wdiv(fx_wmul(f, dx[k] as int), dist) as i64)
                }
            } else {
                force_kids(self.kids, self.kids.len(), tid, tb, g, s, th, self.dim())
            }
        }
    }

    #[via_fn]
    proof fn spec_force_dec(self, tid: int, tb: BodyModel, g: i64, s: i64, th: i64) {
        assert(decreases_to!(self => self.kids));
    }

    /// The model of a freshly created node over a region.
    pub open spec fn empty_node(b: BoundsModel) -> TreeModel {
        TreeModel {
            bounds: b,
            total: 0,
            moment: seq_zero(b.dim()),
            com: seq_zero(b.dim()),
            bodies: Seq::empty(),
            kids: Seq::new(pow2i(b.dim() as int) as nat, |q: int| None),
        }
    }
}

/// A node of the spatial index.
#[derive(Debug)]
pub struct SpatialTree {
    pub bounds: Bounds,
    pub total_mass: i64,
    pub moment: Vec<i64>,
    pub center_of_mass: Vec<i64>,
    pub bodies: Vec<(usize, Body)>,
    pub children: Vec<Option<Box<SpatialTree>>>,
}

impl SpatialTree {
    /// The model of the child-slot row, up to slot `i`.
    pub open spec fn kids_model_upto(s: Seq<Option<Box<SpatialTree>>>, i: nat) -> Seq<Option<TreeModel>>
        decreases s, i,
        via Self::kids_model_upto_dec
    {
        if i == 0 || i > s.len() {
            Seq::empty()
        } else {
            Self::kids_model_upto(s, (i - 1) as nat).push(
                match s[i - 1] {
                    Some(b) => Some(b.model()),
                    None => None,
                },
            )
        }
    }

    #[via_fn]
    proof fn kids_model_upto_dec(s: Seq<Option<Box<SpatialTree>>>, i: nat) {
        if 0 < i <= s.len() {
            match s[i - 1] {
                Some(b) => {
                    assert(decreases_to!(s => s[i - 1]));
                    assert(decreases_to!(s[i - 1] => b));
                }
                None => {}
            }
        }
    }

    /// The mathematical value of this node and everything beneath it.
    pub open spec fn model(self) -> TreeModel
        decreases self, self.children@.len() + 1,
        via Self::model_dec
    {
        TreeModel {
            bounds: self.bounds@,
            total: self.total_mass,
            moment: self.moment@,
            com: self.center_of_mass@,
            bodies: Seq::new(
                self.bodies@.len(),
                |j: int| EntryModel { id: self.bodies@[j].0 as int, body: self.bodies@[j].1@ },
            ),
            kids: Self::kids_model_upto(self.children@, self.children@.len()),
        }
    }

    #[via_fn]
    proof fn model_dec(self) {
        assert(decreases_to!(self => self.children));
        assert(decreases_to!(self.children => self.children@));
    }
}

impl View for SpatialTree {
    type V = TreeModel;

    open spec fn view(&self) -> TreeModel {
        self.model()
    }
}

impl SpatialTree {
    /// A fresh, empty node over a region.
    pub fn new(bounds: Bounds) -> (t: SpatialTree)
        requires
            bounds@.wf(),
        ensures
            t@ == TreeModel::empty_node(bounds@),
            t@.wf(),
    {
        let dim = bounds.min.len();
        let mut nchild: usize = 1;
        let mut k: usize = 0;
        proof {
            lemma_pow2i_16();
            lemma_pow2i_mono(dim as int, 16);
        }
        while k < dim
            invariant
                k <= dim,
                dim <= 16,
                nchild == pow2i(k as int),
                nchild <= 65536,
            decreases dim - k,
        {
            proof {
                lemma_pow2i_16();
                lemma_pow2i_mono(k as int + 1, 16);
            }
            nchild = nchild * 2;
            k = k + 1;
        }
        let mut children: Vec<Option<Box<SpatialTree>>> = Vec::new();
        let mut q: usize = 0;
        while q < nchild
            invariant
                q <= nchild,
                children@.len() == q,
                forall|j: int| 0 <= j < q ==> children@[j] is None,
            decreases nchild - q,
        {
            children.push(None);
            q = q + 1;
        }
        let t = SpatialTree {
            bounds,
            total_mass: 0,
            moment: vec_zero(dim),
            center_of_mass: vec_zero(dim),
            bodies: Vec::new(),
            children,
        };
        proof {
            lemma_kids_model_all_none(t.children@, nchild as nat);
            assert(t@.kids =~= TreeModel::empty_node(t.bounds@).kids);
            assert(t@.bodies =~= Seq::<EntryModel>::empty());
            assert(t@ =~~= TreeModel::empty_node(t.bounds@));
            lemma_empty_node_wf(t.bounds@);
        }
        t
    }

    /// The region this node covers (for visualization).
    pub fn get_bounds(&self) -> (b: &Bounds)
        ensures
            b@ == self@.bounds,
    {
        &self.bounds
    }

    /// The child-slot row (for visualization).
    pub fn get_children(&self) -> (c: &Vec<Option<Box<SpatialTree>>>)
        ensures
            c@ == self.children@,
    {
        &self.children
    }

    /// The aggregated mass of everything beneath this node.
    pub fn get_total_mass(&self) -> (m: i64)
        ensures
            m == self@.total,
    {
        self.total_mass
    }

    /// The aggregated centre of mass of everything beneath this node.
    pub fn get_center_of_mass(&self) -> (c: Vec<i64>)
        ensures
            c@ == self@.com,
    {
        vec_dup(&self.center_of_mass)
    }

    /// Whether this node has no children.
    pub fn is_leaf(&self) -> (r: bool)
        ensures
            r == self@.kids_all_none(),
    {
        let mut q: usize = 0;
        let n = self.children.len();
        proof {
            lemma_kids_model_len(self.children@, n as nat);
        }
        while q < n
            invariant
                q <= n,
                n == self.children@.len(),
                self@.kids.len() == n,
                forall|j: int| 0 <= j < q ==> self@.kids[j] is None,
                forall|j: int| 0 <= j < n ==>
                    ((#[trigger] self@.kids[j]) is None <==> self.children@[j] is None),
            decreases n - q,
        {
            if self.children[q].is_some() {
                proof {
                    assert(self@.kids[q as int] is Some);
                }
                return false;
            }
            q = q + 1;
        }
        true
    }

    /// Whether every resident body sits exactly at the given position.
    fn all_bodies_at(&self, p: &Vec<i64>) -> (r: bool)
        ensures
            r == all_at(self@.bodies, p@),
    {
        let mut j: usize = 0;
        let n = self.bodies.len();
        while j < n
            invariant
                j <= n,
                n == self.bodies@.len(),
                forall|i2: int| 0 <= i2 < j ==> (#[trigger] self@.bodies[i2]).body.pos == p@,
            decreases n - j,
        {
            let pair = &self.bodies[j];
            if !vec_eq(&pair.1.position, p) {
                proof {
                    assert(self@.bodies[j as int].body.pos == pair.1.position@);
                }
                return false;
            }
            j = j + 1;
        }
        true
    }

    /// Recompute this node's aggregates from its residents and its
    /// children's aggregates, as [`TreeModel::spec_recompute`] describes.
    #[verifier::loop_isolation(false)]
    fn update_mass_distribution(&mut self)
        requires
            old(self)@.kids_ok(),
            forall|j: int| 0 <= j < old(self)@.bodies.len() ==> (#[trigger] old(
                self,
            )@.bodies[j]).body.pos.len() == old(self)@.dim(),
        ensures
            final(self)@ == old(self)@.spec_recompute(),
    {
        let ghost t = self@;
        let dim = self.bounds.min.len();
        let nb = self.bodies.len();
        let mut total: i64 = 0;
        let mut mom: Vec<i64> = vec_zero(dim);
        let mut j: usize = 0;
        proof {
            assert(t.bodies.take(0) =~= Seq::<EntryModel>::empty());
        }
        while j < nb
            invariant
                j <= nb,
                mom@.len() == dim,
                total as int == wsum_mass(t.bodies.take(j as int)),
                forall|k2: int| 0 <= k2 < dim ==> (#[trigger] mom@[k2]) as int == wsum_moment(
                    t.bodies.take(j as int),
                    k2,
                ),
            decreases nb - j,
        {
            let m = self.bodies[j].1.mass;
            proof {
                assert(t.bodies.take(j as int + 1).drop_last() =~= t.bodies.take(j as int));
                assert(t.bodies.take(j as int + 1).last() == t.bodies[j as int]);
                assert(t.bodies[j as int].body.mass == m);
            }
            total = fx_add(total, m);
            let mut k: usize = 0;
            while k < dim
                invariant
                    k <= dim,
                    mom@.len() == dim,
                    forall|k2: int| 0 <= k2 < k ==> (#[trigger] mom@[k2]) as int == wsum_moment(
                        t.bodies.take(j as int + 1),
                        k2,
                    ),
                    forall|k2: int| k <= k2 < dim ==> (#[trigger] mom@[k2]) as int == wsum_moment(
                        t.bodies.take(j as int),
                        k2,
                    ),
                decreases dim - k,
            {
                let px = self.bodies[j].1.position[k];
                proof {
                    assert(t.bodies.take(j as int + 1).drop_last() =~= t.bodies.take(j as int));
                    assert(t.bodies.take(j as int + 1).last() == t.bodies[j as int]);
                    assert(t.bodies[j as int].body.pos[k as int] == px);
                }
                let mv = fx_add(mom[k], fx_mul(m, px));
                mom[k] = mv;
                k = k + 1;
            }
            j = j + 1;
        }
        proof {
            assert(t.bodies.take(nb as int) =~= t.bodies);
            assert(subtree_entries(t.kids, 0) =~= Seq::<EntryModel>::empty());
            assert(t.bodies + subtree_entries(t.kids, 0) =~= t.bodies);
        }
        let nk = self.children.len();
        proof {
            lemma_kids_model_len(self.children@, nk as nat);
            assert(t.kids.len() == nk);
        }
        let mut q: usize = 0;
        while q < nk
            invariant
                q <= nk,
                mom@.len() == dim,
                total as int == wsum_mass(t.bodies + subtree_entries(t.kids, q as nat)),
                forall|k2: int| 0 <= k2 < dim ==> (#[trigger] mom@[k2]) as int == wsum_moment(
                    t.bodies + subtree_entries(t.kids, q as nat),
                    k2,
                ),
            decreases nk - q,
        {
            let ghost pre = t.bodies + subtree_entries(t.kids, q as nat);
            match &self.children[q] {
                Some(c) => {
                    let ghost kidc = c.model().contents();
                    proof {
                        assert(t.kids[q as int] == Some(c.model()));
                        assert(c.model().wf());
                        assert(subtree_entries(t.kids, q as nat + 1) == subtree_entries(
                            t.kids,
                            q as nat,
                        ) + kidc);
                        assert(t.bodies + subtree_entries(t.kids, q as nat + 1) =~= pre + kidc);
                        lemma_wsum_mass_concat(pre, kidc);
                        assert(c.model().total as int == wsum_mass(kidc));
                    }
                    total = fx_add(total, c.total_mass);
                    let mut k: usize = 0;
                    while k < dim
                        invariant
                            k <= dim,
                            mom@.len() == dim,
                            forall|k2: int| 0 <= k2 < k ==> (#[trigger] mom@[k2]) as int
                                == wsum_moment(t.bodies + subtree_entries(t.kids, q as nat + 1), k2),
                            forall|k2: int| k <= k2 < dim ==> (#[trigger] mom@[k2]) as int
                                == wsum_moment(pre, k2),
                        decreases dim - k,
                    {
                        let cm = c.moment[k];
                        proof {
                            lemma_wsum_moment_concat(pre, kidc, k as int);
                            assert(c.model().moment[k as int] as int == wsum_moment(kidc, k as int));
                            assert(c.model().moment[k as int] == cm);
                            assert(t.bodies + subtree_entries(t.kids, q as nat + 1) =~= pre + kidc);
                        }
                        let mv = fx_add(mom[k], cm);
                        mom[k] = mv;
                        k = k + 1;
                    }
                }
                None => {
                    proof {
                        assert(t.kids[q as int] is None);
                        assert(subtree_entries(t.kids, q as nat + 1) == subtree_entries(
                            t.kids,
                            q as nat,
                        ) + Seq::<EntryModel>::empty());
                        assert(t.bodies + subtree_entries(t.kids, q as nat + 1) =~= pre);
                    }
                }
            }
            q = q + 1;
        }
        proof {
            assert(t.contents() == t.bodies + subtree_entries(t.kids, t.kids.len()));
            assert(total as int == wsum_mass(t.contents()));
            lemma_wsum_mass_range(t.contents());
            assert(forall|k2: int| 0 <= k2 < dim ==> (#[trigger] mom@[k2]) as int == wsum_moment(
                t.contents(),
                k2,
            ));
        }
        if total > 0 {
            let mut com2: Vec<i64> = Vec::new();
            let mut k: usize = 0;
            while k < dim
                invariant
                    k <= dim,
                    com2@.len() == k,
                    forall|k2: int| 0 <= k2 < k ==> (#[trigger] com2@[k2]) as int == fx_wdiv(
                        mom@[k2] as int,
                        total as int,
                    ),
                decreases dim - k,
            {
                com2.push(fx_div(mom[k], total));
                k = k + 1;
            }
            self.center_of_mass = com2;
        }
        self.total_mass = total;
        self.moment = mom;
        proof {
            let t2 = t.spec_recompute();
            assert(self@.bodies == t.bodies);
            assert(self.children@ == old(self).children@);
            assert(self@.kids == t.kids);
            assert(self@.bounds == t.bounds);
            assert(self@.total == t2.total);
            assert(self@.moment =~= t2.moment) by {
                assert(self@.moment == mom@);
                assert(forall|k2: int| 0 <= k2 < dim ==> (#[trigger] mom@[k2]) as int
                    == wsum_moment(t.contents(), k2));
                assert forall|k2: int| 0 <= k2 < dim implies -two63() <= #[trigger] wsum_moment(
                    t.contents(),
                    k2,
                ) < two63() by {
                    lemma_wsum_moment_range(t.contents(), k2);
                }
            }
            assert(self@.com =~= t2.com);
            assert(self@ =~~= t2);
        }
    }

    /// Hand one body down into the child its position selects, creating the
    /// child over its sub-region first if that slot is empty.
    fn subdivide_and_insert(&mut self, id: usize, body: Body, fuel: u64)
        requires
            old(self)@.kids_ok(),
            body@.wf(old(self)@.dim()),
            1 <= fuel,
        ensures
            final(self)@ == old(self)@.spec_route(
                EntryModel { id: id as int, body: body@ },
                fuel as nat,
            ),
        decreases fuel, 0nat,
    {
        let ghost t = self@;
        let ghost e = EntryModel { id: id as int, body: body@ };
        let c = self.bounds.center();
        let q = self.bounds.route_index(&c, &body.position);
        proof {
            lemma_kids_model_len(self.children@, self.children@.len());
            assert(t.kids.len() == self.children@.len());
            assert(q == quadrant_of(e.body.pos, t.bounds.center_of(), t.dim() as int));
            assert(q < self.children@.len());
        }
        let ghost old_children = self.children@;
        let child_opt = self.children.remove(q);
        match child_opt {
            Some(mut bx) => {
                proof {
                    assert(t.kids[q as int] == Some(bx.model()));
                    assert(bx.model().wf());
                    assert(bx.model().dim() == t.dim());
                }
                (&mut *bx).insert_rec(id, body, fuel - 1);
                self.children.insert(q, Some(bx));
                proof {
                    assert(self.children@ =~= old_children.update(
                        q as int,
                        Some(self.children@[q as int]->0),
                    ));
                }
            }
            None => {
                proof {
                    assert(t.kids[q as int] is None);
                }
                let mut subs = self.bounds.subdivide();
                let cb = subs.remove(q);
                proof {
                    assert(cb@ == t.bounds.child_of(q as int));
                    assert(cb@.wf());
                    lemma_empty_node_wf(cb@);
                }
                let mut node = SpatialTree::new(cb);
                node.insert_rec(id, body, fuel - 1);
                self.children.insert(q, Some(Box::new(node)));
                proof {
                    assert(self.children@ =~= old_children.update(
                        q as int,
                        Some(self.children@[q as int]->0),
                    ));
                }
            }
        }
        proof {
            let nb = self.children@[q as int]->0;
            let kid = match t.kids[q as int] {
                Some(k) => k,
                None => TreeModel::empty_node(t.bounds.child_of(q as int)),
            };
            assert(nb.model() == kid.spec_insert(e, (fuel - 1) as nat));
            lemma_kids_model_update(old_children, self.children@, q as int, nb);
            assert(self@.kids =~= t.kids.update(q as int, Some(nb.model())));
            assert(self@.bounds == t.bounds);
            assert(self@.total == t.total);
            assert(self@.moment == t.moment);
            assert(self@.com == t.com);
            assert(self@.bodies =~= t.bodies);
            assert(self@ =~~= t.spec_route(e, fuel as nat));
        }
    }

    /// Insert one body under a caller-chosen identifier, with a remaining
    /// split budget of `fuel` levels.
    fn insert_rec(&mut self, id: usize, body: Body, fuel: u64)
        requires
            old(self)@.wf(),
            body@.wf(old(self)@.dim()),
        ensures
            final(self)@ == old(self)@.spec_insert(
                EntryModel { id: id as int, body: body@ },
                fuel as nat,
            ),
            final(self)@.wf(),
        decreases fuel, 1nat,
    {
        let ghost t = self@;
        let ghost e = EntryModel { id: id as int, body: body@ };
        proof {
            lemma_insert_props(t, e, fuel as nat);
        }
        let dim = self.bounds.min.len();
        let leaf = self.is_leaf();
        if self.bodies.len() == 0 && leaf {
            let mut mm: Vec<i64> = Vec::new();
            let mut k: usize = 0;
            while k < dim
                invariant
                    k <= dim,
                    mm@.len() == k,
                    dim == t.dim(),
                    body@.wf(t.dim()),
                    forall|k2: int| 0 <= k2 < k ==> (#[trigger] mm@[k2]) as int == fx_wmul(
                        body@.mass as int,
                        body@.pos[k2] as int,
                    ),
                    self@ == t,
                    self.bodies@.len() == 0,
                    body@ == e.body,
                decreases dim - k,
            {
                mm.push(fx_mul(body.mass, body.position[k]));
                k = k + 1;
            }
            self.total_mass = body.mass;
            self.center_of_mass = vec_dup(&body.position);
            self.moment = mm;
            self.bodies.push((id, body));
            proof {
                let t2 = t.spec_insert(e, fuel as nat);
                assert(self@.bodies =~= seq![e]);
                assert(self@.moment =~= t2.moment);
                assert(self@.kids == t.kids);
                assert(self@ =~~= t2);
            }
        } else if leaf && self.all_bodies_at(&body.position) {
            let mut mm: Vec<i64> = Vec::new();
            let mut k: usize = 0;
            while k < dim
                invariant
                    k <= dim,
                    mm@.len() == k,
                    dim == t.dim(),
                    body@.wf(t.dim()),
                    t.moment.len() == dim,
                    forall|k2: int| 0 <= k2 < k ==> (#[trigger] mm@[k2]) as int == fx_wadd(
                        t.moment[k2] as int,
                        fx_wmul(body@.mass as int, body@.pos[k2] as int),
                    ),
                    self@ == t,
                    body@ == e.body,
                decreases dim - k,
            {
                mm.push(fx_add(self.moment[k], fx_mul(body.mass, body.position[k])));
                k = k + 1;
            }
            self.total_mass = fx_add(self.total_mass, body.mass);
            self.moment = mm;
            self.bodies.push((id, body));
            proof {
                let t2 = t.spec_insert(e, fuel as nat);
                assert(self@.bodies =~= t.bodies.push(e));
                assert(self@.moment =~= t2.moment);
                assert(self@.kids == t.kids);
                assert(self@ =~~= t2);
            }
        } else if fuel == 0 {
            let mut mm: Vec<i64> = Vec::new();
            let mut k: usize = 0;
            while k < dim
                invariant
                    k <= dim,
                    mm@.len() == k,
                    dim == t.dim(),
                    body@.wf(t.dim()),
                    t.moment.len() == dim,
                    forall|k2: int| 0 <= k2 < k ==> (#[trigger] mm@[k2]) as int == fx_wadd(
                        t.moment[k2] as int,
                        fx_wmul(body@.mass as int, body@.pos[k2] as int),
                    ),
                    self@ == t,
                    body@ == e.body,
                decreases dim - k,
            {
                mm.push(fx_add(self.moment[k], fx_mul(body.mass, body.position[k])));
                k = k + 1;
            }
            let total2 = fx_add(self.total_mass, body.mass);
            if total2 > 0 {
                let mut com2: Vec<i64> = Vec::new();
                let mut k2e: usize = 0;
                while k2e < dim
                    invariant
                        k2e <= dim,
                        com2@.len() == k2e,
                        mm@.len() == dim,
                        forall|k2: int| 0 <= k2 < k2e ==> (#[trigger] com2@[k2]) as int == fx_wdiv(
                            mm@[k2] as int,
                            total2 as int,
                        ),
                        self@ == t,
                    decreases dim - k2e,
                {
                    com2.push(fx_div(mm[k2e], total2));
                    k2e = k2e + 1;
                }
                self.center_of_mass = com2;
            }
            self.total_mass = total2;
            self.moment = mm;
            self.bodies.push((id, body));
            proof {
                let t2 = t.spec_insert(e, fuel as nat);
                assert(self@.bodies =~= t.bodies.push(e));
                assert(self@.moment =~= t2.moment);
                assert(self@.com =~= t2.com);
                assert(self@.kids == t.kids);
                assert(self@ =~~= t2);
            }
        } else {
            let ghost cleared_t = TreeModel { bodies: Seq::empty(), ..t };
            let ghost target = cleared_t.spec_spread(t.bodies, fuel as nat);
            proof {
                assert(cleared_t.kids_ok());
                lemma_spread_props(cleared_t, t.bodies, fuel as nat);
            }
            while self.bodies.len() > 0
                invariant
                    self.bodies@.len() <= t.bodies.len(),
                    self@.bodies =~= t.bodies.take(self.bodies@.len() as int),
                    self@.bounds == t.bounds,
                    self@.total == t.total,
                    self@.moment == t.moment,
                    self@.com == t.com,
                    self@.kids_ok(),
                    (TreeModel { bodies: Seq::empty(), ..self@ }).spec_spread(
                        self@.bodies,
                        fuel as nat,
                    ) == target,
                    1 <= fuel,
                    t.wf(),
                    dim == t.dim(),
                decreases self.bodies@.len(),
            {
                let ghost jlen = self.bodies@.len() as int;
                let pr = self.bodies.pop().unwrap();
                let (bid, b) = pr;
                let ghost ee = EntryModel { id: bid as int, body: b@ };
                let ghost prev = self@;
                proof {
                    assert(t.bodies.take(jlen).drop_last() =~= t.bodies.take(jlen - 1));
                    assert(prev.bodies =~= t.bodies.take(jlen - 1));
                    assert(ee == t.bodies.take(jlen).last());
                    assert(t.bodies.take(jlen).last() == t.bodies[jlen - 1]);
                    assert(ee.body.wf(t.dim()));
                    assert(prev.kids_ok());
                }
                self.subdivide_and_insert(bid, b, fuel);
                proof {
                    assert(self@ == prev.spec_route(ee, fuel as nat));
                    let cleared_prev = TreeModel { bodies: Seq::empty(), ..prev };
                    lemma_route_props(cleared_prev, ee, fuel as nat);
                    assert(cleared_prev.spec_route(ee, fuel as nat) =~~= TreeModel {
                        bodies: Seq::empty(),
                        ..self@
                    });
                    assert(cleared_prev.spec_spread(t.bodies.take(jlen), fuel as nat)
                        == cleared_prev.spec_route(ee, fuel as nat).spec_spread(
                        t.bodies.take(jlen - 1),
                        fuel as nat,
                    ));
                    assert(TreeModel { bodies: Seq::empty(), ..self@ }.spec_spread(
                        self@.bodies,
                        fuel as nat,
                    ) == target);
                    assert(self@.kids_ok());
                }
            }
            proof {
                assert(self@.bodies =~= Seq::<EntryModel>::empty());
                assert(TreeModel { bodies: Seq::empty(), ..self@ } =~~= self@);
                assert(self@.spec_spread(self@.bodies, fuel as nat) == self@);
                assert(self@ =~~= target);
                assert(self@ == target);
                lemma_route_props(target, e, fuel as nat);
            }
            self.subdivide_and_insert(id, body, fuel);
            proof {
                assert(self@ == target.spec_route(e, fuel as nat));
                assert(self@.kids_ok());
                assert(self@.bodies =~= Seq::<EntryModel>::empty());
            }
            self.update_mass_distribution();
            proof {
                assert(self@ == target.spec_route(e, fuel as nat).spec_recompute());
                assert(self@ == t.spec_insert(e, fuel as nat));
            }
        }
    }

    /// Insert one body under a caller-chosen identifier.
    ///
    /// The identifier is what a later force query uses to recognise the
    /// querying body itself; callers keep identifiers distinct (the
    /// simulation uses each body's array index).
    pub fn insert(&mut self, id: usize, body: Body)
        requires
            old(self)@.wf(),
            body@.wf(old(self)@.dim()),
        ensures
            final(self)@ == old(self)@.spec_insert(
                EntryModel { id: id as int, body: body@ },
                DEPTH_LIMIT as nat,
            ),
            final(self)@.wf(),
            final(self)@.bounds == old(self)@.bounds,
            final(self)@.contents().to_multiset() == old(self)@.contents().to_multiset().insert(
                EntryModel { id: id as int, body: body@ },
            ),
            final(self)@.contents().len() == old(self)@.contents().len() + 1,
    {
        proof {
            lemma_insert_props(self@, EntryModel { id: id as int, body: body@ }, DEPTH_LIMIT as nat);
        }
        self.insert_rec(id, body, DEPTH_LIMIT);
    }

    /// The force this subtree exerts on the given body, which is excluded
    /// from the sum wherever its identifier is found resident.
    #[verifier::loop_isolation(false)]
    pub fn calculate_force(
        &self,
        body: &Body,
        target_id: usize,
        g: i64,
        softening: i64,
        threshold: i64,
    ) -> (f: Vec<i64>)
        requires
            self@.wf(),
            body@.pos.len() == self@.dim(),
        ensures
            f@ == self@.spec_force(target_id as int, body@, g, softening, threshold),
        decreases self, 0nat,
    {
        let ghost t = self@;
        let ghost tid = target_id as int;
        let dim = self.bounds.min.len();
        let nb = self.bodies.len();
        let mut j: usize = 0;
        while j < nb
            invariant
                j <= nb,
                forall|i2: int| 0 <= i2 < j ==> (#[trigger] t.bodies[i2]).id != tid,
            decreases nb - j,
        {
            if self.bodies[j].0 == target_id {
                proof {
                    assert(t.bodies[j as int].id == tid);
                    assert(holds_id(t.bodies, tid));
                }
                return vec_zero(dim);
            }
            j = j + 1;
        }
        proof {
            assert(!holds_id(t.bodies, tid));
        }
        let dx = vec_wsub(&self.center_of_mass, &body.position);
        let dsq = vec_norm_sq(&dx);
        let dist = fx_sqrt(dsq);
        let leaf = self.is_leaf();
        let far = if dist > 0 {
            fx_div(self.bounds.diagonal(), dist) < threshold
        } else {
            false
        };
        if leaf || far {
            if dsq == 0 {
                return vec_zero(dim);
            }
            let fmag = fx_div(fx_mul(fx_mul(g, body.mass), self.total_mass), fx_add(dsq, softening));
            let ghost fs = fx_wdiv(
                fx_wmul(fx_wmul(g as int, body@.mass as int), t.total as int),
                fx_wadd(norm_sq(seq_wsub(t.com, body@.pos)), softening as int),
            );
            let mut out: Vec<i64> = Vec::new();
            let mut k: usize = 0;
            while k < dim
                invariant
                    k <= dim,
                    out@.len() == k,
                    fmag as int == fs,
                    forall|k2: int| 0 <= k2 < k ==> (#[trigger] out@[k2]) as int == fx_wdiv(
                        fx_wmul(fs, dx@[k2] as int),
                        dist as int,
                    ),
                decreases dim - k,
            {
                out.push(fx_div(fx_mul(fmag, dx[k]), dist));
                k = k + 1;
            }
            proof {
                assert(out@ =~= t.spec_force(tid, body@, g, softening, threshold));
            }
            out
        } else {
            let mut acc = vec_zero(dim);
            let n = self.children.len();
            proof {
                lemma_kids_model_len(self.children@, n as nat);
                assert(t.kids.len() == n);
                assert(force_kids(t.kids, 0, tid, body@, g, softening, threshold, t.dim())
                    == seq_zero(t.dim()));
            }
            let mut q: usize = 0;
            while q < n
                invariant
                    q <= n,
                    acc@ == force_kids(t.kids, q as nat, tid, body@, g, softening, threshold, t.dim()),
                    acc@.len() == dim,
                decreases n - q,
            {
                match &self.children[q] {
                    Some(child) => {
                        proof {
                            assert(t.kids[q as int] == Some(child.model()));
                            assert(child.model().wf());
                            assert(child.model().dim() == t.dim());
                            assert(decreases_to!(self => self.children));
                            assert(decreases_to!(self.children => self.children@));
                            assert(decreases_to!(self.children@ => self.children@[q as int]));
                        }
                        let cf = (&**child).calculate_force(body, target_id, g, softening, threshold);
                        proof {
                            lemma_force_len(child.model(), tid, body@, g, softening, threshold);
                        }
                        acc = vec_wadd(&acc, &cf);
                    }
                    None => {
                        proof {
                            assert(t.kids[q as int] is None);
                        }
                    }
                }
                q = q + 1;
            }
            acc
        }
    }
}

/// Replacing one child slot replaces exactly that slot's model.
proof fn lemma_kids_model_update(
    s: Seq<Option<Box<SpatialTree>>>,
    s2: Seq<Option<Box<SpatialTree>>>,
    q: int,
    nb: Box<SpatialTree>,
)
    requires
        0 <= q < s.len(),
        s2.len() == s.len(),
        s2[q] == Some(nb),
        forall|j: int| 0 <= j < s.len() && j != q ==> s2[j] == s[j],
    ensures
        SpatialTree::kids_model_upto(s2, s2.len()) =~= SpatialTree::kids_model_upto(
            s,
            s.len(),
        ).update(q, Some(nb.model())),
{
    lemma_kids_model_len(s, s.len());
    lemma_kids_model_len(s2, s2.len());
}

/// A slot row of `None`s models as a row of `None`s.
proof fn lemma_kids_model_all_none(s: Seq<Option<Box<SpatialTree>>>, i: nat)
    requires
        i <= s.len(),
        forall|j: int| 0 <= j < s.len() ==> s[j] is None,
    ensures
        SpatialTree::kids_model_upto(s, i).len() == i,
        forall|j: int| 0 <= j < i ==> #[trigger] SpatialTree::kids_model_upto(s, i)[j] is None,
    decreases i,
{
    if i > 0 {
        lemma_kids_model_all_none(s, (i - 1) as nat);
    }
}

/// The modelled slot row has one model per slot, matching occupancy.
pub proof fn lemma_kids_model_len(s: Seq<Option<Box<SpatialTree>>>, i: nat)
    requires
        i <= s.len(),
    ensures
        SpatialTree::kids_model_upto(s, i).len() == i,
        forall|j: int| 0 <= j < i ==> (#[trigger] SpatialTree::kids_model_upto(s, i)[j]) == (match s[j] {
            Some(b) => Some(b.model()),
            None => None::<TreeModel>,
        }),
    decreases i,
{
    if i > 0 {
        lemma_kids_model_len(s, (i - 1) as nat);
    }
}

/// An empty node is well-formed and has no contents.
pub proof fn lemma_empty_node_wf(b: BoundsModel)
    requires
        b.wf(),
    ensures
        TreeModel::empty_node(b).wf(),
        TreeModel::empty_node(b).contents() =~= Seq::<EntryModel>::empty(),
        TreeModel::empty_node(b).dim() == b.dim(),
{
    let t = TreeModel::empty_node(b);
    lemma_subtree_entries_all_none(t.kids, t.kids.len());
    assert(t.contents() =~= Seq::<EntryModel>::empty());
    assert(t.kids_all_none());
    lemma_pow2i_pos(b.dim() as int);
}

/// The wrapping mass sum stays inside the value range of `i64`.
pub broadcast proof fn lemma_wsum_mass_range(es: Seq<EntryModel>)
    ensures
        -two63() <= #[trigger] wsum_mass(es) < two63(),
{
}

/// The wrapping moment sum stays inside the value range of `i64`.
pub broadcast proof fn lemma_wsum_moment_range(es: Seq<EntryModel>, k: int)
    ensures
        -two63() <= #[trigger] wsum_moment(es, k) < two63(),
{
}

/// The wrapping mass sum of a concatenation wraps the sum of the parts.
pub proof fn lemma_wsum_mass_concat(a: Seq<EntryModel>, b: Seq<EntryModel>)
    ensures
        wsum_mass(a + b) == wrap64(wsum_mass(a) + wsum_mass(b)),
    decreases b.len(),
{
    if b.len() == 0 {
        assert(a + b =~= a);
        lemma_wsum_mass_range(a);
        lemma_wrap64_id(wsum_mass(a));
    } else {
        lemma_wsum_mass_concat(a, b.drop_last());
        assert((a + b).drop_last() =~= a + b.drop_last());
        let m = b.last().body.mass as int;
        assert((a + b).last() == b.last());
        lemma_wrap64_add(wsum_mass(a) + wsum_mass(b.drop_last()), m);
        lemma_wrap64_add(wsum_mass(b.drop_last()) + m, wsum_mass(a));
    }
}

/// The wrapping moment sum of a concatenation wraps the sum of the parts.
pub proof fn lemma_wsum_moment_concat(a: Seq<EntryModel>, b: Seq<EntryModel>, k: int)
    ensures
        wsum_moment(a + b, k) == wrap64(wsum_moment(a, k) + wsum_moment(b, k)),
    decreases b.len(),
{
    if b.len() == 0 {
        assert(a + b =~= a);
        lemma_wsum_moment_range(a, k);
        lemma_wrap64_id(wsum_moment(a, k));
    } else {
        lemma_wsum_moment_concat(a, b.drop_last(), k);
        assert((a + b).drop_last() =~= a + b.drop_last());
        let m = fx_wmul(b.last().body.mass as int, b.last().body.pos[k] as int);
        assert((a + b).last() == b.last());
        lemma_wrap64_add(wsum_moment(a, k) + wsum_moment(b.drop_last(), k), m);
        lemma_wrap64_add(wsum_moment(b.drop_last(), k) + m, wsum_moment(a, k));
    }
}

/// A routing index always selects one of the `2^D` child slots.
pub proof fn lemma_quadrant_range(p: Seq<i64>, c: Seq<i64>, k: int)
    ensures
        0 <= quadrant_of(p, c, k) < pow2i(k),
    decreases k,
{
    if k > 0 {
        lemma_quadrant_range(p, c, k - 1);
    }
}

/// Replacing one child slot: entries before the slot are untouched, and,
/// adding the displaced slot's old entries back, the entry multiset past
/// the slot grows by exactly the new child's contents.
pub proof fn lemma_subtree_entries_update(
    kids: Seq<Option<TreeModel>>,
    q: int,
    nk: TreeModel,
    i: nat,
)
    requires
        0 <= q < kids.len(),
    ensures
        ({
            let kids2 = kids.update(q, Some(nk));
            &&& (i <= q ==> subtree_entries(kids2, i) == subtree_entries(kids, i))
            &&& (q < i <= kids.len() ==> subtree_entries(kids2, i).to_multiset().add(
                slot_entries(kids[q]).to_multiset(),
            ) == subtree_entries(kids, i).to_multiset().add(nk.contents().to_multiset()))
        }),
    decreases i,
{
    let kids2 = kids.update(q, Some(nk));
    if i == 0 {
    } else if i <= q {
        lemma_subtree_entries_update(kids, q, nk, (i - 1) as nat);
        assert(kids2[i - 1] == kids[i - 1]);
        assert(subtree_entries(kids2, i) == subtree_entries(kids, i));
    } else if i <= kids.len() {
        lemma_subtree_entries_update(kids, q, nk, (i - 1) as nat);
        let a2 = subtree_entries(kids2, (i - 1) as nat);
        let a1 = subtree_entries(kids, (i - 1) as nat);
        if i - 1 == q {
            let oldseg = slot_entries(kids[q]);
            assert(subtree_entries(kids2, i) == a2 + nk.contents());
            assert(subtree_entries(kids, i) == a1 + oldseg);
            assert(a2 == a1);
            lemma_multiset_commutative(a2, nk.contents());
            lemma_multiset_commutative(a1, oldseg);
            assert(subtree_entries(kids2, i).to_multiset().add(oldseg.to_multiset()) =~= subtree_entries(
                kids,
                i,
            ).to_multiset().add(nk.contents().to_multiset()));
        } else {
            let seg = slot_entries(kids[i - 1]);
            let oldq = slot_entries(kids[q]);
            assert(kids2[i - 1] == kids[i - 1]);
            assert(subtree_entries(kids2, i) == a2 + seg);
            assert(subtree_entries(kids, i) == a1 + seg);
            lemma_multiset_commutative(a2, seg);
            lemma_multiset_commutative(a1, seg);
            assert forall|x: EntryModel|
                #[trigger] subtree_entries(kids2, i).to_multiset().add(oldq.to_multiset()).count(x)
                    == subtree_entries(kids, i).to_multiset().add(
                    nk.contents().to_multiset(),
                ).count(x) by {
                assert(a2.to_multiset().add(oldq.to_multiset()).count(x) == a1.to_multiset().add(
                    nk.contents().to_multiset(),
                ).count(x));
                assert(a2.to_multiset().add(oldq.to_multiset()).count(x) == a2.to_multiset().count(
                    x,
                ) + oldq.to_multiset().count(x));
                assert(a1.to_multiset().add(nk.contents().to_multiset()).count(x)
                    == a1.to_multiset().count(x) + nk.contents().to_multiset().count(x));
                assert(a2.to_multiset().add(seg.to_multiset()).count(x) == a2.to_multiset().count(
                    x,
                ) + seg.to_multiset().count(x));
                assert(a1.to_multiset().add(seg.to_multiset()).count(x) == a1.to_multiset().count(
                    x,
                ) + seg.to_multiset().count(x));
            }
            assert(subtree_entries(kids2, i).to_multiset().add(oldq.to_multiset())
                =~= subtree_entries(kids, i).to_multiset().add(nk.contents().to_multiset()));
        }
    }
}

/// What routing one entry down does: the child row keeps its shape, every
/// aggregate field of the node is untouched, and the subtree gains exactly
/// that entry.
pub proof fn lemma_route_props(t: TreeModel, e: EntryModel, fuel: nat)
    requires
        t.kids_ok(),
        e.body.wf(t.dim()),
        fuel >= 1,
    ensures
        ({
            let t2 = t.spec_route(e, fuel);
            &&& t2.kids_ok()
            &&& t2.bounds == t.bounds
            &&& t2.total == t.total
            &&& t2.moment == t.moment
            &&& t2.com == t.com
            &&& t2.bodies == t.bodies
            &&& t2.kids.len() == t.kids.len()
            &&& !t2.kids_all_none()
            &&& subtree_entries(t2.kids, t2.kids.len()).to_multiset() == subtree_entries(
                t.kids,
                t.kids.len(),
            ).to_multiset().insert(e)
            &&& t2.contents().to_multiset() == t.contents().to_multiset().insert(e)
        }),
    decreases fuel, 0nat, 0nat,
{
    let dim = t.dim();
    let c = t.bounds.center_of();
    let q = quadrant_of(e.body.pos, c, dim as int);
    lemma_quadrant_range(e.body.pos, c, dim as int);
    let kid = match t.kids[q] {
        Some(k) => k,
        None => TreeModel::empty_node(t.bounds.child_of(q)),
    };
    if t.kids[q] is None {
        assert(t.bounds.child_of(q).wf());
        lemma_empty_node_wf(t.bounds.child_of(q));
        assert(kid.contents() =~= slot_entries(t.kids[q]));
    }
    assert(kid.wf());
    assert(kid.dim() == dim);
    lemma_insert_props(kid, e, (fuel - 1) as nat);
    let kid2 = kid.spec_insert(e, (fuel - 1) as nat);
    let t2 = t.spec_route(e, fuel);
    assert(t2.kids == t.kids.update(q, Some(kid2)));
    lemma_subtree_entries_update(t.kids, q, kid2, t.kids.len());
    assert(kid2.contents().to_multiset() == kid.contents().to_multiset().insert(e));
    assert(kid2.contents().len() > 0);
    // multiset cancellation, by counting each element
    let old_sub = subtree_entries(t.kids, t.kids.len()).to_multiset();
    let new_sub = subtree_entries(t2.kids, t2.kids.len()).to_multiset();
    let displaced = slot_entries(t.kids[q]).to_multiset();
    assert(new_sub.add(displaced) == old_sub.add(kid2.contents().to_multiset()));
    assert(kid2.contents().to_multiset() == kid.contents().to_multiset().insert(e));
    assert(kid.contents().to_multiset() == displaced) by {
        if t.kids[q] is None {
            assert(kid.contents() =~= slot_entries(t.kids[q]));
        }
    }
    assert forall|x: EntryModel| #[trigger] new_sub.count(x) == old_sub.insert(e).count(x) by {
        assert(new_sub.add(displaced).count(x) == old_sub.add(displaced.insert(e)).count(x));
        assert(new_sub.add(displaced).count(x) == new_sub.count(x) + displaced.count(x));
        assert(old_sub.add(displaced.insert(e)).count(x) == old_sub.count(x) + displaced.insert(
            e,
        ).count(x));
        assert(displaced.insert(e).count(x) == displaced.add(Multiset::singleton(e)).count(x));
        assert(displaced.add(Multiset::singleton(e)).count(x) == displaced.count(x)
            + Multiset::singleton(e).count(x));
        assert(old_sub.insert(e).count(x) == old_sub.add(Multiset::singleton(e)).count(x));
        assert(old_sub.add(Multiset::singleton(e)).count(x) == old_sub.count(x)
            + Multiset::singleton(e).count(x));
    }
    assert(new_sub =~= old_sub.insert(e));
    // every child slot of the result is in good standing
    assert forall|q2: int| 0 <= q2 < t2.kids.len() && t2.kids[q2] is Some implies {
        &&& (#[trigger] t2.kids[q2])->0.wf()
        &&& t2.kids[q2]->0.dim() == t2.dim()
        &&& t2.kids[q2]->0.contents().len() > 0
    } by {
        if q2 == q {
            assert(t2.kids[q2] == Some(kid2));
        } else {
            assert(t2.kids[q2] == t.kids[q2]);
            assert(t.kids[q2]->0.wf());
        }
    }
    assert(t2.kids_ok());
    assert(t2.kids[q] == Some(kid2));
    assert(!t2.kids_all_none());
    // contents gain the entry too
    lemma_multiset_commutative(t2.bodies, subtree_entries(t2.kids, t2.kids.len()));
    lemma_multiset_commutative(t.bodies, subtree_entries(t.kids, t.kids.len()));
    assert forall|x: EntryModel| #[trigger] t2.contents().to_multiset().count(x)
        == t.contents().to_multiset().insert(e).count(x) by {
        assert(t2.contents().to_multiset().count(x) == t2.bodies.to_multiset().count(x)
            + new_sub.count(x));
        assert(t.contents().to_multiset().count(x) == t.bodies.to_multiset().count(x)
            + old_sub.count(x));
        assert(new_sub.count(x) == old_sub.insert(e).count(x));
        assert(old_sub.insert(e).count(x) == old_sub.add(Multiset::singleton(e)).count(x));
        assert(old_sub.add(Multiset::singleton(e)).count(x) == old_sub.count(x)
            + Multiset::singleton(e).count(x));
        assert(t.contents().to_multiset().insert(e).count(x) == t.contents().to_multiset().add(
            Multiset::singleton(e),
        ).count(x));
        assert(t.contents().to_multiset().add(Multiset::singleton(e)).count(x)
            == t.contents().to_multiset().count(x) + Multiset::singleton(e).count(x));
    }
    assert(t2.contents().to_multiset() =~= t.contents().to_multiset().insert(e));
}

/// What spreading a run of entries does: shape and aggregates are kept and
/// the subtree gains exactly those entries.
pub proof fn lemma_spread_props(t: TreeModel, es: Seq<EntryModel>, fuel: nat)
    requires
        t.kids_ok(),
        forall|j: int| 0 <= j < es.len() ==> (#[trigger] es[j]).body.wf(t.dim()),
        fuel >= 1,
    ensures
        ({
            let t2 = t.spec_spread(es, fuel);
            &&& t2.kids_ok()
            &&& t2.bounds == t.bounds
            &&& t2.total == t.total
            &&& t2.moment == t.moment
            &&& t2.com == t.com
            &&& t2.bodies == t.bodies
            &&& t2.kids.len() == t.kids.len()
            &&& (es.len() > 0 ==> !t2.kids_all_none())
            &&& (!t.kids_all_none() ==> !t2.kids_all_none())
            &&& subtree_entries(t2.kids, t2.kids.len()).to_multiset() == subtree_entries(
                t.kids,
                t.kids.len(),
            ).to_multiset().add(es.to_multiset())
        }),
    decreases fuel, 1nat, es.len(),
{
    let t2 = t.spec_spread(es, fuel);
    if es.len() == 0 {
        assert(es.to_multiset() =~= Multiset::<EntryModel>::empty());
        assert(subtree_entries(t2.kids, t2.kids.len()).to_multiset() =~= subtree_entries(
            t.kids,
            t.kids.len(),
        ).to_multiset().add(es.to_multiset()));
    } else {
        lemma_route_props(t, es.last(), fuel);
        let t1 = t.spec_route(es.last(), fuel);
        lemma_spread_props(t1, es.drop_last(), fuel);
        assert(es.drop_last().push(es.last()) =~= es);
        assert(es.to_multiset() == es.drop_last().to_multiset().insert(es.last()));
        assert(subtree_entries(t2.kids, t2.kids.len()).to_multiset() =~= subtree_entries(
            t.kids,
            t.kids.len(),
        ).to_multiset().add(es.to_multiset()));
    }
}

/// The package of facts one insertion guarantees.
pub open spec fn insert_outcome(t: TreeModel, e: EntryModel, t2: TreeModel) -> bool {
    &&& t2.wf()
    &&& t2.bounds == t.bounds
    &&& t2.dim() == t.dim()
    &&& t2.kids.len() == t.kids.len()
    &&& t2.contents().to_multiset() == t.contents().to_multiset().insert(e)
    &&& t2.contents().len() == t.contents().len() + 1
}

/// Insertion into an empty node stores the entry as a fresh leaf.
proof fn lemma_insert_empty_branch(t: TreeModel, e: EntryModel, fuel: nat)
    requires
        t.wf(),
        e.body.wf(t.dim()),
        t.bodies.len() == 0,
        t.kids_all_none(),
    ensures
        insert_outcome(t, e, t.spec_insert(e, fuel)),
{
    let dim = t.dim();
    let t2 = t.spec_insert(e, fuel);
    lemma_subtree_entries_all_none(t.kids, t.kids.len());
    assert(t.contents() =~= Seq::<EntryModel>::empty());
    assert(t2.kids == t.kids);
    assert(t2.contents() =~= seq![e]);
    assert(seq![e].drop_last() =~= Seq::<EntryModel>::empty());
    assert(wsum_mass(t2.contents()) == fx_wadd(0, e.body.mass as int));
    assert(fx_wadd(0, e.body.mass as int) == e.body.mass as int);
    assert forall|k: int| 0 <= k < dim implies (#[trigger] t2.moment[k]) as int == wsum_moment(
        t2.contents(),
        k,
    ) by {
        let mm = fx_wmul(e.body.mass as int, e.body.pos[k] as int);
        assert(wsum_moment(Seq::<EntryModel>::empty(), k) == 0);
        assert(seq![e].drop_last() == Seq::<EntryModel>::empty());
        assert(seq![e].last() == e);
        assert(wsum_moment(seq![e], k) == fx_wadd(0, mm));
        assert(t2.contents() == seq![e]);
        assert(fx_wadd(0, mm) == mm);
        assert(t2.moment[k] as int == mm);
    }
    assert forall|j: int| 0 <= j < t2.bodies.len() implies (#[trigger] t2.bodies[j]).body.wf(
        t2.dim(),
    ) by {
        assert(t2.bodies[j] == e);
    }
    assert(t2.is_cluster());
    assert(t2.wf_shape());
    assert(t2.wf_aggs());
    assert(t.contents().to_multiset() =~= Multiset::<EntryModel>::empty());
    assert(t2.contents() =~= t.contents().push(e));
    assert(t2.contents().to_multiset() =~= t.contents().to_multiset().insert(e));
}

/// Insertion into a coincident leaf stacks the entry in place.
proof fn lemma_insert_stack_branch(t: TreeModel, e: EntryModel, fuel: nat)
    requires
        t.wf(),
        e.body.wf(t.dim()),
        !(t.bodies.len() == 0 && t.kids_all_none()),
        t.kids_all_none(),
        all_at(t.bodies, e.body.pos),
    ensures
        insert_outcome(t, e, t.spec_insert(e, fuel)),
{
    let dim = t.dim();
    let t2 = t.spec_insert(e, fuel);
    lemma_subtree_entries_all_none(t.kids, t.kids.len());
    assert(t.contents() =~= t.bodies);
    assert(t2.kids == t.kids);
    assert(t2.contents() =~= t.contents().push(e));
    assert(t2.contents().drop_last() =~= t.contents());
    assert(t2.contents().last() == e);
    assert(wsum_mass(t2.contents()) == fx_wadd(wsum_mass(t.contents()), e.body.mass as int));
    assert(t2.total as int == wsum_mass(t2.contents()));
    assert forall|k: int| 0 <= k < dim implies (#[trigger] t2.moment[k]) as int == wsum_moment(
        t2.contents(),
        k,
    ) by {
        let mm = fx_wmul(e.body.mass as int, e.body.pos[k] as int);
        assert(t.moment[k] as int == wsum_moment(t.contents(), k));
        assert(wsum_moment(t2.contents(), k) == fx_wadd(wsum_moment(t.contents(), k), mm));
        assert(t2.moment[k] as int == fx_wadd(t.moment[k] as int, mm));
    }
    assert forall|j: int| 0 <= j < t2.bodies.len() implies (#[trigger] t2.bodies[j]).body.wf(
        t2.dim(),
    ) by {
        if j < t.bodies.len() {
            assert(t.bodies[j].body.wf(dim));
        } else {
            assert(t2.bodies[j] == e);
        }
    }
    assert(t.bodies.len() > 0);
    assert(t.is_cluster());
    assert(t.bodies[0].body.pos == e.body.pos);
    assert(t2.bodies[0] == t.bodies[0]);
    assert forall|j: int| 0 <= j < t2.bodies.len() implies (#[trigger] t2.bodies[j]).body.pos
        == t2.bodies[0].body.pos by {
        if j < t.bodies.len() {
            assert(t.bodies[j].body.pos == t.bodies[0].body.pos);
        } else {
            assert(t2.bodies[j] == e);
        }
    }
    assert(t2.is_cluster());
    assert(t2.com == t2.bodies[0].body.pos);
    assert(t2.wf_shape());
    assert(t2.wf_aggs());
    assert(t2.contents().to_multiset() =~= t.contents().to_multiset().insert(e));
}

/// With the split budget spent, the entry stays put in the node itself.
proof fn lemma_insert_stash_branch(t: TreeModel, e: EntryModel)
    requires
        t.wf(),
        e.body.wf(t.dim()),
        !(t.bodies.len() == 0 && t.kids_all_none()),
        !(t.kids_all_none() && all_at(t.bodies, e.body.pos)),
    ensures
        insert_outcome(t, e, t.spec_insert(e, 0)),
{
    let dim = t.dim();
    let t2 = t.spec_insert(e, 0);
    let kk = subtree_entries(t.kids, t.kids.len());
    assert(t.contents() == t.bodies + kk);
    assert(t2.kids == t.kids);
    assert(t2.contents() == t.bodies.push(e) + kk);
    let wsb = wsum_mass(t.bodies);
    let wsk = wsum_mass(kk);
    let m = e.body.mass as int;
    lemma_wsum_mass_concat(t.bodies, kk);
    lemma_wsum_mass_concat(t.bodies.push(e), kk);
    assert(t.bodies.push(e).drop_last() =~= t.bodies);
    assert(wsum_mass(t.bodies.push(e)) == wrap64(wsb + m));
    lemma_wrap64_add(wsb + m, wsk);
    lemma_wrap64_add(wsb + wsk, m);
    assert(wsum_mass(t2.contents()) == wrap64(wsb + m + wsk));
    assert(fx_wadd(t.total as int, m) == wrap64(wsb + wsk + m));
    assert(t2.total as int == wsum_mass(t2.contents()));
    assert forall|k: int| 0 <= k < dim implies (#[trigger] t2.moment[k]) as int == wsum_moment(
        t2.contents(),
        k,
    ) by {
        let mm = fx_wmul(e.body.mass as int, e.body.pos[k] as int);
        lemma_wsum_moment_concat(t.bodies, kk, k);
        lemma_wsum_moment_concat(t.bodies.push(e), kk, k);
        assert(t.bodies.push(e).drop_last() =~= t.bodies);
        assert(wsum_moment(t.bodies.push(e), k) == wrap64(wsum_moment(t.bodies, k) + mm));
        lemma_wrap64_add(wsum_moment(t.bodies, k) + mm, wsum_moment(kk, k));
        lemma_wrap64_add(wsum_moment(t.bodies, k) + wsum_moment(kk, k), mm);
        assert(t.moment[k] as int == wsum_moment(t.contents(), k));
        assert(t2.moment[k] as int == fx_wadd(t.moment[k] as int, mm));
    }
    assert forall|j: int| 0 <= j < t2.bodies.len() implies (#[trigger] t2.bodies[j]).body.wf(
        t2.dim(),
    ) by {
        if j < t.bodies.len() {
            assert(t.bodies[j].body.wf(dim));
        } else {
            assert(t2.bodies[j] == e);
        }
    }
    // the result is not a coincident cluster
    if t.kids_all_none() {
        assert(t.bodies.len() > 0);
        assert(!all_at(t.bodies, e.body.pos));
        assert(t2.bodies[0] == t.bodies[0]);
        if t2.is_cluster() {
            assert(t2.bodies[t.bodies.len() as int] == e);
            assert(e.body.pos == t2.bodies[0].body.pos);
            assert forall|j: int| 0 <= j < t.bodies.len() implies (#[trigger] t.bodies[j]).body.pos
                == e.body.pos by {
                assert(t2.bodies[j] == t.bodies[j]);
                assert(t2.bodies[j].body.pos == t2.bodies[0].body.pos);
            }
            assert(all_at(t.bodies, e.body.pos));
            assert(false);
        }
    } else {
        assert(!t2.kids_all_none());
        assert(!t2.is_cluster());
    }
    assert(t2.wf_shape());
    assert(t2.wf_aggs());
    // the multiset gains the entry
    lemma_multiset_commutative(t.bodies, kk);
    lemma_multiset_commutative(t.bodies.push(e), kk);
    assert(t.bodies.push(e).to_multiset() == t.bodies.to_multiset().insert(e));
    assert forall|x: EntryModel| #[trigger] t2.contents().to_multiset().count(x) == t.contents().to_multiset().insert(
        e,
    ).count(x) by {
        assert(t2.contents().to_multiset().count(x) == t.bodies.push(e).to_multiset().count(x)
            + kk.to_multiset().count(x));
        assert(t.contents().to_multiset().count(x) == t.bodies.to_multiset().count(x)
            + kk.to_multiset().count(x));
        assert(t.bodies.to_multiset().insert(e).count(x) == t.bodies.to_multiset().add(
            Multiset::singleton(e),
        ).count(x));
        assert(t.contents().to_multiset().insert(e).count(x) == t.contents().to_multiset().add(
            Multiset::singleton(e),
        ).count(x));
    }
    assert(t2.contents().to_multiset() =~= t.contents().to_multiset().insert(e));
}

/// What one insertion does: well-formedness is preserved, the region is
/// untouched, and the subtree gains exactly the inserted entry.
pub proof fn lemma_insert_props(t: TreeModel, e: EntryModel, fuel: nat)
    requires
        t.wf(),
        e.body.wf(t.dim()),
    ensures
        ({
            let t2 = t.spec_insert(e, fuel);
            &&& t2.wf()
            &&& t2.bounds == t.bounds
            &&& t2.dim() == t.dim()
            &&& t2.kids.len() == t.kids.len()
            &&& t2.contents().to_multiset() == t.contents().to_multiset().insert(e)
            &&& t2.contents().len() == t.contents().len() + 1
        }),
    decreases fuel, 2nat, 0nat,
{
    let dim = t.dim();
    let t2 = t.spec_insert(e, fuel);
    if t.bodies.len() == 0 && t.kids_all_none() {
        lemma_insert_empty_branch(t, e, fuel);
    } else if t.kids_all_none() && all_at(t.bodies, e.body.pos) {
        lemma_insert_stack_branch(t, e, fuel);
    } else if fuel == 0 {
        lemma_insert_stash_branch(t, e);
    } else {
        let cleared = TreeModel { bodies: Seq::empty(), ..t };
        assert(cleared.kids_ok());
        assert(cleared.contents() =~= subtree_entries(t.kids, t.kids.len()));
        let s1 = cleared.spec_spread(t.bodies, fuel);
        lemma_spread_props(cleared, t.bodies, fuel);
        let s2 = s1.spec_route(e, fuel);
        lemma_route_props(s1, e, fuel);
        assert(t2 == s2.spec_recompute());
        // contents of the recomputed node are those of the routed node
        assert(t2.bodies == s2.bodies && t2.kids == s2.kids);
        assert(t2.contents() == s2.contents());
        // shape
        assert(t2.kids_ok());
        assert(!t2.kids_all_none());
        let subt = subtree_entries(t.kids, t.kids.len());
        let sub2 = subtree_entries(t2.kids, t2.kids.len());
        assert(sub2.to_multiset() == subt.to_multiset().add(t.bodies.to_multiset()).insert(e));
        // entry count beneath the split node
        lemma_multiset_commutative(t.bodies, subt);
        assert(t.contents().to_multiset() == t.bodies.to_multiset().add(subt.to_multiset()));
        assert forall|x: EntryModel| #[trigger] sub2.to_multiset().count(x) == t.contents().to_multiset().insert(
            e,
        ).count(x) by {
            assert(subt.to_multiset().add(t.bodies.to_multiset()).insert(e).count(x)
                == subt.to_multiset().add(t.bodies.to_multiset()).add(
                Multiset::singleton(e),
            ).count(x));
            assert(t.contents().to_multiset().insert(e).count(x)
                == t.bodies.to_multiset().add(subt.to_multiset()).add(
                Multiset::singleton(e),
            ).count(x));
            assert(subt.to_multiset().add(t.bodies.to_multiset()).count(x)
                == subt.to_multiset().count(x) + t.bodies.to_multiset().count(x));
            assert(t.bodies.to_multiset().add(subt.to_multiset()).count(x)
                == t.bodies.to_multiset().count(x) + subt.to_multiset().count(x));
        }
        assert(sub2.to_multiset() =~= t.contents().to_multiset().insert(e));
        assert(sub2.len() == sub2.to_multiset().len());
        assert(sub2.len() == t.contents().len() + 1);
        if t.bodies.len() == 0 {
            assert(!t.kids_all_none());
            assert(subt.len() >= 2);
            assert(t.contents().len() >= 2);
        } else {
            assert(t.contents().len() >= 1);
        }
        assert(sub2.len() >= 2);
        assert(t2.wf_shape());
        // aggregates by construction
        lemma_wsum_mass_range(t2.contents());
        assert(t2.total as int == wsum_mass(t2.contents()));
        assert forall|k: int| 0 <= k < t2.dim() implies (#[trigger] t2.moment[k]) as int
            == wsum_moment(t2.contents(), k) by {
            lemma_wsum_moment_range(t2.contents(), k);
        }
        assert(t2.bodies.len() == 0);
        assert(!t2.is_cluster());
        assert(t2.wf_aggs());
        // the multiset gains the entry
        assert(s2.bodies =~= Seq::<EntryModel>::empty());
        assert(t2.contents() =~= sub2);
        assert(t2.contents().to_multiset() == t.contents().to_multiset().insert(e));
    }
    assert(t2.contents().to_multiset().len() == t.contents().to_multiset().len() + 1);
}

/// A force vector has one component per axis.
pub proof fn lemma_force_len(t: TreeModel, tid: int, tb: BodyModel, g: i64, s: i64, th: i64)
    requires
        t.wf_shape(),
    ensures
        t.spec_force(tid, tb, g, s, th).len() == t.dim(),
    decreases t, t.kids.len() + 1,
{
    if !holds_id(t.bodies, tid) {
        let dx = seq_wsub(t.com, tb.pos);
        let dsq = norm_sq(dx);
        let dist = fx_wsqrt(dsq);
        if t.kids_all_none() || (dist > 0 && fx_wdiv(t.bounds.diag_of(), dist) < th) {
        } else {
            lemma_force_kids_len(t.kids, t.kids.len(), tid, tb, g, s, th, t.dim());
        }
    }
}

/// A summed child force vector has one component per axis.
pub proof fn lemma_force_kids_len(
    kids: Seq<Option<TreeModel>>,
    i: nat,
    tid: int,
    tb: BodyModel,
    g: i64,
    s: i64,
    th: i64,
    dim: nat,
)
    requires
        i <= kids.len(),
        forall|q: int| 0 <= q < kids.len() && kids[q] is Some ==> (#[trigger] kids[q])->0.wf_shape()
            && kids[q]->0.dim() == dim,
    ensures
        force_kids(kids, i, tid, tb, g, s, th, dim).len() == dim,
    decreases kids, i,
{
    if 0 < i <= kids.len() {
        lemma_force_kids_len(kids, (i - 1) as nat, tid, tb, g, s, th, dim);
        match kids[i - 1] {
            Some(k) => {
                lemma_force_len(k, tid, tb, g, s, th);
            }
            None => {}
        }
    }
}

/// Beneath empty child slots there are no entries.
pub proof fn lemma_subtree_entries_all_none(kids: Seq<Option<TreeModel>>, i: nat)
    requires
        i <= kids.len(),
        forall|q: int| 0 <= q < kids.len() ==> kids[q] is None,
    ensures
        subtree_entries(kids, i) =~= Seq::<EntryModel>::empty(),
    decreases i,
{
    if i > 0 {
        lemma_subtree_entries_all_none(kids, (i - 1) as nat);
    }
}

} // verus!
