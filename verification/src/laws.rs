//! System-wide laws of the solver, stated and proved over the models.
//!
//! Each public proof function here records one guarantee of the library as
//! a checked theorem: what a built tree's aggregates are, that they do not
//! depend on insertion order, how a query excludes the querying body, what
//! coincident bodies contribute, and what the degenerate empty system does.

use vstd::prelude::*;
use vstd::multiset::group_multiset_axioms;
use vstd::seq_lib::group_to_multiset_ensures;
use crate::body::BodyModel;
use crate::bounds::{BoundsModel, pow2i};
use crate::fixed::{
    fx_wadd, fx_wdiv, fx_wmul, fx_wsqrt, lemma_wrap64_add, lemma_wrap64_bounds, lemma_wrap64_id,
    two63, wrap64,
};
use crate::tree::{
    EntryModel, TreeModel, holds_id, lemma_empty_node_wf, lemma_subtree_entries_all_none,
    seq_fx_div, subtree_entries, wsum_mass, wsum_moment,
};
use crate::simulation::{
    all_wf, entries_of, lemma_build_props, spec_build, spec_compute_bounds,
};
use crate::vector::{norm_sq, seq_wsub, seq_zero};

verus! {

broadcast use lemma_wrap64_bounds, lemma_wrap64_id, group_to_multiset_ensures, group_multiset_axioms;

/// The bodies of a run of entries, with the identifiers erased.
pub open spec fn bodies_of(es: Seq<EntryModel>) -> Seq<BodyModel> {
    Seq::new(es.len(), |j: int| es[j].body)
}

/// The wrapping sum of the masses of a run of bodies.
pub open spec fn bsum_mass(ms: Seq<BodyModel>) -> int
    decreases ms.len(),
{
    if ms.len() == 0 {
        0
    } else {
        fx_wadd(bsum_mass(ms.drop_last()), ms.last().mass as int)
    }
}

/// The wrapping sum of the axis-`k` mass moments of a run of bodies.
pub open spec fn bsum_moment(ms: Seq<BodyModel>, k: int) -> int
    decreases ms.len(),
{
    if ms.len() == 0 {
        0
    } else {
        fx_wadd(
            bsum_moment(ms.drop_last(), k),
            fx_wmul(ms.last().mass as int, ms.last().pos[k] as int),
        )
    }
}

/// All bodies of the run sit at exactly the given position.
pub open spec fn all_bodies_at(ms: Seq<BodyModel>, p: Seq<i64>) -> bool {
    forall|i: int| 0 <= i < ms.len() ==> (#[trigger] ms[i]).pos == p
}

/// Identifier tags do not enter the sums.
proof fn lemma_wsum_eq_bsum(es: Seq<EntryModel>, k: int)
    ensures
        wsum_mass(es) == bsum_mass(bodies_of(es)),
        wsum_moment(es, k) == bsum_moment(bodies_of(es), k),
    decreases es.len(),
{
    if es.len() > 0 {
        lemma_wsum_eq_bsum(es.drop_last(), k);
        assert(bodies_of(es).drop_last() =~= bodies_of(es.drop_last()));
        assert(bodies_of(es).last() == es.last().body);
    }
}

/// Removing one body splits its term off the wrapping sums.
proof fn lemma_bsum_remove(ms: Seq<BodyModel>, i: int, k: int)
    requires
        0 <= i < ms.len(),
    ensures
        bsum_mass(ms) == wrap64(bsum_mass(ms.remove(i)) + ms[i].mass),
        bsum_moment(ms, k) == wrap64(
            bsum_moment(ms.remove(i), k) + fx_wmul(ms[i].mass as int, ms[i].pos[k] as int),
        ),
    decreases ms.len(),
{
    let m = ms[i].mass as int;
    let mm = fx_wmul(ms[i].mass as int, ms[i].pos[k] as int);
    if i == ms.len() - 1 {
        assert(ms.remove(i) =~= ms.drop_last());
    } else {
        let ms2 = ms.drop_last();
        lemma_bsum_remove(ms2, i, k);
        assert(ms.remove(i).drop_last() =~= ms2.remove(i));
        assert(ms.remove(i).last() == ms.last());
        let ml = ms.last().mass as int;
        let mml = fx_wmul(ms.last().mass as int, ms.last().pos[k] as int);
        // masses
        lemma_wrap64_add(bsum_mass(ms2.remove(i)) + m, ml);
        lemma_wrap64_add(bsum_mass(ms2.remove(i)) + ml, m);
        // moments
        lemma_wrap64_add(bsum_moment(ms2.remove(i), k) + mm, mml);
        lemma_wrap64_add(bsum_moment(ms2.remove(i), k) + mml, mm);
    }
}

/// The wrapping sums see only the multiset of bodies, never their order.
proof fn lemma_bsum_perm(a: Seq<BodyModel>, b: Seq<BodyModel>, k: int)
    requires
        a.to_multiset() == b.to_multiset(),
    ensures
        bsum_mass(a) == bsum_mass(b),
        bsum_moment(a, k) == bsum_moment(b, k),
    decreases a.len(),
{
    if a.len() == 0 {
        assert(a.to_multiset().len() == a.len());
        assert(b.to_multiset().len() == b.len());
        assert(b.len() == 0);
    } else {
        let x = a.last();
        assert(a.drop_last().push(x) =~= a);
        assert(a.to_multiset().count(x) > 0) by {
            assert(a.contains(x));
        }
        assert(b.to_multiset().count(x) > 0);
        assert(b.contains(x));
        let i = choose|i: int| 0 <= i < b.len() && b[i] == x;
        assert(a.drop_last().to_multiset() =~= b.remove(i).to_multiset()) by {
            assert(a.to_multiset() == a.drop_last().to_multiset().insert(x));
            assert(b.remove(i).to_multiset() == b.to_multiset().remove(x));
            assert(forall|y: BodyModel| #[trigger] a.drop_last().to_multiset().count(y)
                == b.remove(i).to_multiset().count(y)) by {
                assert(forall|y: BodyModel| a.drop_last().to_multiset().insert(x).count(y)
                    == #[trigger] a.drop_last().to_multiset().count(y) + (if y == x {
                    1int
                } else {
                    0int
                }));
            }
        }
        lemma_bsum_perm(a.drop_last(), b.remove(i), k);
        lemma_bsum_remove(b, i, k);
        lemma_wrap64_id(bsum_mass(a));
        lemma_wrap64_id(bsum_moment(a, k));
        assert(bsum_mass(a) == wrap64(bsum_mass(a.drop_last()) + x.mass));
        assert(bsum_moment(a, k) == wrap64(
            bsum_moment(a.drop_last(), k) + fx_wmul(x.mass as int, x.pos[k] as int),
        ));
    }
}

/// Equal entry multisets project to equal body multisets.
proof fn lemma_bodies_of_perm(es1: Seq<EntryModel>, es2: Seq<EntryModel>)
    requires
        es1.to_multiset() == es2.to_multiset(),
    ensures
        bodies_of(es1).to_multiset() == bodies_of(es2).to_multiset(),
    decreases es1.len(),
{
    if es1.len() == 0 {
        assert(es1.to_multiset().len() == es1.len());
        assert(es2.to_multiset().len() == es2.len());
        assert(es2.len() == 0);
        assert(bodies_of(es1) =~= Seq::<BodyModel>::empty());
        assert(bodies_of(es2) =~= Seq::<BodyModel>::empty());
    } else {
        let x = es1.last();
        assert(es1.drop_last().push(x) =~= es1);
        assert(es1.to_multiset().count(x) > 0) by {
            assert(es1.contains(x));
        }
        assert(es2.to_multiset().count(x) > 0);
        assert(es2.contains(x));
        let i = choose|i: int| 0 <= i < es2.len() && es2[i] == x;
        assert(es1.drop_last().to_multiset() =~= es2.remove(i).to_multiset()) by {
            assert(es1.to_multiset() == es1.drop_last().to_multiset().insert(x));
            assert(es2.remove(i).to_multiset() == es2.to_multiset().remove(x));
            assert(forall|y: EntryModel| #[trigger] es1.drop_last().to_multiset().count(y)
                == es2.remove(i).to_multiset().count(y)) by {
                assert(forall|y: EntryModel| es1.drop_last().to_multiset().insert(x).count(y)
                    == #[trigger] es1.drop_last().to_multiset().count(y) + (if y == x {
                    1int
                } else {
                    0int
                }));
            }
        }
        lemma_bodies_of_perm(es1.drop_last(), es2.remove(i));
        assert(bodies_of(es1.drop_last()) =~= bodies_of(es1).drop_last());
        assert(bodies_of(es2.remove(i)) =~= bodies_of(es2).remove(i));
        assert(bodies_of(es1).to_multiset() == bodies_of(es1).drop_last().to_multiset().insert(
            x.body,
        )) by {
            assert(bodies_of(es1).drop_last().push(x.body) =~= bodies_of(es1));
        }
        assert(bodies_of(es2).remove(i).to_multiset() == bodies_of(es2).to_multiset().remove(
            bodies_of(es2)[i],
        ));
        assert(bodies_of(es2)[i] == x.body);
        assert forall|y: BodyModel| #[trigger] bodies_of(es1).to_multiset().count(y)
            == bodies_of(es2).to_multiset().count(y) by {
            assert(bodies_of(es1).drop_last().to_multiset().count(y) == bodies_of(
                es2,
            ).remove(i).to_multiset().count(y));
            assert(bodies_of(es2).to_multiset().count(bodies_of(es2)[i]) > 0) by {
                assert(bodies_of(es2).contains(bodies_of(es2)[i]));
            }
        }
        assert(bodies_of(es1).to_multiset() =~= bodies_of(es2).to_multiset());
    }
}

/// The body multiset beneath a built tree is the body run itself.
proof fn lemma_build_bodies(ms: Seq<BodyModel>, dim: nat)
    requires
        all_wf(ms, dim),
        1 <= dim <= 16,
    ensures
        bodies_of(spec_build(ms, dim).contents()).to_multiset() == ms.to_multiset(),
{
    lemma_build_props(ms, dim, ms.len());
    assert(ms.take(ms.len() as int) =~= ms);
    lemma_bodies_of_perm(spec_build(ms, dim).contents(), entries_of(ms));
    assert(bodies_of(entries_of(ms)) =~= ms);
}

/// After a full build, the root's total mass is the wrapping sum of all
/// body masses, and its moment the wrapping sum of all mass moments, in
/// the body array's own order.
pub proof fn law_tree_total_mass(ms: Seq<BodyModel>, dim: nat)
    requires
        all_wf(ms, dim),
        1 <= dim <= 16,
    ensures
        spec_build(ms, dim).total as int == bsum_mass(ms),
        forall|k: int| 0 <= k < dim ==> (#[trigger] spec_build(ms, dim).moment[k]) as int
            == bsum_moment(ms, k),
{
    let t = spec_build(ms, dim);
    lemma_build_props(ms, dim, ms.len());
    lemma_build_bodies(ms, dim);
    assert forall|k: int| 0 <= k < dim implies (#[trigger] t.moment[k]) as int == bsum_moment(
        ms,
        k,
    ) by {
        lemma_wsum_eq_bsum(t.contents(), k);
        lemma_bsum_perm(bodies_of(t.contents()), ms, k);
    }
    lemma_wsum_eq_bsum(t.contents(), 0);
    lemma_bsum_perm(bodies_of(t.contents()), ms, 0);
}

/// A built tree over one shared position is a coincident stack whose
/// centre of mass is exactly that position.
proof fn lemma_build_coincident(ms: Seq<BodyModel>, dim: nat, i: nat)
    requires
        all_wf(ms, dim),
        1 <= dim <= 16,
        1 <= i <= ms.len(),
        all_bodies_at(ms, ms[0].pos),
    ensures
        ({
            let t = crate::simulation::spec_build_upto(ms, dim, i);
            &&& t.is_cluster()
            &&& t.com == ms[0].pos
        }),
    decreases i,
{
    let t = crate::simulation::spec_build_upto(ms, dim, i);
    lemma_build_props(ms, dim, i);
    let e = EntryModel { id: i - 1, body: ms[i - 1] };
    if i == 1 {
        let t0 = crate::simulation::spec_build_upto(ms, dim, 0);
        lemma_build_props(ms, dim, 0);
        lemma_empty_node_wf(spec_compute_bounds(ms, dim));
        assert(t == t0.spec_insert(e, crate::tree::DEPTH_LIMIT as nat));
        assert(t0.bodies.len() == 0 && t0.kids_all_none());
        assert(t.bodies =~= seq![e]);
        assert(t.com == ms[0].pos);
        assert(t.is_cluster());
    } else {
        lemma_build_coincident(ms, dim, (i - 1) as nat);
        let prev = crate::simulation::spec_build_upto(ms, dim, (i - 1) as nat);
        lemma_build_props(ms, dim, (i - 1) as nat);
        assert(prev.is_cluster());
        assert(e.body.pos == ms[0].pos);
        assert(prev.bodies[0].body.pos == prev.com);
        assert(crate::tree::all_at(prev.bodies, e.body.pos)) by {
            assert(forall|j: int| 0 <= j < prev.bodies.len() ==> (#[trigger] prev.bodies[j]).body.pos
                == prev.bodies[0].body.pos);
            assert(prev.bodies[0].body.pos == prev.com);
            assert(prev.com == ms[0].pos);
        }
        assert(t == prev.spec_insert(e, crate::tree::DEPTH_LIMIT as nat));
        assert(t.bodies =~= prev.bodies.push(e));
        assert(t.com == prev.com);
        assert(t.kids_all_none());
        assert forall|j: int| 0 <= j < t.bodies.len() implies (#[trigger] t.bodies[j]).body.pos
            == t.bodies[0].body.pos by {
            if j < prev.bodies.len() {
                assert(t.bodies[j] == prev.bodies[j]);
            } else {
                assert(t.bodies[j] == e);
            }
        }
        assert(t.is_cluster());
    }
}

/// After a full build, the root's centre of mass is the mass-weighted
/// average of the body positions: the shared position itself when every
/// body sits on one point (the exact average), and otherwise — whenever
/// the total mass is positive — the moment vector over the total mass,
/// componentwise in fixed point.
pub proof fn law_tree_center_of_mass(ms: Seq<BodyModel>, dim: nat)
    requires
        all_wf(ms, dim),
        1 <= dim <= 16,
        ms.len() > 0,
    ensures
        all_bodies_at(ms, ms[0].pos) ==> spec_build(ms, dim).com == ms[0].pos,
        !all_bodies_at(ms, ms[0].pos) && spec_build(ms, dim).total > 0 ==> spec_build(
            ms,
            dim,
        ).com == seq_fx_div(spec_build(ms, dim).moment, spec_build(ms, dim).total),
{
    let t = spec_build(ms, dim);
    lemma_build_props(ms, dim, ms.len());
    if all_bodies_at(ms, ms[0].pos) {
        lemma_build_coincident(ms, dim, ms.len());
    } else if t.total > 0 {
        // the root cannot be a coincident stack: its contents are the bodies
        if t.is_cluster() {
            lemma_subtree_entries_all_none(t.kids, t.kids.len());
            assert(t.contents() =~= t.bodies);
            assert(ms.take(ms.len() as int) =~= ms);
            assert(t.contents().to_multiset() == entries_of(ms).to_multiset());
            assert forall|i: int| 0 <= i < ms.len() implies (#[trigger] ms[i]).pos
                == ms[0].pos by {
                let ei = EntryModel { id: i, body: ms[i] };
                assert(entries_of(ms)[i] == ei);
                assert(entries_of(ms).contains(ei));
                assert(entries_of(ms).to_multiset().count(ei) > 0);
                assert(t.contents().to_multiset().count(ei) > 0);
                assert(t.contents().contains(ei));
                let j = choose|j: int| 0 <= j < t.bodies.len() && t.bodies[j] == ei;
                assert(t.bodies[j].body.pos == t.bodies[0].body.pos);
                // the first body of the stack is also one of the entries
                let e0 = t.bodies[0];
                assert(t.contents().contains(e0)) by {
                    assert(t.contents()[0] == e0);
                }
                assert(t.contents().to_multiset().count(e0) > 0);
                assert(entries_of(ms).to_multiset().count(e0) > 0);
                assert(entries_of(ms).contains(e0));
                let j0 = choose|j0: int| 0 <= j0 < entries_of(ms).len() && entries_of(ms)[j0] == e0;
                assert(e0.body.pos == ms[j0].pos);
                assert(ms[j0].pos == ms[0].pos) by {
                    let ee0 = EntryModel { id: 0, body: ms[0] };
                    assert(entries_of(ms)[0] == ee0);
                    assert(entries_of(ms).contains(ee0));
                    assert(entries_of(ms).to_multiset().count(ee0) > 0);
                    assert(t.contents().to_multiset().count(ee0) > 0);
                    assert(t.contents().contains(ee0));
                    let jz = choose|jz: int| 0 <= jz < t.bodies.len() && t.bodies[jz] == ee0;
                    assert(t.bodies[jz].body.pos == t.bodies[0].body.pos);
                }
            }
            assert(all_bodies_at(ms, ms[0].pos));
            assert(false);
        }
        assert(t.contents().len() > 0);
        assert(t.com == seq_fx_div(t.moment, t.total));
    }
}

/// Insertion order independence: two body runs that hold the same bodies,
/// in any two orders, build trees with the same total mass, the same
/// moment, and — whenever mass remains positive, or all bodies coincide —
/// the same centre of mass.  The tree shapes themselves may differ.
pub proof fn law_insertion_order_independent(ms1: Seq<BodyModel>, ms2: Seq<BodyModel>, dim: nat)
    requires
        all_wf(ms1, dim),
        all_wf(ms2, dim),
        1 <= dim <= 16,
        ms1.to_multiset() == ms2.to_multiset(),
    ensures
        spec_build(ms1, dim).total == spec_build(ms2, dim).total,
        spec_build(ms1, dim).moment =~= spec_build(ms2, dim).moment,
        ms1.len() > 0 && (spec_build(ms1, dim).total > 0 || all_bodies_at(ms1, ms1[0].pos))
            ==> spec_build(ms1, dim).com == spec_build(ms2, dim).com,
{
    let t1 = spec_build(ms1, dim);
    let t2 = spec_build(ms2, dim);
    law_tree_total_mass(ms1, dim);
    law_tree_total_mass(ms2, dim);
    lemma_bsum_perm(ms1, ms2, 0);
    lemma_build_props(ms1, dim, ms1.len());
    lemma_build_props(ms2, dim, ms2.len());
    assert forall|k: int| 0 <= k < dim implies (#[trigger] t1.moment[k]) == t2.moment[k] by {
        lemma_bsum_perm(ms1, ms2, k);
        assert(t1.moment[k] as int == bsum_moment(ms1, k));
        assert(t2.moment[k] as int == bsum_moment(ms2, k));
    }
    assert(t1.moment =~= t2.moment);
    if ms1.len() > 0 && (t1.total > 0 || all_bodies_at(ms1, ms1[0].pos)) {
        assert(ms2.len() == ms1.len()) by {
            assert(ms1.to_multiset().len() == ms1.len());
            assert(ms2.to_multiset().len() == ms2.len());
        }
        if all_bodies_at(ms1, ms1[0].pos) {
            assert(all_bodies_at(ms2, ms2[0].pos) && ms2[0].pos == ms1[0].pos) by {
                assert forall|i: int| 0 <= i < ms2.len() implies (#[trigger] ms2[i]).pos
                    == ms1[0].pos by {
                    assert(ms2.contains(ms2[i])) by {
                        assert(ms2[i] == ms2[i]);
                    }
                    assert(ms2.to_multiset().count(ms2[i]) > 0);
                    assert(ms1.to_multiset().count(ms2[i]) > 0);
                    assert(ms1.contains(ms2[i]));
                    let j = choose|j: int| 0 <= j < ms1.len() && ms1[j] == ms2[i];
                    assert(ms1[j].pos == ms1[0].pos);
                }
            }
            lemma_build_coincident(ms1, dim, ms1.len());
            lemma_build_coincident(ms2, dim, ms2.len());
        } else {
            law_tree_center_of_mass(ms1, dim);
            law_tree_center_of_mass(ms2, dim);
            assert(!all_bodies_at(ms2, ms2[0].pos)) by {
                if all_bodies_at(ms2, ms2[0].pos) {
                    assert forall|i: int| 0 <= i < ms1.len() implies (#[trigger] ms1[i]).pos
                        == ms1[0].pos by {
                        assert(ms1.contains(ms1[i])) by {
                            assert(ms1[i] == ms1[i]);
                        }
                        assert(ms1.to_multiset().count(ms1[i]) > 0);
                        assert(ms2.to_multiset().count(ms1[i]) > 0);
                        assert(ms2.contains(ms1[i]));
                        let j = choose|j: int| 0 <= j < ms2.len() && ms2[j] == ms1[i];
                        assert(ms2[j].pos == ms2[0].pos);
                        assert(ms1.contains(ms1[0])) by {
                            assert(ms1[0] == ms1[0]);
                        }
                        assert(ms1.to_multiset().count(ms1[0]) > 0);
                        assert(ms2.to_multiset().count(ms1[0]) > 0);
                        assert(ms2.contains(ms1[0]));
                        let j0 = choose|j0: int| 0 <= j0 < ms2.len() && ms2[j0] == ms1[0];
                        assert(ms2[j0].pos == ms2[0].pos);
                    }
                    assert(false);
                }
            }
        }
    }
}

/// A tree holding exactly one body returns the zero vector when that same
/// body queries it: a body exerts no force on itself.
pub proof fn law_single_body_self_force(t: TreeModel, e: EntryModel, g: i64, s: i64, th: i64)
    requires
        t.wf(),
        t.contents() =~= seq![e],
    ensures
        t.spec_force(e.id, e.body, g, s, th) == seq_zero(t.dim()),
{
    assert(t.kids_all_none()) by {
        if !t.kids_all_none() {
            assert(subtree_entries(t.kids, t.kids.len()).len() >= 2);
            assert(t.contents().len() >= 2);
        }
    }
    lemma_subtree_entries_all_none(t.kids, t.kids.len());
    assert(t.bodies =~= seq![e]);
    assert(t.bodies[0].id == e.id);
    assert(holds_id(t.bodies, e.id));
}

/// A coincident query: a leaf stack queried from exactly its own position
/// by a body it does not hold contributes nothing — the zero-distance
/// branch, not an error.
pub proof fn law_coincident_zero_force(t: TreeModel, tid: int, tb: BodyModel, g: i64, s: i64, th: i64)
    requires
        t.wf(),
        t.kids_all_none(),
        t.bodies.len() > 0,
        crate::tree::all_at(t.bodies, t.bodies[0].body.pos),
        !holds_id(t.bodies, tid),
        tb.pos == t.bodies[0].body.pos,
    ensures
        t.spec_force(tid, tb, g, s, th) == seq_zero(t.dim()),
{
    assert(t.is_cluster());
    assert(t.com == t.bodies[0].body.pos);
    let dx = seq_wsub(t.com, tb.pos);
    assert forall|k: int| 0 <= k < dx.len() implies (#[trigger] dx[k]) == 0i64 by {
        assert(t.com[k] == tb.pos[k]);
        lemma_wrap64_id(0);
    }
    lemma_norm_sq_zero(dx);
    assert(fx_wsqrt(0) == 0);
}

/// The squared length of an all-zero vector is zero.
proof fn lemma_norm_sq_zero(d: Seq<i64>)
    requires
        forall|k: int| 0 <= k < d.len() ==> (#[trigger] d[k]) == 0i64,
    ensures
        norm_sq(d) == 0,
{
    lemma_wsum_zero_seq(crate::vector::seq_sq(d), d.len() as int);
}

/// The wrapping sum of an all-zero run is zero.
proof fn lemma_wsum_zero_seq(s: Seq<i64>, n: int)
    requires
        n == s.len(),
        forall|k: int| 0 <= k < s.len() ==> (#[trigger] s[k]) as int == 0,
    ensures
        crate::vector::wsum(s) == 0,
    decreases n,
{
    if n > 0 {
        lemma_wsum_zero_seq(s.drop_last(), n - 1);
        lemma_wrap64_id(0);
    }
}

/// The empty system is fully defined: its bounds are the unit box around
/// the origin and its tree is the empty node over that box, holding
/// nothing.
pub proof fn law_empty_system(dim: nat)
    requires
        1 <= dim <= 16,
    ensures
        spec_compute_bounds(Seq::<BodyModel>::empty(), dim) == (BoundsModel {
            min: Seq::new(dim, |k: int| (-0x1_0000_0000) as i64),
            max: Seq::new(dim, |k: int| 0x1_0000_0000 as i64),
        }),
        spec_build(Seq::<BodyModel>::empty(), dim) == TreeModel::empty_node(
            spec_compute_bounds(Seq::<BodyModel>::empty(), dim),
        ),
        spec_build(Seq::<BodyModel>::empty(), dim).contents() =~= Seq::<EntryModel>::empty(),
        spec_build(Seq::<BodyModel>::empty(), dim).wf(),
{
    lemma_empty_node_wf(spec_compute_bounds(Seq::<BodyModel>::empty(), dim));
}


/// Truncated division of zero is zero.
proof fn lemma_tdiv_zero(d: int)
    ensures
        crate::fixed::tdiv(0, d) == 0,
{
    if d != 0 {
        vstd::arithmetic::div_mod::lemma_fundamental_div_mod_converse(
            0,
            crate::fixed::iabs(d),
            0,
            0,
        );
    }
}

/// Zero annihilates the wrapping product and the wrapping quotient.
proof fn lemma_fx_zero(x: int, d: int)
    ensures
        fx_wmul(x, 0) == 0,
        fx_wmul(0, x) == 0,
        fx_wdiv(0, d) == 0,
{
    lemma_tdiv_zero(crate::fixed::fx_unit());
    lemma_tdiv_zero(d);
    lemma_wrap64_id(0);
    assert(x * 0 == 0);
    assert(0 * x == 0);
    assert(0 * crate::fixed::fx_unit() == 0);
}

/// The direct pairwise force of one tagged source body on a queried body:
/// zero for the queried body itself and for an exactly coincident source,
/// else the softened inverse-square attraction along the separation.
pub open spec fn pair_force(tid: int, tb: BodyModel, e: EntryModel, g: i64, s: i64, dim: nat) -> Seq<
    i64,
> {
    if e.id == tid {
        seq_zero(dim)
    } else {
        let dx = seq_wsub(e.body.pos, tb.pos);
        let dsq = norm_sq(dx);
        let dist = fx_wsqrt(dsq);
        if dsq == 0 {
            seq_zero(dim)
        } else {
            let f = fx_wdiv(
                fx_wmul(fx_wmul(g as int, tb.mass as int), e.body.mass as int),
                fx_wadd(dsq, s as int),
            );
            Seq::new(dim, |k: int| fx_wdiv(fx_wmul(f, dx[k] as int), dist) as i64)
        }
    }
}

/// The wrapping sum of the direct pairwise forces of the first `i` entries.
pub open spec fn psum(
    es: Seq<EntryModel>,
    i: nat,
    tid: int,
    tb: BodyModel,
    g: i64,
    s: i64,
    dim: nat,
) -> Seq<i64>
    decreases i,
{
    if i == 0 || i > es.len() {
        seq_zero(dim)
    } else {
        crate::vector::seq_wadd(
            psum(es, (i - 1) as nat, tid, tb, g, s, dim),
            pair_force(tid, tb, es[i - 1], g, s, dim),
        )
    }
}

/// A tree in plain shape: every leaf holds exactly one body (or the tree
/// is empty) and no split node keeps residents.  Every ordinary build of
/// bodies at distinct positions has this shape; only coincident stacks
/// and the depth cap escape it.
pub open spec fn plain(t: TreeModel) -> bool
    decreases t,
{
    &&& (t.kids_all_none() ==> t.bodies.len() <= 1)
    &&& (!t.kids_all_none() ==> t.bodies.len() == 0)
    &&& (forall|q: int| 0 <= q < t.kids.len() && t.kids[q] is Some ==> plain(
        (#[trigger] t.kids[q])->0,
    ))
}

/// Componentwise wrapping addition of a zero vector changes nothing.
proof fn lemma_wadd_zero(v: Seq<i64>, dim: nat)
    requires
        v.len() == dim,
    ensures
        crate::vector::seq_wadd(seq_zero(dim), v) =~= v,
        crate::vector::seq_wadd(v, seq_zero(dim)) =~= v,
{
    assert forall|k: int| 0 <= k < dim implies crate::vector::seq_wadd(seq_zero(dim), v)[k]
        == v[k] && crate::vector::seq_wadd(v, seq_zero(dim))[k] == v[k] by {
        lemma_wrap64_id(v[k] as int);
    }
}

/// Componentwise wrapping addition associates.
proof fn lemma_wadd_assoc(a: Seq<i64>, b: Seq<i64>, c: Seq<i64>)
    requires
        a.len() == b.len(),
        b.len() == c.len(),
    ensures
        crate::vector::seq_wadd(crate::vector::seq_wadd(a, b), c) =~= crate::vector::seq_wadd(
            a,
            crate::vector::seq_wadd(b, c),
        ),
{
    assert forall|k: int| 0 <= k < a.len() implies crate::vector::seq_wadd(
        crate::vector::seq_wadd(a, b),
        c,
    )[k] == crate::vector::seq_wadd(a, crate::vector::seq_wadd(b, c))[k] by {
        lemma_wrap64_add(a[k] + b[k], c[k] as int);
        lemma_wrap64_add(b[k] + c[k], a[k] as int);
    }
}

/// A pairwise sum only reads the prefix it covers.
proof fn lemma_psum_prefix(
    es1: Seq<EntryModel>,
    es2: Seq<EntryModel>,
    i: nat,
    tid: int,
    tb: BodyModel,
    g: i64,
    s: i64,
    dim: nat,
)
    requires
        i <= es1.len(),
        i <= es2.len(),
        forall|j: int| 0 <= j < i ==> es1[j] == es2[j],
    ensures
        psum(es1, i, tid, tb, g, s, dim) == psum(es2, i, tid, tb, g, s, dim),
    decreases i,
{
    if i > 0 {
        lemma_psum_prefix(es1, es2, (i - 1) as nat, tid, tb, g, s, dim);
    }
}

/// A pairwise sum has one component per axis.
proof fn lemma_psum_len(
    es: Seq<EntryModel>,
    i: nat,
    tid: int,
    tb: BodyModel,
    g: i64,
    s: i64,
    dim: nat,
)
    ensures
        psum(es, i, tid, tb, g, s, dim).len() == dim,
    decreases i,
{
    if 0 < i <= es.len() {
        lemma_psum_len(es, (i - 1) as nat, tid, tb, g, s, dim);
    }
}

/// Pairwise sums split over concatenation.
proof fn lemma_psum_concat(
    x: Seq<EntryModel>,
    y: Seq<EntryModel>,
    tid: int,
    tb: BodyModel,
    g: i64,
    s: i64,
    dim: nat,
)
    ensures
        psum(x + y, (x.len() + y.len()) as nat, tid, tb, g, s, dim) =~= crate::vector::seq_wadd(
            psum(x, x.len(), tid, tb, g, s, dim),
            psum(y, y.len(), tid, tb, g, s, dim),
        ),
    decreases y.len(),
{
    lemma_psum_len(x, x.len(), tid, tb, g, s, dim);
    lemma_psum_len(y, y.len(), tid, tb, g, s, dim);
    if y.len() == 0 {
        assert(x + y =~= x);
        lemma_wadd_zero(psum(x, x.len(), tid, tb, g, s, dim), dim);
    } else {
        lemma_psum_concat(x, y.drop_last(), tid, tb, g, s, dim);
        lemma_psum_len(y.drop_last(), y.drop_last().len(), tid, tb, g, s, dim);
        assert(x + y.drop_last() =~= (x + y).take(x.len() + y.len() - 1));
        lemma_psum_prefix(
            x + y.drop_last(),
            x + y,
            (x.len() + y.len() - 1) as nat,
            tid,
            tb,
            g,
            s,
            dim,
        );
        assert((x + y)[x.len() + y.len() - 1] == y.last());
        assert(psum(x + y, (x.len() + y.len()) as nat, tid, tb, g, s, dim)
            == crate::vector::seq_wadd(
            psum(x + y, (x.len() + y.len() - 1) as nat, tid, tb, g, s, dim),
            pair_force(tid, tb, y.last(), g, s, dim),
        ));
        assert(psum(y, y.len(), tid, tb, g, s, dim) == crate::vector::seq_wadd(
            psum(y, (y.len() - 1) as nat, tid, tb, g, s, dim),
            pair_force(tid, tb, y.last(), g, s, dim),
        ));
        lemma_psum_prefix(y, y.drop_last(), (y.len() - 1) as nat, tid, tb, g, s, dim);
        lemma_wadd_assoc(
            psum(x, x.len(), tid, tb, g, s, dim),
            psum(y.drop_last(), y.drop_last().len(), tid, tb, g, s, dim),
            pair_force(tid, tb, y.last(), g, s, dim),
        );
    }
}

/// With the opening test disabled (`theta` at its least value), a plain
/// tree's force query is exactly the direct pairwise summation over every
/// body it holds, in content order.
pub proof fn law_exact_summation(t: TreeModel, tid: int, tb: BodyModel, g: i64, s: i64)
    requires
        t.wf(),
        plain(t),
        tb.pos.len() == t.dim(),
    ensures
        t.spec_force(tid, tb, g, s, i64::MIN) =~= psum(
            t.contents(),
            t.contents().len(),
            tid,
            tb,
            g,
            s,
            t.dim(),
        ),
    decreases t, t.kids.len() + 1,
{
    let dim = t.dim();
    let th = i64::MIN;
    if t.kids_all_none() {
        lemma_subtree_entries_all_none(t.kids, t.kids.len());
        assert(t.contents() =~= t.bodies);
        if t.bodies.len() == 0 {
            assert(!holds_id(t.bodies, tid));
            // an empty node carries no mass and so no force
            assert(t.total == 0) by {
                assert(t.total as int == wsum_mass(t.contents()));
            }
            let dx = seq_wsub(t.com, tb.pos);
            let dsq = norm_sq(dx);
            if dsq != 0 {
                let f = fx_wdiv(
                    fx_wmul(fx_wmul(g as int, tb.mass as int), t.total as int),
                    fx_wadd(dsq, s as int),
                );
                lemma_fx_zero(fx_wmul(g as int, tb.mass as int), fx_wadd(dsq, s as int));
                assert(f == 0);
                assert forall|k: int| 0 <= k < dim implies t.spec_force(tid, tb, g, s, th)[k]
                    == 0i64 by {
                    lemma_fx_zero(dx[k] as int, fx_wsqrt(dsq));
                    lemma_fx_zero(0, fx_wsqrt(dsq));
                }
                assert(t.spec_force(tid, tb, g, s, th) =~= seq_zero(dim));
            }
            assert(psum(t.contents(), 0, tid, tb, g, s, dim) == seq_zero(dim));
        } else {
            // a single resident body
            let e = t.bodies[0];
            assert(t.bodies =~= seq![e]);
            assert(t.is_cluster());
            assert(t.com == e.body.pos);
            assert(t.contents() == t.bodies);
            lemma_psum_prefix(t.contents(), t.bodies, 1, tid, tb, g, s, dim);
            assert(psum(t.bodies, 0, tid, tb, g, s, dim) == seq_zero(dim));
            assert(psum(t.bodies, 1, tid, tb, g, s, dim) == crate::vector::seq_wadd(
                seq_zero(dim),
                pair_force(tid, tb, e, g, s, dim),
            ));
            if holds_id(t.bodies, tid) {
                assert(e.id == tid);
                lemma_wadd_zero(seq_zero(dim), dim);
            } else {
                assert(e.id != tid);
                assert(t.total as int == wsum_mass(t.contents()));
                assert(t.contents().drop_last() =~= Seq::<EntryModel>::empty());
                assert(wsum_mass(Seq::<EntryModel>::empty()) == 0);
                assert(t.contents().last() == e);
                assert(t.contents().len() == 1);
                assert(wsum_mass(t.contents()) == fx_wadd(
                    wsum_mass(t.contents().drop_last()),
                    e.body.mass as int,
                ));
                assert(wsum_mass(t.contents()) == fx_wadd(0, e.body.mass as int));
                lemma_wrap64_id(e.body.mass as int);
                assert(t.total == e.body.mass);
                let pf = pair_force(tid, tb, e, g, s, dim);
                assert(pf.len() == dim);
                lemma_wadd_zero(pf, dim);
                assert(seq_wsub(t.com, tb.pos) == seq_wsub(e.body.pos, tb.pos));
                assert(t.spec_force(tid, tb, g, s, th) =~= pf);
            }
        }
    } else {
        assert(!holds_id(t.bodies, tid)) by {
            assert(t.bodies.len() == 0);
        }
        // the opening ratio can never undercut the least threshold
        let dx = seq_wsub(t.com, tb.pos);
        let dsq = norm_sq(dx);
        let dist = fx_wsqrt(dsq);
        assert(!(dist > 0 && fx_wdiv(t.bounds.diag_of(), dist) < th)) by {
            if dist > 0 {
                assert(fx_wdiv(t.bounds.diag_of(), dist) >= -two63());
            }
        }
        law_exact_summation_kids(t, t.kids.len(), tid, tb, g, s);
        assert(t.contents() =~= subtree_entries(t.kids, t.kids.len()));
        lemma_psum_prefix(
            t.contents(),
            subtree_entries(t.kids, t.kids.len()),
            t.contents().len(),
            tid,
            tb,
            g,
            s,
            dim,
        );
    }
}

/// The child-slot sum of a plain tree is the pairwise sum over the entries
/// beneath those slots.
proof fn law_exact_summation_kids(t: TreeModel, i: nat, tid: int, tb: BodyModel, g: i64, s: i64)
    requires
        t.wf_shape(),
        plain(t),
        tb.pos.len() == t.dim(),
        i <= t.kids.len(),
    ensures
        crate::tree::force_kids(t.kids, i, tid, tb, g, s, i64::MIN, t.dim()) =~= psum(
            subtree_entries(t.kids, i),
            subtree_entries(t.kids, i).len(),
            tid,
            tb,
            g,
            s,
            t.dim(),
        ),
    decreases t, i,
{
    let dim = t.dim();
    let th = i64::MIN;
    if i == 0 {
    } else {
        law_exact_summation_kids(t, (i - 1) as nat, tid, tb, g, s);
        let a = subtree_entries(t.kids, (i - 1) as nat);
        match t.kids[i - 1] {
            Some(k) => {
                assert(k.wf() && plain(k) && k.dim() == dim);
                law_exact_summation(k, tid, tb, g, s);
                assert(subtree_entries(t.kids, i) == a + k.contents());
                lemma_psum_concat(a, k.contents(), tid, tb, g, s, dim);
                lemma_psum_prefix(
                    k.contents(),
                    k.contents(),
                    k.contents().len(),
                    tid,
                    tb,
                    g,
                    s,
                    dim,
                );
            }
            None => {
                assert(subtree_entries(t.kids, i) == a + Seq::<EntryModel>::empty());
                assert(subtree_entries(t.kids, i) =~= a);
            }
        }
    }
}


/// `fx_wmul` is odd in its right argument while the product stays exact.
proof fn lemma_fx_wmul_odd(a: int, b: int)
    requires
        crate::fixed::iabs(crate::fixed::tdiv(a * b, crate::fixed::fx_unit())) < two63(),
    ensures
        fx_wmul(a, -b) == -fx_wmul(a, b),
        fx_wmul(a, b) == crate::fixed::tdiv(a * b, crate::fixed::fx_unit()),
{
    let u = crate::fixed::fx_unit();
    let t = crate::fixed::tdiv(a * b, u);
    assert(a * -b == -(a * b)) by (nonlinear_arith);
    assert(crate::fixed::tdiv(-(a * b), u) == -t) by {
        assert(crate::fixed::iabs(-(a * b)) == crate::fixed::iabs(a * b));
    }
    lemma_wrap64_id(t);
    lemma_wrap64_id(-t);
}

/// `fx_wdiv` is odd in its numerator while the quotient stays exact.
proof fn lemma_fx_wdiv_odd(a: int, b: int)
    requires
        crate::fixed::iabs(crate::fixed::tdiv(a * crate::fixed::fx_unit(), b)) < two63(),
    ensures
        fx_wdiv(-a, b) == -fx_wdiv(a, b),
        b != 0 ==> fx_wdiv(a, b) == crate::fixed::tdiv(a * crate::fixed::fx_unit(), b),
{
    let u = crate::fixed::fx_unit();
    if b != 0 {
        let t = crate::fixed::tdiv(a * u, b);
        assert((-a) * u == -(a * u)) by (nonlinear_arith);
        assert(crate::fixed::tdiv(-(a * u), b) == -t) by {
            assert(crate::fixed::iabs(-(a * u)) == crate::fixed::iabs(a * u));
        }
        lemma_wrap64_id(t);
        lemma_wrap64_id(-t);
    }
}


/// The mirrored pair: two bodies of one mass `m`, at rest at `(-d, 0)` and
/// `(d, 0)`.
pub open spec fn mirror_pair(m: i64, d: i64) -> Seq<BodyModel> {
    seq![
        BodyModel {
            mass: m,
            pos: seq![(-(d as int)) as i64, 0i64],
            vel: seq![0i64, 0i64],
            acc: seq![0i64, 0i64],
        },
        BodyModel { mass: m, pos: seq![d, 0i64], vel: seq![0i64, 0i64], acc: seq![0i64, 0i64] },
    ]
}

/// The magnitudes under which the mirrored pair's arithmetic is exact.
pub open spec fn mirror_scale_ok(m: i64, d: i64) -> bool {
    &&& 0 < m < 0x4000_0000_0000
    &&& 0 < d < 0x4000_0000_0000
}

/// The tree a build makes of the mirrored pair: an internal root at the
/// origin with one single-body leaf per side.
pub proof fn lemma_mirror_tree(m: i64, d: i64)
    requires
        mirror_scale_ok(m, d),
    ensures
        ({
            let ms = mirror_pair(m, d);
            let t = spec_build(ms, 2);
            let u = crate::fixed::fx_unit();
            let w = crate::fixed::tdiv((m as int) * (d as int), u);
            let nd = (-(d as int)) as i64;
            let b0 = spec_compute_bounds(ms, 2);
            &&& b0 =~= (BoundsModel { min: seq![nd, (-1) as i64], max: seq![d, 1i64] })
            &&& t.bounds == b0
            &&& t.total == (2 * m) as i64
            &&& t.moment =~= seq![0i64, 0i64]
            &&& t.com =~= seq![0i64, 0i64]
            &&& t.bodies =~= Seq::<EntryModel>::empty()
            &&& t.kids.len() == 4
            &&& t.kids[0] is Some
            &&& t.kids[1] is Some
            &&& t.kids[2] is None
            &&& t.kids[3] is None
            &&& ({
                let ka = t.kids[0]->0;
                &&& ka.bodies =~= seq![EntryModel { id: 0, body: ms[0] }]
                &&& ka.kids_all_none()
                &&& ka.total == m
                &&& ka.com =~= ms[0].pos
                &&& ka.dim() == 2
            })
            &&& ({
                let kb = t.kids[1]->0;
                &&& kb.bodies =~= seq![EntryModel { id: 1, body: ms[1] }]
                &&& kb.kids_all_none()
                &&& kb.total == m
                &&& kb.com =~= ms[1].pos
                &&& kb.dim() == 2
            })
        }),
{
    let ms = mirror_pair(m, d);
    let u = crate::fixed::fx_unit();
    let w = crate::fixed::tdiv((m as int) * (d as int), u);
    let nd = (-(d as int)) as i64;
    let e0 = EntryModel { id: 0, body: ms[0] };
    let e1 = EntryModel { id: 1, body: ms[1] };
    let fuel = crate::tree::DEPTH_LIMIT as nat;
    assert(ms[0].pos[0] == nd && ms[0].pos[1] == 0i64);
    assert(ms[1].pos[0] == d && ms[1].pos[1] == 0i64);
    assert((nd as int) < 0 < (d as int));
    // the computed bounds
    let b0 = spec_compute_bounds(ms, 2);
    assert(crate::simulation::fold_min(ms, 1, 0) == nd);
    assert(crate::simulation::fold_max(ms, 1, 0) == d || crate::simulation::fold_max(ms, 1, 0) == nd);
    assert(crate::simulation::fold_max(ms, 1, 0) == nd);
    assert(crate::simulation::fold_min(ms, 1, 1) == 0i64);
    assert(crate::simulation::fold_max(ms, 1, 1) == 0i64);
    assert(crate::simulation::fold_min(ms, 2, 0) == nd);
    assert(crate::simulation::fold_max(ms, 2, 0) == d);
    assert(crate::simulation::fold_min(ms, 2, 1) == 0i64);
    assert(crate::simulation::fold_max(ms, 2, 1) == 0i64);
    assert(b0.min[0] == nd && b0.min[1] == (-1) as i64);
    assert(b0.max[0] == d && b0.max[1] == 1i64);
    assert(b0 =~= (BoundsModel { min: seq![nd, (-1) as i64], max: seq![d, 1i64] }));
    assert(b0.dim() == 2);
    assert(pow2i(2) == 4) by {
        reveal_with_fuel(crate::bounds::pow2i, 3);
    }
    // the empty root and the first insertion: a one-body leaf
    let t0 = TreeModel::empty_node(b0);
    lemma_empty_node_wf(b0);
    assert(t0.kids.len() == 4);
    assert(crate::simulation::spec_build_upto(ms, 2, 0) == t0);
    assert(spec_build(ms, 2) == crate::simulation::spec_build_upto(ms, 2, 1).spec_insert(e1, fuel));
    assert(crate::simulation::spec_build_upto(ms, 2, 1) == t0.spec_insert(e0, fuel));
    let t1 = t0.spec_insert(e0, fuel);
    assert(t0.bodies.len() == 0 && t0.kids_all_none());
    assert((m as int) * (d as int) >= 0) by (nonlinear_arith)
        requires
            0 < m && 0 < d,
    ;
    assert(crate::fixed::iabs(w) < two63()) by {
        assert((m as int) * (d as int) < 0x4000_0000_0000 * 0x4000_0000_0000) by (nonlinear_arith)
            requires
                0 < m < 0x4000_0000_0000 && 0 < d < 0x4000_0000_0000,
        ;
        assert(0x4000_0000_0000 * 0x4000_0000_0000 == 0x1000_0000_0000_0000 * u);
        vstd::arithmetic::div_mod::lemma_multiply_divide_lt(
            (m as int) * (d as int),
            0x1000_0000_0000_0000,
            u,
        );
        assert(w >= 0) by {
            vstd::arithmetic::div_mod::lemma_div_pos_is_pos((m as int) * (d as int), u);
        }
        assert(crate::fixed::iabs((m as int) * (d as int)) == (m as int) * (d as int));
        assert(w == ((m as int) * (d as int)) / u);
        assert(crate::fixed::iabs(w) == w);
    }
    lemma_fx_wmul_odd(m as int, d as int);
    lemma_fx_zero(m as int, 1);
    assert(t1.total == m);
    assert(t1.com == ms[0].pos);
    assert(t1.bodies =~= seq![e0]);
    assert(t1.kids_all_none());
    assert(t1.moment[0] as int == -w) by {
        assert(t1.moment[0] as int == fx_wmul(m as int, nd as int));
        assert(nd as int == -(d as int));
    }
    assert(t1.moment[1] as int == 0) by {
        assert(t1.moment[1] as int == fx_wmul(m as int, 0));
    }
    // the second insertion splits the leaf
    assert(e0.body.pos != e1.body.pos) by {
        if e0.body.pos == e1.body.pos {
            assert(e0.body.pos[0] == e1.body.pos[0]);
        }
    }
    assert(!crate::tree::all_at(t1.bodies, e1.body.pos)) by {
        if crate::tree::all_at(t1.bodies, e1.body.pos) {
            assert(t1.bodies[0].body.pos == e1.body.pos);
        }
    }
    assert(!(t1.bodies.len() == 0 && t1.kids_all_none()));
    assert(fuel != 0);
    let cleared = TreeModel { bodies: Seq::empty(), ..t1 };
    let s1 = cleared.spec_spread(t1.bodies, fuel);
    let s2 = s1.spec_route(e1, fuel);
    let t2 = t1.spec_insert(e1, fuel);
    assert(t2 == s2.spec_recompute());
    // routing: the centre is the origin, the pair splits into slots 0 and 1
    let c = b0.center_of();
    assert(c[0] == 0i64 && c[1] == 0i64) by {
        crate::bounds::lemma_mid_between(nd, d);
        crate::bounds::lemma_mid_between((-1) as i64, 1i64);
        lemma_tdiv_zero(2);
    }
    assert(crate::bounds::quadrant_of(e0.body.pos, c, 2) == 0) by {
        reveal_with_fuel(crate::bounds::quadrant_of, 3);
    }
    assert(crate::bounds::quadrant_of(e1.body.pos, c, 2) == 1) by {
        reveal_with_fuel(crate::bounds::quadrant_of, 3);
        reveal_with_fuel(crate::bounds::pow2i, 3);
    }
    assert(s1 == cleared.spec_route(e0, fuel).spec_spread(Seq::<EntryModel>::empty(), fuel)) by {
        assert(t1.bodies.last() == e0);
        assert(t1.bodies.drop_last() =~= Seq::<EntryModel>::empty());
    }
    let r0 = cleared.spec_route(e0, fuel);
    assert(s1 == r0);
    assert(cleared.kids[0] is None);
    let ka = TreeModel::empty_node(b0.child_of(0)).spec_insert(e0, (fuel - 1) as nat);
    assert(r0.kids == cleared.kids.update(0, Some(ka)));
    lemma_empty_node_wf(b0.child_of(0));
    assert(ka.bodies =~= seq![e0]);
    assert(ka.total == m && ka.com == e0.body.pos);
    assert(ka.kids_all_none());
    assert(ka.moment[0] as int == -w && ka.moment[1] as int == 0);
    assert(ka.dim() == 2) by {
        assert(b0.child_of(0).min.len() == 2);
    }
    assert(s1.kids[1] is None);
    let kb = TreeModel::empty_node(b0.child_of(1)).spec_insert(e1, (fuel - 1) as nat);
    assert(s2.kids == s1.kids.update(1, Some(kb)));
    lemma_empty_node_wf(b0.child_of(1));
    assert(kb.bodies =~= seq![e1]);
    assert(kb.total == m && kb.com == e1.body.pos);
    assert(kb.kids_all_none());
    assert(kb.moment[0] as int == w && kb.moment[1] as int == 0);
    assert(kb.dim() == 2) by {
        assert(b0.child_of(1).min.len() == 2);
    }
    // the recomputed root aggregates
    assert(ka.contents() =~= seq![e0]) by {
        lemma_subtree_entries_all_none(ka.kids, ka.kids.len());
    }
    assert(kb.contents() =~= seq![e1]) by {
        lemma_subtree_entries_all_none(kb.kids, kb.kids.len());
    }
    assert(s2.kids.len() == 4);
    assert(s2.kids[0] == Some(ka) && s2.kids[1] == Some(kb));
    assert(s2.kids[2] is None && s2.kids[3] is None);
    assert(s2.bodies =~= Seq::<EntryModel>::empty());
    assert(subtree_entries(s2.kids, 0) =~= Seq::<EntryModel>::empty());
    assert(subtree_entries(s2.kids, 1) == subtree_entries(s2.kids, 0) + ka.contents());
    assert(subtree_entries(s2.kids, 1) =~= seq![e0]);
    assert(subtree_entries(s2.kids, 2) == subtree_entries(s2.kids, 1) + kb.contents());
    assert(subtree_entries(s2.kids, 2) =~= seq![e0, e1]);
    assert(subtree_entries(s2.kids, 3) == subtree_entries(s2.kids, 2) + Seq::<EntryModel>::empty());
    assert(subtree_entries(s2.kids, 3) =~= seq![e0, e1]);
    assert(subtree_entries(s2.kids, 4) == subtree_entries(s2.kids, 3) + Seq::<EntryModel>::empty());
    assert(subtree_entries(s2.kids, 4) =~= seq![e0, e1]);
    assert(s2.contents() =~= seq![e0, e1]);
    let es = seq![e0, e1];
    assert(es.drop_last() =~= seq![e0]);
    assert(seq![e0].drop_last() =~= Seq::<EntryModel>::empty());
    assert(wsum_mass(Seq::<EntryModel>::empty()) == 0);
    assert(wsum_moment(Seq::<EntryModel>::empty(), 0) == 0);
    assert(wsum_moment(Seq::<EntryModel>::empty(), 1) == 0);
    assert(wsum_mass(seq![e0]) == fx_wadd(0, m as int));
    assert(wsum_mass(es) == fx_wadd(fx_wadd(0, m as int), m as int));
    lemma_wrap64_id(m as int);
    lemma_wrap64_id(2 * m);
    assert(wsum_mass(es) == 2 * m);
    assert(wsum_moment(seq![e0], 0) == fx_wadd(0, fx_wmul(m as int, nd as int)));
    assert(wsum_moment(es, 0) == fx_wadd(fx_wadd(0, fx_wmul(m as int, nd as int)), fx_wmul(
        m as int,
        d as int,
    )));
    lemma_wrap64_id(-w);
    lemma_wrap64_id(0);
    assert(wsum_moment(es, 0) == 0);
    assert(wsum_moment(seq![e0], 1) == fx_wadd(0, fx_wmul(m as int, 0)));
    assert(wsum_moment(es, 1) == fx_wadd(fx_wadd(0, fx_wmul(m as int, 0)), fx_wmul(m as int, 0)));
    lemma_fx_zero(m as int, 1);
    assert(wsum_moment(es, 1) == 0);
    assert(t2.total == (2 * m) as i64);
    assert(t2.moment[0] == 0i64 && t2.moment[1] == 0i64);
    assert(t2.moment =~= seq![0i64, 0i64]);
    assert(t2.total > 0);
    assert(t2.com =~= seq![0i64, 0i64]) by {
        lemma_fx_zero(0, 2 * m);
        assert(t2.com == seq_fx_div(t2.moment, t2.total));
        assert(t2.com[0] as int == fx_wdiv(0, 2 * m));
        assert(t2.com[1] as int == fx_wdiv(0, 2 * m));
    }
    assert(t2.bodies =~= Seq::<EntryModel>::empty());
    assert(t2.kids == s2.kids);
}


/// Every non-negative integer has an integer square root.
proof fn lemma_sqrt_exists(n: int)
    requires
        n >= 0,
    ensures
        exists|r: int| 0 <= r && #[trigger] (r * r) <= n && n < (r + 1) * (r + 1),
    decreases n,
{
    if n == 0 {
        let z: int = 0;
        assert(z * z == 0 && (z + 1) * (z + 1) == 1) by (nonlinear_arith)
            requires
                z == 0,
        ;
        assert(0 <= z && z * z <= n && n < (z + 1) * (z + 1));
    } else {
        lemma_sqrt_exists(n - 1);
        let r = choose|r: int| 0 <= r && #[trigger] (r * r) <= n - 1 && n - 1 < (r + 1) * (r + 1);
        if (r + 1) * (r + 1) <= n {
            assert(n == (r + 1) * (r + 1));
            assert((r + 1) * (r + 1) < (r + 2) * (r + 2)) by (nonlinear_arith)
                requires
                    r >= 0,
            ;
            assert(0 <= r + 1 && (r + 1) * (r + 1) <= n && n < (r + 2) * (r + 2));
        } else {
            assert(0 <= r && r * r <= n && n < (r + 1) * (r + 1));
        }
    }
}

/// A fixed-point square root of at least one whole unit is positive.
proof fn lemma_wsqrt_pos(a: int)
    requires
        a >= 1,
    ensures
        fx_wsqrt(a) >= 1,
        fx_wsqrt(a) * fx_wsqrt(a) <= a * crate::fixed::fx_unit(),
{
    let u = crate::fixed::fx_unit();
    assert(a * u >= u) by (nonlinear_arith)
        requires
            a >= 1 && u == 0x1_0000_0000,
    ;
    lemma_sqrt_exists(a * u);
    let r = crate::fixed::sqrt_val(a * u);
    assert(0 <= r && r * r <= a * u && a * u < (r + 1) * (r + 1));
    if r == 0 {
        assert((0 + 1) * (0 + 1) == 1);
        assert(a * u < 1);
        assert(false);
    }
}

/// Truncated division of non-negatives is non-negative.
proof fn lemma_tdiv_nonneg(a: int, b: int)
    requires
        a >= 0,
        b >= 0,
    ensures
        crate::fixed::tdiv(a, b) >= 0,
{
    if b != 0 {
        vstd::arithmetic::div_mod::lemma_div_pos_is_pos(a, b);
    }
}

/// The magnitudes under which the mirrored pair's force arithmetic is
/// exact, written over the very quantities the force query computes.
pub open spec fn mirror_force_tame(m: i64, d: i64, g: i64, s: i64) -> bool {
    let u = crate::fixed::fx_unit();
    let dd = crate::fixed::tdiv((d as int) * (d as int), u);
    let dd4 = crate::fixed::tdiv((2 * (d as int)) * (2 * (d as int)), u);
    let tgm = crate::fixed::tdiv((g as int) * (m as int), u);
    let tn2 = crate::fixed::tdiv(tgm * (2 * (m as int)), u);
    let tn1 = crate::fixed::tdiv(tgm * (m as int), u);
    let tf2 = crate::fixed::tdiv(tn2 * u, dd + (s as int));
    let tf1 = crate::fixed::tdiv(tn1 * u, dd4 + (s as int));
    let tfd2 = crate::fixed::tdiv(tf2 * (d as int), u);
    let tfd1 = crate::fixed::tdiv(tf1 * (2 * (d as int)), u);
    &&& mirror_scale_ok(m, d)
    &&& 0 < g
    &&& 0 <= s
    &&& tgm < two63()
    &&& tn2 < two63()
    &&& tn1 < two63()
    &&& dd + (s as int) < two63()
    &&& dd4 + (s as int) < two63()
    &&& tf2 < two63()
    &&& tf1 < two63()
    &&& tfd2 < two63()
    &&& tfd1 < two63()
    &&& crate::fixed::tdiv(tfd2 * u, fx_wsqrt(dd)) < two63()
    &&& crate::fixed::tdiv(tfd1 * u, fx_wsqrt(dd4)) < two63()
}

/// The mirrored pair pulls on itself symmetrically: the two forces have no
/// cross-axis component, are exact negations of one another, and the force
/// on the left body points (weakly) toward the right one.
#[verifier::rlimit(100)]
pub proof fn law_mirror_pair_forces(m: i64, d: i64, g: i64, s: i64, th: i64)
    requires
        mirror_force_tame(m, d, g, s),
    ensures
        ({
            let ms = mirror_pair(m, d);
            let t = spec_build(ms, 2);
            let f0 = t.spec_force(0, ms[0], g, s, th);
            let f1 = t.spec_force(1, ms[1], g, s, th);
            &&& f0.len() == 2
            &&& f1.len() == 2
            &&& f0[1] == 0i64
            &&& f1[1] == 0i64
            &&& (f1[0] as int) == -(f0[0] as int)
            &&& f0[0] >= 0
        }),
{
    let u = crate::fixed::fx_unit();
    let ms = mirror_pair(m, d);
    let t = spec_build(ms, 2);
    let nd = (-(d as int)) as i64;
    let e0 = EntryModel { id: 0, body: ms[0] };
    let e1 = EntryModel { id: 1, body: ms[1] };
    lemma_mirror_tree(m, d);
    let ka = t.kids[0]->0;
    let kb = t.kids[1]->0;
    assert(!t.kids_all_none()) by {
        assert(t.kids[0] is Some);
    }
    assert(!holds_id(t.bodies, 0) && !holds_id(t.bodies, 1)) by {
        assert(t.bodies.len() == 0);
    }
    // shared geometry at the root
    let dd = crate::fixed::tdiv((d as int) * (d as int), u);
    assert((d as int) * (d as int) >= 0) by (nonlinear_arith)
        requires
            d > 0,
    ;
    lemma_tdiv_nonneg((d as int) * (d as int), u);
    assert(dd < two63()) by {
        assert((d as int) * (d as int) < 0x4000_0000_0000 * 0x4000_0000_0000) by (nonlinear_arith)
            requires
                0 < d < 0x4000_0000_0000,
        ;
        assert(0x4000_0000_0000 * 0x4000_0000_0000 == 0x1000_0000_0000_0000 * u);
        vstd::arithmetic::div_mod::lemma_multiply_divide_lt(
            (d as int) * (d as int),
            0x1000_0000_0000_0000,
            u,
        );
        assert(crate::fixed::iabs((d as int) * (d as int)) == (d as int) * (d as int));
    }
    lemma_fx_wmul_odd(d as int, d as int);
    assert(fx_wmul(d as int, d as int) == dd);
    assert(fx_wmul((nd as int), (nd as int)) == dd) by {
        assert((nd as int) * (nd as int) == (d as int) * (d as int)) by (nonlinear_arith)
            requires
                nd as int == -(d as int),
        ;
    }
    lemma_fx_zero(0, 0);
    lemma_wrap64_id(0);
    lemma_wrap64_id(dd);
    lemma_wrap64_id(d as int);
    lemma_wrap64_id(nd as int);
    // the separation vectors seen from the two bodies
    let dx0 = seq_wsub(t.com, ms[0].pos);
    let dx1 = seq_wsub(t.com, ms[1].pos);
    assert(dx0[0] == d && dx0[1] == 0i64) by {
        assert(dx0[0] as int == crate::fixed::fx_wsub(0, nd as int));
    }
    assert(dx1[0] == nd && dx1[1] == 0i64) by {
        assert(dx1[0] as int == crate::fixed::fx_wsub(0, d as int));
    }
    let dsq0 = norm_sq(dx0);
    let dsq1 = norm_sq(dx1);
    assert(dsq0 == dd) by {
        let sq = crate::vector::seq_sq(dx0);
        assert(sq[0] as int == dd && sq[1] as int == 0);
        assert(sq.len() == 2);
        assert(sq.last() == sq[1]);
        assert(sq.drop_last() =~= seq![sq[0]]);
        assert(seq![sq[0]].drop_last() =~= Seq::<i64>::empty());
        assert(crate::vector::wsum(Seq::<i64>::empty()) == 0);
        assert(crate::vector::wsum(seq![sq[0]]) == fx_wadd(0, sq[0] as int));
        assert(crate::vector::wsum(sq) == fx_wadd(fx_wadd(0, dd), 0));
    }
    assert(dsq1 == dd) by {
        let sq = crate::vector::seq_sq(dx1);
        assert(sq[0] as int == dd && sq[1] as int == 0);
        assert(sq.len() == 2);
        assert(sq.last() == sq[1]);
        assert(sq.drop_last() =~= seq![sq[0]]);
        assert(seq![sq[0]].drop_last() =~= Seq::<i64>::empty());
        assert(crate::vector::wsum(Seq::<i64>::empty()) == 0);
        assert(crate::vector::wsum(seq![sq[0]]) == fx_wadd(0, sq[0] as int));
        assert(crate::vector::wsum(sq) == fx_wadd(fx_wadd(0, dd), 0));
    }
    let dist = fx_wsqrt(dd);
    let far = dist > 0 && crate::fixed::fx_wdiv(t.bounds.diag_of(), dist) < th;
    let f0 = t.spec_force(0, ms[0], g, s, th);
    let f1 = t.spec_force(1, ms[1], g, s, th);
    let tgm = crate::fixed::tdiv((g as int) * (m as int), u);
    assert((g as int) * (m as int) >= 0) by (nonlinear_arith)
        requires
            g > 0 && m > 0,
    ;
    lemma_tdiv_nonneg((g as int) * (m as int), u);
    lemma_wrap64_id(tgm);
    assert(fx_wmul(g as int, m as int) == tgm);
    if far {
        // the root acts as one point mass of the whole pair
        assert(dd > 0) by {
            if dd == 0 {
                assert(fx_wsqrt(0) == 0);
            }
        }
        let tn2 = crate::fixed::tdiv(tgm * (2 * (m as int)), u);
        lemma_tdiv_nonneg(tgm * (2 * (m as int)), u);
        assert(tgm * (2 * (m as int)) >= 0) by (nonlinear_arith)
            requires
                tgm >= 0 && m > 0,
        ;
        lemma_wrap64_id(tn2);
        assert(fx_wmul(tgm, 2 * (m as int)) == tn2);
        assert(t.total as int == 2 * (m as int));
        let den = dd + (s as int);
        lemma_wrap64_id(den);
        assert(fx_wadd(dd, s as int) == den);
        assert(den > 0);
        let tf2 = crate::fixed::tdiv(tn2 * u, den);
        assert(tn2 * u >= 0) by (nonlinear_arith)
            requires
                tn2 >= 0 && u > 0,
        ;
        lemma_tdiv_nonneg(tn2 * u, den);
        lemma_wrap64_id(tf2);
        assert(crate::fixed::fx_wdiv(tn2, den) == tf2);
        let tfd2 = crate::fixed::tdiv(tf2 * (d as int), u);
        assert(tf2 * (d as int) >= 0) by (nonlinear_arith)
            requires
                tf2 >= 0 && d > 0,
        ;
        lemma_tdiv_nonneg(tf2 * (d as int), u);
        lemma_fx_wmul_odd(tf2, d as int);
        let tffx = crate::fixed::tdiv(tfd2 * u, dist);
        assert(tfd2 * u >= 0) by (nonlinear_arith)
            requires
                tfd2 >= 0 && u > 0,
        ;
        lemma_tdiv_nonneg(tfd2 * u, dist);
        lemma_fx_wdiv_odd(tfd2, dist);
        lemma_fx_zero(tf2, dist);
        assert(f0[0] as int == tffx && f0[1] == 0i64 && f0.len() == 2) by {
            assert(f0 == Seq::new(2, |k: int| crate::fixed::fx_wdiv(
                fx_wmul(tf2, dx0[k] as int),
                dist,
            ) as i64));
        }
        assert(f1[0] as int == -tffx && f1[1] == 0i64 && f1.len() == 2) by {
            assert(f1 == Seq::new(2, |k: int| crate::fixed::fx_wdiv(
                fx_wmul(tf2, dx1[k] as int),
                dist,
            ) as i64));
            assert(fx_wmul(tf2, nd as int) == -tfd2);
            assert(crate::fixed::fx_wdiv(-tfd2, dist) == -tffx);
        }
    } else {
        // the root recurses into its two leaves
        let dd4 = crate::fixed::tdiv((2 * (d as int)) * (2 * (d as int)), u);
        assert((2 * (d as int)) * (2 * (d as int)) >= 0) by (nonlinear_arith)
            requires
                d > 0,
        ;
        lemma_tdiv_nonneg((2 * (d as int)) * (2 * (d as int)), u);
        assert(dd4 < two63()) by {
            assert((2 * (d as int)) * (2 * (d as int)) < 0x8000_0000_0000 * 0x8000_0000_0000)
                by (nonlinear_arith)
                requires
                    0 < d < 0x4000_0000_0000,
            ;
            assert(0x8000_0000_0000 * 0x8000_0000_0000 == 0x4000_0000_0000_0000 * u);
            vstd::arithmetic::div_mod::lemma_multiply_divide_lt(
                (2 * (d as int)) * (2 * (d as int)),
                0x4000_0000_0000_0000,
                u,
            );
            assert(crate::fixed::iabs((2 * (d as int)) * (2 * (d as int))) == (2 * (d as int)) * (2
                * (d as int)));
        }
        lemma_wrap64_id(2 * (d as int));
        lemma_wrap64_id(-(2 * (d as int)));
        lemma_wrap64_id(dd4);
        lemma_fx_wmul_odd(2 * (d as int), 2 * (d as int));
        // the force the right leaf exerts on the left body
        assert(holds_id(ka.bodies, 0)) by {
            assert(ka.bodies[0].id == 0);
        }
        assert(!holds_id(kb.bodies, 0)) by {
            assert(forall|j: int| 0 <= j < kb.bodies.len() ==> (#[trigger] kb.bodies[j]).id == 1);
        }
        assert(holds_id(kb.bodies, 1)) by {
            assert(kb.bodies[0].id == 1);
        }
        assert(!holds_id(ka.bodies, 1)) by {
            assert(forall|j: int| 0 <= j < ka.bodies.len() ==> (#[trigger] ka.bodies[j]).id == 0);
        }
        let ga = ka.spec_force(1, ms[1], g, s, th);
        let gb = kb.spec_force(0, ms[0], g, s, th);
        let dxb = seq_wsub(kb.com, ms[0].pos);
        let dxa = seq_wsub(ka.com, ms[1].pos);
        assert(dxb[0] as int == 2 * (d as int) && dxb[1] == 0i64) by {
            assert(dxb[0] as int == crate::fixed::fx_wsub(d as int, nd as int));
        }
        assert(dxa[0] as int == -(2 * (d as int)) && dxa[1] == 0i64) by {
            assert(dxa[0] as int == crate::fixed::fx_wsub(nd as int, d as int));
        }
        assert(fx_wmul(dxb[0] as int, dxb[0] as int) == dd4);
        assert(fx_wmul(dxa[0] as int, dxa[0] as int) == dd4) by {
            assert((-(2 * (d as int))) * (-(2 * (d as int))) == (2 * (d as int)) * (2 * (d as int)))
                by (nonlinear_arith);
        }
        assert(norm_sq(dxb) == dd4) by {
            let sq = crate::vector::seq_sq(dxb);
            assert(sq[0] as int == dd4 && sq[1] as int == 0);
            assert(sq.len() == 2);
            assert(sq.last() == sq[1]);
            assert(sq.drop_last() =~= seq![sq[0]]);
            assert(seq![sq[0]].drop_last() =~= Seq::<i64>::empty());
            assert(crate::vector::wsum(Seq::<i64>::empty()) == 0);
            assert(crate::vector::wsum(seq![sq[0]]) == fx_wadd(0, sq[0] as int));
            assert(crate::vector::wsum(sq) == fx_wadd(fx_wadd(0, dd4), 0));
        }
        assert(norm_sq(dxa) == dd4) by {
            let sq = crate::vector::seq_sq(dxa);
            assert(sq[0] as int == dd4 && sq[1] as int == 0);
            assert(sq.len() == 2);
            assert(sq.last() == sq[1]);
            assert(sq.drop_last() =~= seq![sq[0]]);
            assert(seq![sq[0]].drop_last() =~= Seq::<i64>::empty());
            assert(crate::vector::wsum(Seq::<i64>::empty()) == 0);
            assert(crate::vector::wsum(seq![sq[0]]) == fx_wadd(0, sq[0] as int));
            assert(crate::vector::wsum(sq) == fx_wadd(fx_wadd(0, dd4), 0));
        }
        if dd4 == 0 {
            assert(ga == seq_zero(2) && gb == seq_zero(2));
        } else {
            let tn1 = crate::fixed::tdiv(tgm * (m as int), u);
            assert(tgm * (m as int) >= 0) by (nonlinear_arith)
                requires
                    tgm >= 0 && m > 0,
            ;
            lemma_tdiv_nonneg(tgm * (m as int), u);
            lemma_wrap64_id(tn1);
            assert(fx_wmul(tgm, m as int) == tn1);
            let den = dd4 + (s as int);
            lemma_wrap64_id(den);
            assert(fx_wadd(dd4, s as int) == den);
            assert(den > 0);
            let tf1 = crate::fixed::tdiv(tn1 * u, den);
            assert(tn1 * u >= 0) by (nonlinear_arith)
                requires
                    tn1 >= 0 && u > 0,
            ;
            lemma_tdiv_nonneg(tn1 * u, den);
            lemma_wrap64_id(tf1);
            assert(crate::fixed::fx_wdiv(tn1, den) == tf1);
            let distn = fx_wsqrt(dd4);
            lemma_wsqrt_pos(dd4);
            let tfd1 = crate::fixed::tdiv(tf1 * (2 * (d as int)), u);
            assert(tf1 * (2 * (d as int)) >= 0) by (nonlinear_arith)
                requires
                    tf1 >= 0 && d > 0,
            ;
            lemma_tdiv_nonneg(tf1 * (2 * (d as int)), u);
            lemma_fx_wmul_odd(tf1, 2 * (d as int));
            let tffx = crate::fixed::tdiv(tfd1 * u, distn);
            assert(tfd1 * u >= 0) by (nonlinear_arith)
                requires
                    tfd1 >= 0 && u > 0,
            ;
            lemma_tdiv_nonneg(tfd1 * u, distn);
            lemma_fx_wdiv_odd(tfd1, distn);
            lemma_fx_zero(tf1, distn);
            assert(ka.total as int == m as int && kb.total as int == m as int);
            assert(gb[0] as int == tffx && gb[1] == 0i64 && gb.len() == 2) by {
                assert(gb == Seq::new(2, |k: int| crate::fixed::fx_wdiv(
                    fx_wmul(tf1, dxb[k] as int),
                    distn,
                ) as i64));
            }
            assert(ga[0] as int == -tffx && ga[1] == 0i64 && ga.len() == 2) by {
                assert(ga == Seq::new(2, |k: int| crate::fixed::fx_wdiv(
                    fx_wmul(tf1, dxa[k] as int),
                    distn,
                ) as i64));
                assert(fx_wmul(tf1, -(2 * (d as int))) == -tfd1);
                assert(crate::fixed::fx_wdiv(-tfd1, distn) == -tffx);
            }
        }
        // sum the child contributions in slot order
        assert(ka.spec_force(0, ms[0], g, s, th) == seq_zero(2));
        assert(kb.spec_force(1, ms[1], g, s, th) == seq_zero(2));
        assert(ga.len() == 2 && gb.len() == 2);
        lemma_wadd_zero(gb, 2);
        lemma_wadd_zero(ga, 2);
        let fk0 = crate::tree::force_kids(t.kids, 4, 0, ms[0], g, s, th, 2);
        let fk1 = crate::tree::force_kids(t.kids, 4, 1, ms[1], g, s, th, 2);
        assert(crate::tree::force_kids(t.kids, 0, 0, ms[0], g, s, th, 2) == seq_zero(2));
        assert(crate::tree::force_kids(t.kids, 1, 0, ms[0], g, s, th, 2) =~= seq_zero(2)) by {
            lemma_wadd_zero(seq_zero(2), 2);
        }
        assert(crate::tree::force_kids(t.kids, 2, 0, ms[0], g, s, th, 2) =~= gb);
        assert(crate::tree::force_kids(t.kids, 3, 0, ms[0], g, s, th, 2) =~= gb);
        assert(fk0 =~= gb);
        assert(crate::tree::force_kids(t.kids, 0, 1, ms[1], g, s, th, 2) == seq_zero(2));
        assert(crate::tree::force_kids(t.kids, 1, 1, ms[1], g, s, th, 2) =~= ga) by {
            lemma_wadd_zero(ga, 2);
        }
        assert(crate::tree::force_kids(t.kids, 2, 1, ms[1], g, s, th, 2) =~= ga);
        assert(crate::tree::force_kids(t.kids, 3, 1, ms[1], g, s, th, 2) =~= ga);
        assert(fk1 =~= ga);
        assert(f0 == fk0 && f1 == fk1);
        if dd4 == 0 {
            assert(f0[0] == 0i64 && f1[0] == 0i64 && f0[1] == 0i64 && f1[1] == 0i64);
        }
    }
}


/// `fx_wmul` is odd in its left argument while the product stays exact.
proof fn lemma_fx_wmul_odd_left(a: int, b: int)
    requires
        crate::fixed::iabs(crate::fixed::tdiv(a * b, crate::fixed::fx_unit())) < two63(),
    ensures
        fx_wmul(-a, b) == -fx_wmul(a, b),
        fx_wmul(a, b) == crate::fixed::tdiv(a * b, crate::fixed::fx_unit()),
{
    let u = crate::fixed::fx_unit();
    let t = crate::fixed::tdiv(a * b, u);
    assert((-a) * b == -(a * b)) by (nonlinear_arith);
    assert(crate::fixed::tdiv(-(a * b), u) == -t) by {
        assert(crate::fixed::iabs(-(a * b)) == crate::fixed::iabs(a * b));
    }
    lemma_wrap64_id(t);
    lemma_wrap64_id(-t);
}

/// The magnitudes under which one step of the mirrored pair is exact and
/// actually moves the bodies: the quantized displacement is positive and
/// no larger than the half-separation.
pub open spec fn mirror_step_tame(m: i64, d: i64, g: i64, s: i64, th: i64, dt: i64) -> bool {
    let u = crate::fixed::fx_unit();
    let ms = mirror_pair(m, d);
    let fx0 = spec_build(ms, 2).spec_force(0, ms[0], g, s, th)[0] as int;
    let ta = crate::fixed::tdiv(fx0 * u, m as int);
    let tv = crate::fixed::tdiv(ta * (dt as int), u);
    let td = crate::fixed::tdiv(tv * (dt as int), u);
    &&& mirror_force_tame(m, d, g, s)
    &&& 0 < dt
    &&& ta < two63()
    &&& tv < two63()
    &&& td < two63()
    &&& 0 < td
    &&& td <= d
}

/// One step of the mirrored pair at rest moves both bodies strictly toward
/// each other along their axis, by one exact quantized displacement each,
/// leaving the cross axis untouched.
#[verifier::rlimit(100)]
pub proof fn law_mirror_pair_approach(m: i64, d: i64, g: i64, s: i64, th: i64, dt: i64)
    requires
        mirror_step_tame(m, d, g, s, th, dt),
    ensures
        ({
            let ms = mirror_pair(m, d);
            let b0 = crate::simulation::spec_step_body(ms, 2, 0, dt, g, s, th);
            let b1 = crate::simulation::spec_step_body(ms, 2, 1, dt, g, s, th);
            &&& (b0.pos[0] as int) > (ms[0].pos[0] as int)
            &&& (b1.pos[0] as int) < (ms[1].pos[0] as int)
            &&& (b1.pos[0] as int) - (b0.pos[0] as int) >= 0
            &&& (b1.pos[0] as int) - (b0.pos[0] as int) < (ms[1].pos[0] as int) - (ms[0].pos[0] as int)
            &&& b0.pos[1] == 0i64
            &&& b1.pos[1] == 0i64
        }),
{
    let u = crate::fixed::fx_unit();
    let ms = mirror_pair(m, d);
    let t = spec_build(ms, 2);
    let nd = (-(d as int)) as i64;
    law_mirror_pair_forces(m, d, g, s, th);
    let f0 = t.spec_force(0, ms[0], g, s, th);
    let f1 = t.spec_force(1, ms[1], g, s, th);
    let fx0 = f0[0] as int;
    let ta = crate::fixed::tdiv(fx0 * u, m as int);
    let tv = crate::fixed::tdiv(ta * (dt as int), u);
    let td = crate::fixed::tdiv(tv * (dt as int), u);
    assert(fx0 >= 0);
    assert(fx0 * u >= 0) by (nonlinear_arith)
        requires
            fx0 >= 0 && u > 0,
    ;
    lemma_tdiv_nonneg(fx0 * u, m as int);
    assert(ta * (dt as int) >= 0) by (nonlinear_arith)
        requires
            ta >= 0 && dt > 0,
    ;
    lemma_tdiv_nonneg(ta * (dt as int), u);
    assert(tv * (dt as int) >= 0) by (nonlinear_arith)
        requires
            tv >= 0 && dt > 0,
    ;
    lemma_tdiv_nonneg(tv * (dt as int), u);
    lemma_fx_wdiv_odd(fx0, m as int);
    lemma_fx_wmul_odd_left(ta, dt as int);
    lemma_fx_wmul_odd_left(tv, dt as int);
    lemma_fx_zero(m as int, m as int);
    lemma_fx_zero(dt as int, dt as int);
    lemma_wrap64_id(ta);
    lemma_wrap64_id(tv);
    lemma_wrap64_id(td);
    lemma_wrap64_id(0);
    lemma_wrap64_id(-ta);
    lemma_wrap64_id(-tv);
    lemma_wrap64_id(-td);
    // the acceleration phase
    let a0 = crate::simulation::spec_accel(t, 0, ms[0], g, s, th);
    let a1 = crate::simulation::spec_accel(t, 1, ms[1], g, s, th);
    assert(a0.acc[0] as int == ta && a0.acc[1] as int == 0 && a0.acc.len() == 2) by {
        assert(a0.acc == Seq::new(2, |k: int| crate::fixed::fx_wdiv(f0[k] as int, m as int) as i64));
        assert(crate::fixed::fx_wdiv(f0[0] as int, m as int) == ta);
        assert(crate::fixed::fx_wdiv(0, m as int) == 0);
    }
    assert(a1.acc[0] as int == -ta && a1.acc[1] as int == 0 && a1.acc.len() == 2) by {
        assert(a1.acc == Seq::new(2, |k: int| crate::fixed::fx_wdiv(f1[k] as int, m as int) as i64));
        assert(f1[0] as int == -fx0);
        assert(crate::fixed::fx_wdiv(-fx0, m as int) == -ta);
        assert(crate::fixed::fx_wdiv(0, m as int) == 0);
    }
    assert(a0.pos == ms[0].pos && a0.vel == ms[0].vel && a0.mass == m);
    assert(a1.pos == ms[1].pos && a1.vel == ms[1].vel && a1.mass == m);
    // the velocity phase
    let v0 = crate::simulation::spec_vel_step(a0, dt);
    let v1 = crate::simulation::spec_vel_step(a1, dt);
    assert(ms[0].vel[0] == 0i64 && ms[0].vel[1] == 0i64 && ms[0].vel.len() == 2);
    assert(ms[1].vel[0] == 0i64 && ms[1].vel[1] == 0i64 && ms[1].vel.len() == 2);
    assert(v0.vel[0] as int == tv && v0.vel[1] as int == 0 && v0.vel.len() == 2) by {
        assert(v0.vel == crate::vector::seq_wadd(a0.vel, crate::vector::seq_scale(a0.acc, dt)));
        assert(crate::vector::seq_scale(a0.acc, dt)[0] as int == fx_wmul(ta, dt as int));
        assert(fx_wmul(ta, dt as int) == tv);
        assert(crate::vector::seq_scale(a0.acc, dt)[1] as int == fx_wmul(0, dt as int));
        assert(fx_wmul(0, dt as int) == 0) by {
            lemma_fx_zero(dt as int, 1);
            assert(0 * (dt as int) == 0);
            lemma_tdiv_zero(u);
        }
        assert(v0.vel[0] as int == crate::fixed::fx_wadd(0, tv));
        assert(v0.vel[1] as int == crate::fixed::fx_wadd(0, 0));
    }
    assert(v1.vel[0] as int == -tv && v1.vel[1] as int == 0 && v1.vel.len() == 2) by {
        assert(v1.vel == crate::vector::seq_wadd(a1.vel, crate::vector::seq_scale(a1.acc, dt)));
        assert(crate::vector::seq_scale(a1.acc, dt)[0] as int == fx_wmul(-ta, dt as int));
        assert(fx_wmul(-ta, dt as int) == -tv);
        assert(crate::vector::seq_scale(a1.acc, dt)[1] as int == fx_wmul(0, dt as int));
        assert(fx_wmul(0, dt as int) == 0) by {
            lemma_fx_zero(dt as int, 1);
            assert(0 * (dt as int) == 0);
            lemma_tdiv_zero(u);
        }
        assert(v1.vel[0] as int == crate::fixed::fx_wadd(0, -tv));
        assert(v1.vel[1] as int == crate::fixed::fx_wadd(0, 0));
    }
    assert(v0.pos == ms[0].pos && v1.pos == ms[1].pos);
    // the position phase
    let b0 = crate::simulation::spec_pos_step(v0, dt);
    let b1 = crate::simulation::spec_pos_step(v1, dt);
    assert(b0 == crate::simulation::spec_step_body(ms, 2, 0, dt, g, s, th));
    assert(b1 == crate::simulation::spec_step_body(ms, 2, 1, dt, g, s, th));
    assert(ms[0].pos[0] == nd && ms[0].pos[1] == 0i64 && ms[0].pos.len() == 2);
    assert(ms[1].pos[0] == d && ms[1].pos[1] == 0i64 && ms[1].pos.len() == 2);
    lemma_wrap64_id(-(d as int) + td);
    lemma_wrap64_id((d as int) - td);
    assert(b0.pos[0] as int == -(d as int) + td && b0.pos[1] == 0i64) by {
        assert(b0.pos == crate::vector::seq_wadd(v0.pos, crate::vector::seq_scale(v0.vel, dt)));
        assert(crate::vector::seq_scale(v0.vel, dt)[0] as int == fx_wmul(tv, dt as int));
        assert(fx_wmul(tv, dt as int) == td);
        assert(crate::vector::seq_scale(v0.vel, dt)[1] as int == fx_wmul(0, dt as int));
        assert(fx_wmul(0, dt as int) == 0) by {
            lemma_fx_zero(dt as int, 1);
            assert(0 * (dt as int) == 0);
            lemma_tdiv_zero(u);
        }
        assert(b0.pos[0] as int == crate::fixed::fx_wadd(nd as int, td));
        assert(b0.pos[1] as int == crate::fixed::fx_wadd(0, 0));
    }
    assert(b1.pos[0] as int == (d as int) - td && b1.pos[1] == 0i64) by {
        assert(b1.pos == crate::vector::seq_wadd(v1.pos, crate::vector::seq_scale(v1.vel, dt)));
        assert(crate::vector::seq_scale(v1.vel, dt)[0] as int == fx_wmul(-tv, dt as int));
        assert(fx_wmul(-tv, dt as int) == -td);
        assert(crate::vector::seq_scale(v1.vel, dt)[1] as int == fx_wmul(0, dt as int));
        assert(fx_wmul(0, dt as int) == 0) by {
            lemma_fx_zero(dt as int, 1);
            assert(0 * (dt as int) == 0);
            lemma_tdiv_zero(u);
        }
        assert(b1.pos[0] as int == crate::fixed::fx_wadd(d as int, -td));
        assert(b1.pos[1] as int == crate::fixed::fx_wadd(0, 0));
    }
}


/// The mirrored pair's build is in plain shape, so the exact-summation law
/// applies to it: a concrete witness that ordinary builds of bodies at
/// distinct positions satisfy that law's hypothesis.
pub proof fn lemma_mirror_tree_plain(m: i64, d: i64)
    requires
        mirror_scale_ok(m, d),
    ensures
        plain(spec_build(mirror_pair(m, d), 2)),
{
    let t = spec_build(mirror_pair(m, d), 2);
    lemma_mirror_tree(m, d);
    let ka = t.kids[0]->0;
    let kb = t.kids[1]->0;
    assert(plain(ka));
    assert(plain(kb));
    assert(!t.kids_all_none()) by {
        assert(t.kids[0] is Some);
    }
    assert forall|q: int| 0 <= q < t.kids.len() && t.kids[q] is Some implies plain(
        (#[trigger] t.kids[q])->0,
    ) by {
        if q == 0 {
            assert(t.kids[q]->0 == ka);
        } else if q == 1 {
            assert(t.kids[q]->0 == kb);
        } else {
            assert(t.kids[q] is None);
        }
    }
}

} // verus!
