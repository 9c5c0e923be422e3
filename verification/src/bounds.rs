//! Axis-aligned bounding regions and their 2^D subdivision.
//!
//! A region is a pair of corner vectors `min`, `max`.  Subdivision bisects
//! every axis at the fixed-point midpoint and yields `2^D` children indexed
//! by a bit pattern: bit `k` of the child index is set exactly when the
//! child takes the upper half of axis `k`.  Routing a position resolves a
//! tie (`coordinate == midpoint`) toward the lower half, so a position that
//! ties on every axis goes to child 0.

use vstd::prelude::*;
use vstd::arithmetic::div_mod::{
    lemma_div_denominator, lemma_div_is_ordered, lemma_div_multiples_vanish,
    lemma_fundamental_div_mod, lemma_fundamental_div_mod_converse,
    lemma_fundamental_div_mod_converse_mod,
};
use crate::fixed::{
    fx_add, fx_mul, fx_sqrt, fx_wadd, fx_wmul, fx_wsqrt, iabs, lemma_wrap64_bounds,
    lemma_wrap64_id, tdiv, two63,
};
use crate::vector::{norm_sq, seq_wsub, vec_dup, vec_norm_sq, vec_wsub};

verus! {

broadcast use lemma_wrap64_bounds;

/// The fixed-point representation of one half: `2^31`.
pub const FX_HALF: i64 = 0x8000_0000;

/// `2^k`, for small exponents.
pub open spec fn pow2i(k: int) -> int
    decreases k,
{
    if k <= 0 {
        1
    } else {
        2 * pow2i(k - 1)
    }
}

/// Bit `k` of a child index.
pub open spec fn qbit(q: int, k: int) -> bool {
    (q / pow2i(k)) % 2 == 1
}

/// The fixed-point midpoint of two scalars: `(a + b) * 0.5`, truncated.
pub open spec fn mid_of(a: i64, b: i64) -> i64 {
    fx_wmul(fx_wadd(a as int, b as int), FX_HALF as int) as i64
}

/// The mathematical value of a [`Bounds`]: its two corner vectors.
#[verifier::ext_equal]
pub struct BoundsModel {
    pub min: Seq<i64>,
    pub max: Seq<i64>,
}

impl BoundsModel {
    /// The dimension of the region.
    pub open spec fn dim(self) -> nat {
        self.min.len()
    }

    /// Corner vectors agree in length; dimensions above 16 are not used.
    pub open spec fn wf(self) -> bool {
        &&& self.max.len() == self.min.len()
        &&& 1 <= self.min.len() <= 16
    }

    /// Every axis is ordered: `min[k] <= max[k]`.
    pub open spec fn ordered(self) -> bool {
        forall|k: int| 0 <= k < self.dim() ==> self.min[k] <= self.max[k]
    }

    /// The midpoint of the region, axis by axis.
    pub open spec fn center_of(self) -> Seq<i64> {
        Seq::new(self.dim(), |k: int| mid_of(self.min[k], self.max[k]))
    }

    /// The fixed-point length of the region's diagonal.
    pub open spec fn diag_of(self) -> int {
        fx_wsqrt(norm_sq(seq_wsub(self.max, self.min)))
    }

    /// Whether a point lies inside the region (boundary included).
    pub open spec fn contains_of(self, p: Seq<i64>) -> bool {
        forall|k: int| 0 <= k < self.dim() ==> self.min[k] <= p[k] && p[k] <= self.max[k]
    }

    /// Sub-region `q` of the 2^D subdivision: on each axis the child keeps
    /// the lower or the upper half according to bit `k` of `q`.
    pub open spec fn child_of(self, q: int) -> BoundsModel {
        BoundsModel {
            min: Seq::new(
                self.dim(),
                |k: int| if qbit(q, k) { mid_of(self.min[k], self.max[k]) } else { self.min[k] },
            ),
            max: Seq::new(
                self.dim(),
                |k: int| if qbit(q, k) { self.max[k] } else { mid_of(self.min[k], self.max[k]) },
            ),
        }
    }
}

/// Which sub-region index a position selects, considering the first `k` axes:
/// axis `j` contributes `2^j` exactly when the coordinate lies strictly above
/// the center on that axis.
pub open spec fn quadrant_of(p: Seq<i64>, c: Seq<i64>, k: int) -> int
    decreases k,
{
    if k <= 0 {
        0
    } else {
        quadrant_of(p, c, k - 1) + if p[k - 1] > c[k - 1] { pow2i(k - 1) } else { 0 }
    }
}

/// An axis-aligned region of D-dimensional space.
#[derive(Clone, Debug)]
pub struct Bounds {
    pub min: Vec<i64>,
    pub max: Vec<i64>,
}

impl View for Bounds {
    type V = BoundsModel;

    open spec fn view(&self) -> BoundsModel {
        BoundsModel { min: self.min@, max: self.max@ }
    }
}

/// `pow2i` grows monotonically.
pub proof fn lemma_pow2i_mono(a: int, b: int)
    requires
        a <= b,
    ensures
        pow2i(a) <= pow2i(b),
    decreases b - a,
{
    if a < b && b > 0 {
        lemma_pow2i_mono(a, b - 1);
        assert(pow2i(b) == 2 * pow2i(b - 1));
        assert(pow2i(b - 1) >= 1) by {
            lemma_pow2i_pos(b - 1);
        }
    }
}

/// `pow2i` is positive.
pub proof fn lemma_pow2i_pos(k: int)
    ensures
        pow2i(k) >= 1,
    decreases k,
{
    if k > 0 {
        lemma_pow2i_pos(k - 1);
    }
}

/// The numeric value of `pow2i(16)`.
pub proof fn lemma_pow2i_16()
    ensures
        pow2i(16) == 65536,
{
    reveal_with_fuel(pow2i, 17);
}


/// The truncated midpoint of an ordered, non-overflowing pair lies between
/// the two ends and is their truncated half-sum.
pub proof fn lemma_mid_between(a: i64, b: i64)
    requires
        a <= b,
        -two63() <= a + b < two63(),
    ensures
        mid_of(a, b) as int == tdiv(a + b, 2),
        a <= mid_of(a, b) <= b,
{
    let s = a + b;
    lemma_wrap64_id(s);
    assert(fx_wadd(a as int, b as int) == s);
    // (s * 2^31) / 2^32 truncates to s / 2
    assert(tdiv(s * 0x8000_0000, 0x1_0000_0000) == tdiv(s, 2)) by {
        if s >= 0 {
            lemma_div_denominator(s * 0x8000_0000, 0x8000_0000, 2);
            lemma_div_multiples_vanish(s, 0x8000_0000);
        } else {
            lemma_div_denominator((-s) * 0x8000_0000, 0x8000_0000, 2);
            lemma_div_multiples_vanish(-s, 0x8000_0000);
            assert(iabs(s * 0x8000_0000) == (-s) * 0x8000_0000) by (nonlinear_arith)
                requires
                    s < 0,
            ;
        }
    }
    assert(-two63() <= tdiv(s, 2) < two63()) by {
        if s >= 0 {
            lemma_div_is_ordered(s, two63() - 1, 2);
            assert(tdiv(s, 2) == s / 2);
        } else {
            lemma_div_is_ordered(-s, two63(), 2);
        }
    }
    lemma_wrap64_id(tdiv(s, 2));
    assert(a <= tdiv(s, 2)) by {
        if s >= 0 {
            assert(a <= s / 2) by {
                if a >= 0 {
                    lemma_div_is_ordered(2 * a, s, 2);
                    lemma_div_multiples_vanish(a as int, 2);
                } else {
                    lemma_fundamental_div_mod(s, 2);
                }
            }
        } else {
            assert((-s) / 2 <= -a) by {
                lemma_div_is_ordered(-s, -2 * a, 2);
                lemma_div_multiples_vanish(-a as int, 2);
            }
        }
    }
    assert(tdiv(s, 2) <= b) by {
        if s >= 0 {
            assert(s / 2 <= b) by {
                lemma_div_is_ordered(s, 2 * b, 2);
                lemma_div_multiples_vanish(b as int, 2);
            }
        } else {
            assert(-b <= (-s) / 2) by {
                if b <= 0 {
                    lemma_div_is_ordered(-2 * b, -s, 2);
                    lemma_div_multiples_vanish(-b as int, 2);
                } else {
                    lemma_fundamental_div_mod(-s, 2);
                }
            }
        }
    }
}

/// Child index zero takes the lower half on every axis.
pub proof fn lemma_qbit_zero(k: int)
    ensures
        !qbit(0, k),
{
    lemma_pow2i_pos(k);
    assert(0int / pow2i(k) == 0) by {
        lemma_fundamental_div_mod_converse(0, pow2i(k), 0, 0);
    }
}

/// The all-ones child index takes the upper half on every axis.
pub proof fn lemma_qbit_allones(d: int, k: int)
    requires
        0 <= k < d,
    ensures
        qbit(pow2i(d) - 1, k),
    decreases k,
{
    lemma_pow2i_pos(d - k);
    lemma_pow2i_pos(k);
    if k == 0 {
        assert((pow2i(d) - 1) / pow2i(0) == pow2i(d) - 1) by {
            lemma_fundamental_div_mod_converse(pow2i(d) - 1, 1, pow2i(d) - 1, 0);
        }
        assert((pow2i(d) - 1) % 2 == 1) by {
            lemma_pow2i_pos(d - 1);
            lemma_fundamental_div_mod_converse_mod(pow2i(d) - 1, 2, pow2i(d - 1) - 1, 1);
        }
    } else {
        lemma_qbit_allones(d - 1, k - 1);
        // (2^d - 1) / 2^k == (2^(d-1) - 1) / 2^(k-1)
        assert((pow2i(d) - 1) / 2 == pow2i(d - 1) - 1) by {
            lemma_pow2i_pos(d - 1);
            lemma_fundamental_div_mod_converse(pow2i(d) - 1, 2, pow2i(d - 1) - 1, 1);
        }
        assert((pow2i(d) - 1) / pow2i(k) == ((pow2i(d) - 1) / 2) / pow2i(k - 1)) by {
            lemma_pow2i_pos(k - 1);
            lemma_pow2i_pos(d);
            assert(2 * pow2i(k - 1) == pow2i(k));
            lemma_div_denominator(pow2i(d) - 1, 2, pow2i(k - 1));
        }
    }
}

/// Two child indices with the same bit pattern on every axis are equal.
pub proof fn lemma_qbit_injective(d: int, q1: int, q2: int)
    requires
        0 <= q1 < pow2i(d),
        0 <= q2 < pow2i(d),
        forall|k: int| 0 <= k < d ==> (#[trigger] qbit(q1, k)) == qbit(q2, k),
    ensures
        q1 == q2,
    decreases d,
{
    if d <= 0 {
    } else {
        assert(qbit(q1, 0) == qbit(q2, 0));
        assert(q1 / pow2i(0) == q1) by {
            lemma_fundamental_div_mod_converse(q1, 1, q1, 0);
        }
        assert(q2 / pow2i(0) == q2) by {
            lemma_fundamental_div_mod_converse(q2, 1, q2, 0);
        }
        assert(q1 % 2 == q2 % 2);
        assert(0 <= q1 / 2 < pow2i(d - 1) && 0 <= q2 / 2 < pow2i(d - 1)) by {
            lemma_fundamental_div_mod(q1, 2);
            lemma_fundamental_div_mod(q2, 2);
        }
        assert forall|k: int| 0 <= k < d - 1 implies (#[trigger] qbit(q1 / 2, k)) == qbit(
            q2 / 2,
            k,
        ) by {
            lemma_pow2i_pos(k);
            assert(2 * pow2i(k) == pow2i(k + 1));
            lemma_div_denominator(q1, 2, pow2i(k));
            lemma_div_denominator(q2, 2, pow2i(k));
            assert(qbit(q1, k + 1) == qbit(q2, k + 1));
        }
        lemma_qbit_injective(d - 1, q1 / 2, q2 / 2);
        lemma_fundamental_div_mod(q1, 2);
        lemma_fundamental_div_mod(q2, 2);
    }
}

/// Two sub-regions overlap at most on a shared midplane face: on some axis
/// one ends where the other begins.
pub open spec fn faces_apart(b: BoundsModel, q1: int, q2: int) -> bool {
    exists|k: int|
        0 <= k < b.dim() && ((#[trigger] b.child_of(q1).max[k]) <= b.child_of(q2).min[k]
            || b.child_of(q2).max[k] <= b.child_of(q1).min[k])
}

/// Subdividing an ordered region whose midpoints do not overflow yields
/// `2^D` ordered sub-regions that sit inside the parent, reconstruct its
/// envelope exactly — child 0 keeps the parent's `min` corner and the last
/// child its `max` corner, every child corner lying between the parent's —
/// and have pairwise disjoint interiors: two distinct children share at
/// most the midplane face on some axis.
pub proof fn law_subdivide_partition(b: BoundsModel)
    requires
        b.wf(),
        b.ordered(),
        forall|k: int| 0 <= k < b.dim() ==> -two63() <= (#[trigger] b.min[k]) + b.max[k]
            < two63(),
    ensures
        forall|q: int, k: int| 0 <= q < pow2i(b.dim() as int) && 0 <= k < b.dim() ==> {
            &&& b.min[k] <= #[trigger] b.child_of(q).min[k]
            &&& b.child_of(q).min[k] <= #[trigger] b.child_of(q).max[k]
            &&& b.child_of(q).max[k] <= b.max[k]
        },
        forall|q: int| 0 <= q < pow2i(b.dim() as int) ==> (#[trigger] b.child_of(q)).wf()
            && b.child_of(q).ordered(),
        forall|k: int| 0 <= k < b.dim() ==> (#[trigger] b.child_of(0).min[k]) == b.min[k],
        forall|k: int| 0 <= k < b.dim() ==> (#[trigger] b.child_of(
            pow2i(b.dim() as int) - 1,
        ).max[k]) == b.max[k],
        forall|q1: int, q2: int|
            0 <= q1 < pow2i(b.dim() as int) && 0 <= q2 < pow2i(b.dim() as int) && q1 != q2
                ==> #[trigger] faces_apart(b, q1, q2),
{
    let dim = b.dim() as int;
    assert forall|q: int, k: int| 0 <= q < pow2i(dim) && 0 <= k < dim implies {
        &&& b.min[k] <= #[trigger] b.child_of(q).min[k]
        &&& b.child_of(q).min[k] <= #[trigger] b.child_of(q).max[k]
        &&& b.child_of(q).max[k] <= b.max[k]
    } by {
        lemma_mid_between(b.min[k], b.max[k]);
    }
    assert forall|q: int| 0 <= q < pow2i(dim) implies (#[trigger] b.child_of(q)).wf()
        && b.child_of(q).ordered() by {
        assert forall|k: int| 0 <= k < dim implies b.child_of(q).min[k] <= (#[trigger] b.child_of(
            q,
        ).max[k]) by {
            lemma_mid_between(b.min[k], b.max[k]);
        }
    }
    assert forall|k: int| 0 <= k < dim implies (#[trigger] b.child_of(0).min[k]) == b.min[k] by {
        lemma_qbit_zero(k);
    }
    assert forall|k: int| 0 <= k < dim implies (#[trigger] b.child_of(pow2i(dim) - 1).max[k])
        == b.max[k] by {
        lemma_qbit_allones(dim, k);
    }
    assert forall|q1: int, q2: int|
        0 <= q1 < pow2i(dim) && 0 <= q2 < pow2i(dim) && q1 != q2 implies #[trigger] faces_apart(
        b,
        q1,
        q2,
    ) by {
        assert(!forall|k: int| 0 <= k < dim ==> (#[trigger] qbit(q1, k)) == qbit(q2, k)) by {
            if forall|k: int| 0 <= k < dim ==> (#[trigger] qbit(q1, k)) == qbit(q2, k) {
                lemma_qbit_injective(dim, q1, q2);
            }
        }
        let k = choose|k: int| !(0 <= k < dim ==> (#[trigger] qbit(q1, k)) == qbit(q2, k));
        assert(0 <= k < dim && qbit(q1, k) != qbit(q2, k));
        lemma_mid_between(b.min[k], b.max[k]);
        if qbit(q1, k) {
            assert(b.child_of(q2).max[k] <= b.child_of(q1).min[k]);
        } else {
            assert(b.child_of(q1).max[k] <= b.child_of(q2).min[k]);
        }
        assert(0 <= k < b.dim() && ((#[trigger] b.child_of(q1).max[k]) <= b.child_of(q2).min[k]
            || b.child_of(q2).max[k] <= b.child_of(q1).min[k]));
        assert(faces_apart(b, q1, q2));
    }
}

impl Bounds {
    /// A region from its two corner vectors.
    pub fn new(min: Vec<i64>, max: Vec<i64>) -> (b: Bounds)
        ensures
            b@ == (BoundsModel { min: min@, max: max@ }),
    {
        Bounds { min, max }
    }

    /// The midpoint of the region, axis by axis.
    pub fn center(&self) -> (c: Vec<i64>)
        requires
            self@.wf(),
        ensures
            c@ == self@.center_of(),
    {
        let dim = self.min.len();
        let mut c: Vec<i64> = Vec::new();
        let mut k: usize = 0;
        while k < dim
            invariant
                k <= dim,
                dim == self@.dim(),
                self@.wf(),
                c@ =~= self@.center_of().take(k as int),
            decreases dim - k,
        {
            c.push(fx_mul(fx_add(self.min[k], self.max[k]), FX_HALF));
            k = k + 1;
        }
        proof {
            assert(c@ =~= self@.center_of());
        }
        c
    }

    /// The fixed-point length of the region's diagonal.
    pub fn diagonal(&self) -> (d: i64)
        requires
            self@.wf(),
        ensures
            d as int == self@.diag_of(),
            d >= 0,
    {
        let ext = vec_wsub(&self.max, &self.min);
        fx_sqrt(vec_norm_sq(&ext))
    }

    /// Whether a point lies inside the region (boundary included).
    pub fn contains(&self, point: &Vec<i64>) -> (r: bool)
        requires
            self@.wf(),
            point@.len() == self@.dim(),
        ensures
            r == self@.contains_of(point@),
    {
        let dim = self.min.len();
        let mut k: usize = 0;
        while k < dim
            invariant
                k <= dim,
                dim == self@.dim(),
                self@.wf(),
                point@.len() == dim,
                forall|j: int| 0 <= j < k ==> self@.min[j] <= point@[j] && point@[j] <= self@.max[j],
            decreases dim - k,
        {
            if point[k] < self.min[k] || point[k] > self.max[k] {
                return false;
            }
            k = k + 1;
        }
        true
    }

    /// An exact copy of the region.
    pub fn duplicate(&self) -> (r: Bounds)
        ensures
            r@ == self@,
    {
        Bounds { min: vec_dup(&self.min), max: vec_dup(&self.max) }
    }

    /// All `2^D` sub-regions, indexed by their bit pattern.
    pub fn subdivide(&self) -> (out: Vec<Bounds>)
        requires
            self@.wf(),
        ensures
            out@.len() == pow2i(self@.dim() as int),
            forall|q: int| 0 <= q < out@.len() ==> #[trigger] out@[q]@ == self@.child_of(q),
    {
        let dim = self.min.len();
        let c = self.center();
        let mut nchild: usize = 1;
        let mut k: usize = 0;
        proof {
            lemma_pow2i_16();
            lemma_pow2i_mono(dim as int, 16);
        }
        while k < dim
            invariant
                k <= dim,
                dim <= 16,
                nchild == pow2i(k as int),
                nchild <= 65536,
            decreases dim - k,
        {
            proof {
                lemma_pow2i_16();
                lemma_pow2i_mono(k as int + 1, 16);
            }
            nchild = nchild * 2;
            k = k + 1;
        }
        let mut out: Vec<Bounds> = Vec::new();
        let mut q: usize = 0;
        while q < nchild
            invariant
                q <= nchild,
                nchild == pow2i(self@.dim() as int),
                dim == self@.dim(),
                self@.wf(),
                c@ == self@.center_of(),
                out@.len() == q,
                forall|j: int| 0 <= j < q ==> #[trigger] out@[j]@ == self@.child_of(j),
            decreases nchild - q,
        {
            let mut cmin: Vec<i64> = Vec::new();
            let mut cmax: Vec<i64> = Vec::new();
            let mut pk: usize = 1;
            let mut k2: usize = 0;
            proof {
                lemma_pow2i_16();
                lemma_pow2i_mono(dim as int, 16);
            }
            while k2 < dim
                invariant
                    k2 <= dim,
                    dim <= 16,
                    dim == self@.dim(),
                    self@.wf(),
                    c@ == self@.center_of(),
                    pk == pow2i(k2 as int),
                    1 <= pk <= 65536,
                    cmin@ =~= self@.child_of(q as int).min.take(k2 as int),
                    cmax@ =~= self@.child_of(q as int).max.take(k2 as int),
                decreases dim - k2,
            {
                let bit = (q / pk) % 2 == 1;
                if bit {
                    cmin.push(c[k2]);
                    cmax.push(self.max[k2]);
                } else {
                    cmin.push(self.min[k2]);
                    cmax.push(c[k2]);
                }
                proof {
                    lemma_pow2i_16();
                    lemma_pow2i_mono(k2 as int + 1, 16);
                }
                pk = pk * 2;
                k2 = k2 + 1;
            }
            let cb = Bounds { min: cmin, max: cmax };
            proof {
                assert(cb@.min =~= self@.child_of(q as int).min);
                assert(cb@.max =~= self@.child_of(q as int).max);
                assert(cb@ == self@.child_of(q as int));
            }
            out.push(cb);
            q = q + 1;
        }
        out
    }

    /// Which sub-region index a position selects, relative to a center.
    pub fn route_index(&self, c: &Vec<i64>, p: &Vec<i64>) -> (q: usize)
        requires
            self@.wf(),
            c@.len() == self@.dim(),
            p@.len() == self@.dim(),
        ensures
            q == quadrant_of(p@, c@, self@.dim() as int),
            q < pow2i(self@.dim() as int),
    {
        let dim = self.min.len();
        let mut q: usize = 0;
        let mut pk: usize = 1;
        let mut k: usize = 0;
        proof {
            lemma_pow2i_16();
            lemma_pow2i_mono(dim as int, 16);
        }
        while k < dim
            invariant
                k <= dim,
                dim <= 16,
                dim == self@.dim(),
                c@.len() == dim,
                p@.len() == dim,
                pk == pow2i(k as int),
                pk <= 65536,
                q == quadrant_of(p@, c@, k as int),
                q < pk,
            decreases dim - k,
        {
            proof {
                lemma_pow2i_16();
                lemma_pow2i_mono(k as int + 1, 16);
            }
            if p[k] > c[k] {
                q = q + pk;
            }
            pk = pk * 2;
            k = k + 1;
        }
        q
    }
}

} // verus!
