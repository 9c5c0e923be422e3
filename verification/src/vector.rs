//! Coordinate vectors: `Vec<i64>` of fixed-point scalars, one per axis.
//!
//! The solver is dimension-agnostic; a vector's length is the dimension of
//! the space it lives in (two or three axes in practice).  All operations
//! are componentwise wrapping fixed-point arithmetic.

use vstd::prelude::*;
use crate::fixed::{fx_add, fx_mul, fx_sub, fx_wadd, fx_wmul, fx_wsub, lemma_wrap64_bounds};

verus! {

broadcast use lemma_wrap64_bounds;

/// The all-zero vector of a given dimension.
pub open spec fn seq_zero(dim: nat) -> Seq<i64> {
    Seq::new(dim, |k: int| 0i64)
}

/// Componentwise wrapping addition.
pub open spec fn seq_wadd(a: Seq<i64>, b: Seq<i64>) -> Seq<i64> {
    Seq::new(a.len(), |k: int| fx_wadd(a[k] as int, b[k] as int) as i64)
}

/// Componentwise wrapping subtraction.
pub open spec fn seq_wsub(a: Seq<i64>, b: Seq<i64>) -> Seq<i64> {
    Seq::new(a.len(), |k: int| fx_wsub(a[k] as int, b[k] as int) as i64)
}

/// Componentwise wrapping multiplication by a scalar.
pub open spec fn seq_scale(a: Seq<i64>, s: i64) -> Seq<i64> {
    Seq::new(a.len(), |k: int| fx_wmul(a[k] as int, s as int) as i64)
}

/// Wrapping left-to-right sum of a sequence of scalars.
pub open spec fn wsum(s: Seq<i64>) -> int
    decreases s.len(),
{
    if s.len() == 0 {
        0
    } else {
        fx_wadd(wsum(s.drop_last()), s.last() as int)
    }
}

/// Componentwise squares of a vector.
pub open spec fn seq_sq(d: Seq<i64>) -> Seq<i64> {
    Seq::new(d.len(), |k: int| fx_wmul(d[k] as int, d[k] as int) as i64)
}

/// The wrapping sum of squares of the components: the squared length.
pub open spec fn norm_sq(d: Seq<i64>) -> int {
    wsum(seq_sq(d))
}

/// The all-zero vector, executably.
pub fn vec_zero(dim: usize) -> (r: Vec<i64>)
    ensures
        r@ == seq_zero(dim as nat),
{
    let mut r: Vec<i64> = Vec::new();
    let mut k: usize = 0;
    while k < dim
        invariant
            k <= dim,
            r@ =~= seq_zero(dim as nat).take(k as int),
        decreases dim - k,
    {
        r.push(0);
        k = k + 1;
    }
    proof {
        assert(r@ =~= seq_zero(dim as nat));
    }
    r
}

/// Componentwise wrapping addition, executably.
pub fn vec_wadd(a: &Vec<i64>, b: &Vec<i64>) -> (r: Vec<i64>)
    requires
        a@.len() == b@.len(),
    ensures
        r@ == seq_wadd(a@, b@),
{
    let mut r: Vec<i64> = Vec::new();
    let mut k: usize = 0;
    while k < a.len()
        invariant
            k <= a@.len(),
            a@.len() == b@.len(),
            r@ =~= seq_wadd(a@, b@).take(k as int),
        decreases a@.len() - k,
    {
        r.push(fx_add(a[k], b[k]));
        k = k + 1;
    }
    proof {
        assert(r@ =~= seq_wadd(a@, b@));
    }
    r
}

/// Componentwise wrapping subtraction, executably.
pub fn vec_wsub(a: &Vec<i64>, b: &Vec<i64>) -> (r: Vec<i64>)
    requires
        a@.len() == b@.len(),
    ensures
        r@ == seq_wsub(a@, b@),
{
    let mut r: Vec<i64> = Vec::new();
    let mut k: usize = 0;
    while k < a.len()
        invariant
            k <= a@.len(),
            a@.len() == b@.len(),
            r@ =~= seq_wsub(a@, b@).take(k as int),
        decreases a@.len() - k,
    {
        r.push(fx_sub(a[k], b[k]));
        k = k + 1;
    }
    proof {
        assert(r@ =~= seq_wsub(a@, b@));
    }
    r
}

/// Componentwise wrapping multiplication by a scalar, executably.
pub fn vec_scale(a: &Vec<i64>, s: i64) -> (r: Vec<i64>)
    ensures
        r@ == seq_scale(a@, s),
{
    let mut r: Vec<i64> = Vec::new();
    let mut k: usize = 0;
    while k < a.len()
        invariant
            k <= a@.len(),
            r@ =~= seq_scale(a@, s).take(k as int),
        decreases a@.len() - k,
    {
        r.push(fx_mul(a[k], s));
        k = k + 1;
    }
    proof {
        assert(r@ =~= seq_scale(a@, s));
    }
    r
}

/// The wrapping sum of squares of the components, executably.
pub fn vec_norm_sq(d: &Vec<i64>) -> (r: i64)
    ensures
        r as int == norm_sq(d@),
{
    let mut acc: i64 = 0;
    let mut k: usize = 0;
    while k < d.len()
        invariant
            k <= d@.len(),
            acc as int == wsum(seq_sq(d@).take(k as int)),
        decreases d@.len() - k,
    {
        proof {
            assert(seq_sq(d@).take(k as int + 1).drop_last() =~= seq_sq(d@).take(k as int));
        }
        acc = fx_add(acc, fx_mul(d[k], d[k]));
        k = k + 1;
    }
    proof {
        assert(seq_sq(d@).take(d@.len() as int) =~= seq_sq(d@));
    }
    acc
}

/// Exact equality test of two vectors.
pub fn vec_eq(a: &Vec<i64>, b: &Vec<i64>) -> (r: bool)
    ensures
        r <==> a@ =~= b@,
{
    if a.len() != b.len() {
        return false;
    }
    let mut k: usize = 0;
    while k < a.len()
        invariant
            k <= a@.len(),
            a@.len() == b@.len(),
            forall|j: int| 0 <= j < k ==> a@[j] == b@[j],
        decreases a@.len() - k,
    {
        if a[k] != b[k] {
            return false;
        }
        k = k + 1;
    }
    true
}

/// An exact copy of a vector.
pub fn vec_dup(a: &Vec<i64>) -> (r: Vec<i64>)
    ensures
        r@ == a@,
{
    let mut r: Vec<i64> = Vec::new();
    let mut k: usize = 0;
    while k < a.len()
        invariant
            k <= a@.len(),
            r@ =~= a@.take(k as int),
        decreases a@.len() - k,
    {
        r.push(a[k]);
        k = k + 1;
    }
    proof {
        assert(r@ =~= a@);
    }
    r
}

} // verus!
