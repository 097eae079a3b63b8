//! Polynomials over GF(256): evaluation and interpolation at zero.
use vstd::prelude::*;
use crate::gf256;
use crate::gf256::{gf_add, gf_div, gf_mul, lemma_mul_distributes_left};

verus! {

/// The value at `x` of the polynomial with coefficients `coeffs`, lowest degree first.
pub open spec fn eval_poly(coeffs: Seq<u8>, x: u8) -> u8
    decreases coeffs.len(),
{
    if coeffs.len() == 0 {
        0u8
    } else {
        gf_add(coeffs[0], gf_mul(eval_poly(coeffs.drop_first(), x), x))
    }
}

/// The product over `j < m`, `j != i`, of `xs[j] / (xs[j] + xs[i])`: the Lagrange
/// basis polynomial of point `i`, taken at zero.
pub open spec fn basis_at_zero(xs: Seq<u8>, i: int, m: nat) -> u8
    decreases m,
{
    if m == 0 {
        1u8
    } else {
        let rest = basis_at_zero(xs, i, (m - 1) as nat);
        let j = m - 1;
        if j == i {
            rest
        } else {
            gf_mul(rest, gf_div(xs[j], gf_add(xs[j], xs[i])))
        }
    }
}

/// The sum over `i < m` of `ys[i] * basis_i(0)`.
pub open spec fn lagrange_sum(xs: Seq<u8>, ys: Seq<u8>, m: nat) -> u8
    decreases m,
{
    if m == 0 {
        0u8
    } else {
        let i = m - 1;
        gf_add(lagrange_sum(xs, ys, (m - 1) as nat), gf_mul(ys[i], basis_at_zero(xs, i, xs.len())))
    }
}

/// The value at zero of the polynomial through the points `(xs[i], ys[i])`.
pub open spec fn interpolate_at_zero(xs: Seq<u8>, ys: Seq<u8>) -> u8 {
    lagrange_sum(xs, ys, xs.len())
}

/// Pairwise distinct abscissae.
pub open spec fn distinct(xs: Seq<u8>) -> bool {
    forall|i: int, j: int| 0 <= i < j < xs.len() ==> xs[i] != xs[j]
}

/// Evaluates a polynomial at `x` by Horner's rule.
pub fn evaluate(coeffs: &Vec<u8>, x: u8) -> (r: u8)
    ensures
        r == eval_poly(coeffs@, x),
{
    let mut r: u8 = 0;
    let mut i: usize = coeffs.len();
    assert(coeffs@.subrange(i as int, coeffs@.len() as int) =~= Seq::<u8>::empty());
    while i > 0
        invariant
            i <= coeffs.len(),
            r == eval_poly(coeffs@.subrange(i as int, coeffs@.len() as int), x),
        decreases i,
    {
        let ghost tail = coeffs@.subrange(i as int, coeffs@.len() as int);
        i = i - 1;
        assert(coeffs@.subrange(i as int, coeffs@.len() as int).drop_first() =~= tail);
        r = coeffs[i] ^ gf256::mul(r, x);
    }
    assert(coeffs@.subrange(0, coeffs@.len() as int) =~= coeffs@);
    r
}

/// The Lagrange basis coefficients at zero for the given abscissae.
pub fn basis_coefficients(xs: &Vec<u8>) -> (r: Vec<u8>)
    requires
        distinct(xs@),
    ensures
        r@.len() == xs@.len(),
        forall|i: int| 0 <= i < xs@.len() ==> r@[i] == basis_at_zero(xs@, i, xs@.len()),
{
    let mut r: Vec<u8> = Vec::new();
    let mut i: usize = 0;
    while i < xs.len()
        invariant
            i <= xs.len(),
            distinct(xs@),
            r@.len() == i,
            forall|t: int| 0 <= t < i ==> r@[t] == basis_at_zero(xs@, t, xs@.len()),
        decreases xs.len() - i,
    {
        let mut p: u8 = 1;
        let mut j: usize = 0;
        while j < xs.len()
            invariant
                i < xs.len(),
                j <= xs.len(),
                distinct(xs@),
                p == basis_at_zero(xs@, i as int, j as nat),
            decreases xs.len() - j,
        {
            if j != i {
                let xj = xs[j];
                let xi = xs[i];
                assert(xj != xi);
                let d = xj ^ xi;
                assert(d != 0u8) by (bit_vector)
                    requires
                        d == xj ^ xi,
                        xj != xi,
                ;
                p = gf256::mul(p, gf256::div(xs[j], d));
            }
            j = j + 1;
        }
        r.push(p);
        i = i + 1;
    }
    r
}

/// Combines values with precomputed basis coefficients: `sum ys[i] * basis[i]`.
pub fn combine(xs: &Vec<u8>, basis: &Vec<u8>, ys: &Vec<u8>) -> (r: u8)
    requires
        basis@.len() == xs@.len(),
        ys@.len() == xs@.len(),
        forall|i: int| 0 <= i < xs@.len() ==> basis@[i] == basis_at_zero(xs@, i, xs@.len()),
    ensures
        r == interpolate_at_zero(xs@, ys@),
{
    let mut r: u8 = 0;
    let mut i: usize = 0;
    while i < xs.len()
        invariant
            i <= xs.len(),
            basis@.len() == xs@.len(),
            ys@.len() == xs@.len(),
            forall|t: int| 0 <= t < xs@.len() ==> basis@[t] == basis_at_zero(xs@, t, xs@.len()),
            r == lagrange_sum(xs@, ys@, i as nat),
        decreases xs.len() - i,
    {
        r = r ^ gf256::mul(ys[i], basis[i]);
        i = i + 1;
    }
    r
}

/// Interpolates the polynomial through `(xs[i], ys[i])` and returns its value at zero.
pub fn interpolate(xs: &Vec<u8>, ys: &Vec<u8>) -> (r: u8)
    requires
        distinct(xs@),
        ys@.len() == xs@.len(),
    ensures
        r == interpolate_at_zero(xs@, ys@),
{
    let basis = basis_coefficients(xs);
    combine(xs, &basis, ys)
}

/// The values added position by position.
pub open spec fn add_values(a: Seq<u8>, b: Seq<u8>) -> Seq<u8> {
    Seq::new(a.len(), |i: int| gf_add(a[i], b[i]))
}

proof fn lemma_lagrange_sum_linear(xs: Seq<u8>, a: Seq<u8>, b: Seq<u8>, m: nat)
    requires
        a.len() == xs.len(),
        b.len() == xs.len(),
        m <= xs.len(),
    ensures
        lagrange_sum(xs, add_values(a, b), m) == gf_add(lagrange_sum(xs, a, m), lagrange_sum(xs, b, m)),
    decreases m,
{
    if m > 0 {
        let i = m - 1;
        lemma_lagrange_sum_linear(xs, a, b, (m - 1) as nat);
        let w = basis_at_zero(xs, i, xs.len());
        lemma_mul_distributes_left(a[i], b[i], w);
        let (sa, sb) = (lagrange_sum(xs, a, (m - 1) as nat), lagrange_sum(xs, b, (m - 1) as nat));
        let (ma, mb) = (gf_mul(a[i], w), gf_mul(b[i], w));
        assert((sa ^ sb) ^ (ma ^ mb) == (sa ^ ma) ^ (sb ^ mb)) by (bit_vector);
    } else {
        assert(0u8 ^ 0u8 == 0u8) by (bit_vector);
    }
}

/// Interpolation at zero is linear in the values: interpolating the sum of two
/// value sequences over the same points gives the sum of the two results.
pub proof fn lemma_interpolation_linear(xs: Seq<u8>, a: Seq<u8>, b: Seq<u8>)
    requires
        a.len() == xs.len(),
        b.len() == xs.len(),
    ensures
        interpolate_at_zero(xs, add_values(a, b)) == gf_add(interpolate_at_zero(xs, a), interpolate_at_zero(xs, b)),
{
    lemma_lagrange_sum_linear(xs, a, b, xs.len());
}

} // verus!
