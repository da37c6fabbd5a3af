//! Sparse multivariate polynomials, dense univariate polynomials, and their mathematical models.
use crate::error::SumcheckError;
use crate::field::{modulus, Scalar};
use ark_bls12_381::Fr;
use ark_ff::biginteger::BigInteger256;
use ark_ff::PrimeField;
use ark_poly::polynomial::multivariate::{SparsePolynomial, SparseTerm, Term as ArkTerm};
use ark_poly::polynomial::univariate::DensePolynomial;
use ark_poly::{MVPolynomial, Polynomial, UVPolynomial};
use vstd::arithmetic::power::pow;
use vstd::prelude::*;

verus! {

/// A term's model: its coefficient and its `(variable, exponent)` pairs.
pub type TermModel = (int, Seq<(usize, usize)>);

/// The integers that a sequence of scalars stands for.
pub open spec fn values(s: Seq<Scalar>) -> Seq<int> {
    s.map_values(|x: Scalar| x@)
}

/// The product of `pt[v]^e` over the pairs `(v, e)` of a term.
pub open spec fn monomial(powers: Seq<(usize, usize)>, pt: Seq<int>) -> int
    decreases powers.len(),
{
    if powers.len() == 0 {
        1
    } else {
        monomial(powers.drop_last(), pt) * pow(pt[powers.last().0 as int], powers.last().1 as nat)
    }
}

/// The value of a sum of terms at a point, as an integer (reduce it modulo `modulus()`).
pub open spec fn eval_terms(terms: Seq<TermModel>, pt: Seq<int>) -> int
    decreases terms.len(),
{
    if terms.len() == 0 {
        0
    } else {
        eval_terms(terms.drop_last(), pt) + terms.last().0 * monomial(terms.last().1, pt)
    }
}

/// The value of the coefficient sequence `c` (constant term first) at `x`.
pub open spec fn uni_eval(c: Seq<int>, x: int) -> int
    decreases c.len(),
{
    if c.len() == 0 {
        0
    } else {
        uni_eval(c.drop_last(), x) + c.last() * pow(x, (c.len() - 1) as nat)
    }
}

/// The sum of a term's exponents (its total degree).
pub open spec fn exp_sum(powers: Seq<(usize, usize)>) -> nat
    decreases powers.len(),
{
    if powers.len() == 0 {
        0
    } else {
        exp_sum(powers.drop_last()) + powers.last().1 as nat
    }
}

/// The variables of a term are below `n` and pairwise distinct, each exponent leaves room for
/// a coefficient vector of one more entry, and the total degree fits in a `usize`.
pub open spec fn powers_wf(powers: Seq<(usize, usize)>, n: nat) -> bool {
    &&& forall|j: int| 0 <= j < powers.len() ==> (#[trigger] powers[j]).0 < n
    &&& forall|j: int| 0 <= j < powers.len() ==> (#[trigger] powers[j]).1 < usize::MAX
    &&& exp_sum(powers) <= usize::MAX
    &&& forall|j: int, k: int|
        0 <= j < powers.len() && 0 <= k < powers.len() && j != k ==> (#[trigger] powers[j]).0
            != (#[trigger] powers[k]).0
}

/// One term of a sparse polynomial: `coeff * x_v1^e1 * x_v2^e2 * ...`.
#[derive(Clone, Debug)]
pub struct Term {
    pub coeff: Scalar,
    pub powers: Vec<(usize, usize)>,
}

impl View for Term {
    type V = TermModel;

    open spec fn view(&self) -> TermModel {
        (self.coeff@, self.powers@)
    }
}

/// A sparse polynomial over the scalar field in `num_vars` variables `x_0 .. x_{num_vars-1}`.
/// Exponents are not limited to one.
#[derive(Clone, Debug)]
pub struct MultiPoly {
    pub num_vars: usize,
    pub terms: Vec<Term>,
}

impl View for MultiPoly {
    type V = Seq<TermModel>;

    open spec fn view(&self) -> Seq<TermModel> {
        self.terms@.map_values(|t: Term| t@)
    }
}

impl MultiPoly {
    /// At least one variable, and every term well formed for `num_vars` variables.
    pub open spec fn wf(&self) -> bool {
        &&& self.num_vars > 0
        &&& forall|i: int| 0 <= i < self@.len() ==> powers_wf(#[trigger] self@[i].1, self.num_vars as nat)
    }

    /// The value of the polynomial at `pt`, as an integer.
    pub open spec fn eval(&self, pt: Seq<int>) -> int {
        eval_terms(self@, pt)
    }

    /// Builds the polynomial `sum of terms` in `num_vars` variables, or reports why it is
    /// malformed.
    pub fn new(num_vars: usize, terms: Vec<Term>) -> (r: Result<MultiPoly, SumcheckError>)
        ensures
            r is Ok <==> (MultiPoly { num_vars, terms }).wf(),
            r is Ok ==> r->Ok_0.num_vars == num_vars && r->Ok_0.terms@ == terms@,
            r is Err ==> r->Err_0 == SumcheckError::ConstructionError,
    {
        if num_vars == 0 {
            return Err(SumcheckError::ConstructionError);
        }
        let mut i: usize = 0;
        while i < terms.len()
            invariant
                0 <= i <= terms@.len(),
                forall|k: int| 0 <= k < i ==> powers_wf(#[trigger] terms@[k].powers@, num_vars as nat),
            decreases terms@.len() - i,
        {
            if !powers_valid(&terms[i].powers, num_vars) {
                proof {
                    let m = MultiPoly { num_vars, terms };
                    assert(m@[i as int].1 == terms@[i as int].powers@);
                    assert(!m.wf());
                }
                return Err(SumcheckError::ConstructionError);
            }
            i = i + 1;
        }
        let r = MultiPoly { num_vars, terms };
        assert(r.wf()) by {
            assert forall|k: int| 0 <= k < r@.len() implies powers_wf(#[trigger] r@[k].1, num_vars as nat) by {
                assert(r@[k].1 == terms@[k].powers@);
            }
        }
        Ok(r)
    }

    /// A deep copy, with the same model.
    pub fn copy(&self) -> (r: MultiPoly)
        ensures
            r.num_vars == self.num_vars,
            r@ == self@,
    {
        let mut terms: Vec<Term> = Vec::new();
        let mut i: usize = 0;
        while i < self.terms.len()
            invariant
                0 <= i <= self@.len(),
                terms@.len() == i,
                forall|k: int| 0 <= k < i ==> (#[trigger] terms@[k])@ == self@[k],
            decreases self@.len() - i,
        {
            let t = &self.terms[i];
            let mut powers: Vec<(usize, usize)> = Vec::new();
            let mut j: usize = 0;
            while j < t.powers.len()
                invariant
                    0 <= j <= t.powers@.len(),
                    powers@ == t.powers@.subrange(0, j as int),
                decreases t.powers@.len() - j,
            {
                powers.push(t.powers[j]);
                j = j + 1;
                assert(powers@ =~= t.powers@.subrange(0, j as int));
            }
            assert(powers@ =~= t.powers@);
            terms.push(Term { coeff: t.coeff, powers });
            i = i + 1;
        }
        let r = MultiPoly { num_vars: self.num_vars, terms };
        assert(r@ =~= self@);
        r
    }
}

/// Whether a term's pairs are well formed for `n` variables.
fn powers_valid(powers: &Vec<(usize, usize)>, n: usize) -> (r: bool)
    ensures
        r == powers_wf(powers@, n as nat),
{
    let len = powers.len();
    let mut j: usize = 0;
    while j < len
        invariant
            len == powers@.len(),
            0 <= j <= len,
            forall|a: int| 0 <= a < j ==> (#[trigger] powers@[a]).0 < n,
            forall|a: int| 0 <= a < j ==> (#[trigger] powers@[a]).1 < usize::MAX,
            forall|a: int, b: int|
                0 <= a < j && 0 <= b < len && a != b ==> (#[trigger] powers@[a]).0
                    != (#[trigger] powers@[b]).0,
        decreases len - j,
    {
        let (v, e) = powers[j];
        if v >= n || e == usize::MAX {
            return false;
        }
        let mut k: usize = 0;
        while k < len
            invariant
                len == powers@.len(),
                0 <= j < len,
                0 <= k <= len,
                v == powers@[j as int].0,
                forall|b: int| 0 <= b < k && b != j ==> (#[trigger] powers@[b]).0 != v,
            decreases len - k,
        {
            if k != j && powers[k].0 == v {
                assert(!powers_wf(powers@, n as nat)) by {
                    assert(powers@[j as int].0 == powers@[k as int].0);
                }
                return false;
            }
            k = k + 1;
        }
        j = j + 1;
    }
    exponent_sum_fits(powers)
}

/// The exponents of a prefix add up to no more than those of the whole term.
proof fn lemma_exp_sum_prefix(powers: Seq<(usize, usize)>, j: int)
    requires
        0 <= j <= powers.len(),
    ensures
        exp_sum(powers.subrange(0, j)) <= exp_sum(powers),
    decreases powers.len(),
{
    if j == powers.len() {
        assert(powers.subrange(0, j) =~= powers);
    } else {
        assert(powers.drop_last().subrange(0, j) =~= powers.subrange(0, j));
        lemma_exp_sum_prefix(powers.drop_last(), j);
    }
}

/// Whether a term's total degree fits in a `usize`.
fn exponent_sum_fits(powers: &Vec<(usize, usize)>) -> (r: bool)
    ensures
        r == (exp_sum(powers@) <= usize::MAX),
{
    let mut total: usize = 0;
    let mut j: usize = 0;
    while j < powers.len()
        invariant
            0 <= j <= powers@.len(),
            total == exp_sum(powers@.subrange(0, j as int)),
        decreases powers@.len() - j,
    {
        let e = powers[j].1;
        proof {
            assert(powers@.subrange(0, j + 1).drop_last() =~= powers@.subrange(0, j as int));
        }
        if e > usize::MAX - total {
            proof {
                lemma_exp_sum_prefix(powers@, j + 1);
            }
            return false;
        }
        total = total + e;
        j = j + 1;
    }
    assert(powers@.subrange(0, powers@.len() as int) =~= powers@);
    true
}

/// A univariate polynomial, as its coefficients from the constant term up.
#[derive(Clone, Debug)]
pub struct UniPoly {
    pub coeffs: Vec<Scalar>,
}

impl View for UniPoly {
    type V = Seq<int>;

    open spec fn view(&self) -> Seq<int> {
        values(self.coeffs@)
    }
}

impl UniPoly {
    /// The value of the polynomial at `x`.
    pub fn evaluate(&self, x: &Scalar) -> (r: Scalar)
        ensures
            r@ == uni_eval(self@, x@) % modulus(),
    {
        uni_evaluate(self, x)
    }
}

impl MultiPoly {
    /// The value of the polynomial at the point `pt`, one coordinate per variable.
    pub fn evaluate(&self, pt: &Vec<Scalar>) -> (r: Scalar)
        requires
            self.wf(),
            pt@.len() == self.num_vars,
        ensures
            r@ == self.eval(values(pt@)) % modulus(),
    {
        multi_evaluate(self, pt)
    }
}

/// Relies on ark-poly's `DensePolynomial::from_coefficients_vec` and `evaluate`: the value
/// of `sum c_i x^i` modulo the field's order (dropping high zero coefficients keeps it).
#[verifier::external_body]
pub(crate) fn uni_evaluate(p: &UniPoly, x: &Scalar) -> (r: Scalar)
    ensures
        r@ == uni_eval(p@, x@) % modulus(),
{
    let coeffs: Vec<Fr> = p.coeffs.iter().map(|c| Fr::from(BigInteger256::new(c.limbs))).collect();
    let y = DensePolynomial::from_coefficients_vec(coeffs).evaluate(&Fr::from(BigInteger256::new(x.limbs)));
    Scalar { limbs: y.into_repr().0 }
}

/// Relies on ark-poly's `SparsePolynomial::from_coefficients_vec` and `evaluate`: the sum
/// over the terms of `coeff * prod pt[v]^e`, modulo the field's order. Sorting and merging
/// terms keeps that sum. The constructor panics on a variable not below `num_vars` and, when
/// it compares terms, on a total degree that overflows a `usize`; `evaluate` panics on a
/// point shorter than `num_vars`. A well-formed polynomial has none of these.
#[verifier::external_body]
pub(crate) fn multi_evaluate(g: &MultiPoly, pt: &Vec<Scalar>) -> (r: Scalar)
    requires
        g.wf(),
        pt@.len() == g.num_vars,
    ensures
        r@ == g.eval(values(pt@)) % modulus(),
{
    let terms: Vec<(Fr, SparseTerm)> = g.terms.iter().map(|t| (Fr::from(BigInteger256::new(t.coeff.limbs)), SparseTerm::new(t.powers.clone()))).collect();
    let x: Vec<Fr> = pt.iter().map(|s| Fr::from(BigInteger256::new(s.limbs))).collect();
    let y = SparsePolynomial::from_coefficients_vec(g.num_vars, terms).evaluate(&x);
    Scalar { limbs: y.into_repr().0 }
}

} // verus!
