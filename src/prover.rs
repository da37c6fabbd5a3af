//! The honest sum-check prover.
use crate::error::SumcheckError;
use crate::field::{modulus, Scalar};
use crate::hypercube::{is_round_poly, round_value, var_degree};
use crate::poly::{multi_evaluate, uni_eval, values, MultiPoly, UniPoly};
use vstd::arithmetic::div_mod::*;
use vstd::arithmetic::power::*;
use vstd::prelude::*;

verus! {

/// What a prover holds, as mathematics.
pub struct ProverView {
    pub poly: MultiPoly,
    pub challenges: Seq<int>,
    pub started: bool,
}

/// The prover: its own copy of `g` and the challenges received so far.
#[derive(Debug)]
pub struct Prover {
    g: MultiPoly,
    r_vec: Vec<Scalar>,
    started: bool,
}

impl View for Prover {
    type V = ProverView;

    closed spec fn view(&self) -> ProverView {
        ProverView { poly: self.g, challenges: values(self.r_vec@), started: self.started }
    }
}

impl Prover {
    /// The polynomial is well formed and no more challenges than variables have come in.
    pub open spec fn wf(&self) -> bool {
        &&& self@.poly.wf()
        &&& self@.challenges.len() <= self@.poly.num_vars
    }

    /// A prover for `g`, before its first round.
    pub fn new(g: MultiPoly) -> (r: Prover)
        requires
            g.wf(),
        ensures
            r.wf(),
            r@.poly == g,
            r@.challenges == Seq::<int>::empty(),
            !r@.started,
    {
        let r = Prover { g, r_vec: Vec::new() , started: false };
        assert(values(r.r_vec@) =~= Seq::<int>::empty());
        r
    }

    /// The first round polynomial `g_1`: `x_0` free, every other variable over `{0,1}`.
    /// It depends on no challenge; the prover notes that the run has begun.
    pub fn first_round(&mut self) -> (r: UniPoly)
        requires
            old(self).wf(),
        ensures
            final(self).wf(),
            final(self)@ == (ProverView { started: true, ..old(self)@ }),
            r.coeffs@.len() == var_degree(old(self)@.poly@, 0) + 1,
            is_round_poly(r@, old(self)@.poly, Seq::<int>::empty()),
    {
        let empty: Vec<Scalar> = Vec::new();
        assert(values(empty@) =~= Seq::<int>::empty());
        let p = self.g.gen_uni_polynomial(&empty);
        self.started = true;
        p
    }

    /// Takes the challenge `r` and answers with the next round polynomial: the challenges so
    /// far fixed, the next variable free, the rest over `{0,1}`. Once every variable has its
    /// challenge, the answer is the constant `g(r_1, ..., r_n)`. Fails with `ProtocolMisuse`
    /// before the first round or once every variable already has its challenge.
    pub fn gen_uni_polynomial(&mut self, r: Scalar) -> (res: Result<UniPoly, SumcheckError>)
        requires
            old(self).wf(),
        ensures
            final(self).wf(),
            !old(self)@.started || old(self)@.challenges.len() == old(self)@.poly.num_vars
                ==> res == Err::<UniPoly, SumcheckError>(SumcheckError::ProtocolMisuse)
                && final(self)@ == old(self)@,
            old(self)@.started && old(self)@.challenges.len() < old(self)@.poly.num_vars ==> {
                &&& res is Ok
                &&& final(self)@ == (ProverView {
                    challenges: old(self)@.challenges.push(r@),
                    ..old(self)@
                })
                &&& is_round_poly(res->Ok_0@, final(self)@.poly, final(self)@.challenges)
                &&& res->Ok_0.coeffs@.len() == if final(self)@.challenges.len()
                    < final(self)@.poly.num_vars {
                    var_degree(final(self)@.poly@, final(self)@.challenges.len() as int) + 1
                } else {
                    1
                }
            },
    {
        if !self.started || self.r_vec.len() == self.g.num_vars {
            return Err(SumcheckError::ProtocolMisuse);
        }
        self.r_vec.push(r);
        let ghost rs = values(self.r_vec@);
        proof {
            assert(rs =~= values(old(self).r_vec@).push(r@));
        }
        if self.r_vec.len() < self.g.num_vars {
            Ok(self.g.gen_uni_polynomial(&self.r_vec))
        } else {
            let v = multi_evaluate(&self.g, &self.r_vec);
            let mut coeffs: Vec<Scalar> = Vec::new();
            coeffs.push(v);
            let p = UniPoly { coeffs };
            proof {
                assert forall|x: int| #[trigger] uni_eval(p@, x) % modulus() == round_value(self.g, rs, x) % modulus() by {
                    assert(p@.drop_last() =~= Seq::<int>::empty());
                    lemma_pow0(x);
                    assert(p@.last() == v@);
                    assert(uni_eval(Seq::<int>::empty(), x) == 0);
                    assert(v@ * pow(x, 0) == v@);
                    assert(uni_eval(p@, x) == v@);
                    lemma_mod_twice(self.g.eval(rs), modulus());
                }
            }
            Ok(p)
        }
    }

    /// Another name for `gen_uni_polynomial`.
    pub fn compute_round(&mut self, r: Scalar) -> (res: Result<UniPoly, SumcheckError>)
        requires
            old(self).wf(),
        ensures
            final(self).wf(),
            !old(self)@.started || old(self)@.challenges.len() == old(self)@.poly.num_vars
                ==> res == Err::<UniPoly, SumcheckError>(SumcheckError::ProtocolMisuse)
                && final(self)@ == old(self)@,
            old(self)@.started && old(self)@.challenges.len() < old(self)@.poly.num_vars ==> {
                &&& res is Ok
                &&& final(self)@ == (ProverView {
                    challenges: old(self)@.challenges.push(r@),
                    ..old(self)@
                })
                &&& is_round_poly(res->Ok_0@, final(self)@.poly, final(self)@.challenges)
                &&& res->Ok_0.coeffs@.len() == if final(self)@.challenges.len()
                    < final(self)@.poly.num_vars {
                    var_degree(final(self)@.poly@, final(self)@.challenges.len() as int) + 1
                } else {
                    1
                }
            },
    {
        self.gen_uni_polynomial(r)
    }
}

} // verus!
