//! The sum-check verifier: draws the challenges and checks each round polynomial.
use crate::error::SumcheckError;
use crate::field::{fr_add, fr_random, modulus, Scalar};
use crate::poly::{multi_evaluate, uni_eval, uni_evaluate, values, MultiPoly, UniPoly};
use rand::rngs::StdRng;
use vstd::arithmetic::div_mod::*;
use vstd::prelude::*;

verus! {

/// What `execute_round` reports when a round passes.
#[derive(Clone, Copy, Debug, PartialEq, Eq, Structural)]
pub enum Status {
    /// The round passed and more rounds follow.
    Verifying,
    /// The final identity held: the claim is accepted.
    Verified,
}

/// Where a run stands. A `Verifier` exists only once the claim has met the first round
/// polynomial, so it starts at `Verifying`.
#[derive(Clone, Copy, Debug, PartialEq, Eq, Structural)]
pub enum Phase {
    AwaitingFirstRound,
    Verifying,
    Verified,
    Rejected,
}

/// The value of a round polynomial at `x`, in the field.
pub open spec fn value_at(p: Seq<int>, x: int) -> int {
    uni_eval(p, x) % modulus()
}

/// The sum of a round polynomial's values at 0 and 1, in the field.
pub open spec fn boundary_sum(p: Seq<int>) -> int {
    (uni_eval(p, 0) + uni_eval(p, 1)) % modulus()
}

/// What a verifier holds, as mathematics: `prev` is the last accepted round polynomial and
/// `rounds` how many round polynomials have been accepted (the first one included).
pub struct VerifierView {
    pub poly: MultiPoly,
    pub claimed: int,
    pub challenges: Seq<int>,
    pub prev: Seq<int>,
    pub rounds: nat,
    pub phase: Phase,
}

/// The verifier: its own copy of `g`, the claimed sum, its source of challenges, the
/// challenges drawn so far and the last accepted round polynomial.
#[derive(Debug)]
pub struct Verifier {
    rand: StdRng,
    poly: MultiPoly,
    claimed_sum: Scalar,
    r_vec: Vec<Scalar>,
    prev_gi: UniPoly,
    rounds: usize,
    phase: Phase,
}

impl View for Verifier {
    type V = VerifierView;

    closed spec fn view(&self) -> VerifierView {
        VerifierView {
            poly: self.poly,
            claimed: self.claimed_sum@,
            challenges: values(self.r_vec@),
            prev: self.prev_gi@,
            rounds: self.rounds as nat,
            phase: self.phase,
        }
    }
}

impl Verifier {
    /// The polynomial is well formed; between one and `num_vars` rounds are accepted; a
    /// verified run has accepted all of them.
    pub open spec fn wf(&self) -> bool {
        &&& self@.poly.wf()
        &&& 1 <= self@.rounds <= self@.poly.num_vars
        &&& self@.phase != Phase::AwaitingFirstRound
        &&& self@.phase == Phase::Verified ==> self@.rounds == self@.poly.num_vars
    }

    /// A verified run has gone through exactly `num_vars` rounds.
    pub proof fn lemma_round_count(&self)
        requires
            self.wf(),
            self@.phase == Phase::Verified,
        ensures
            self@.rounds == self@.poly.num_vars,
    {
    }

    /// Starts a run on `g` from the first round polynomial `s1` and the claimed sum. Fails
    /// with `ClaimMismatch` unless the claim equals `s1(0) + s1(1)`.
    pub fn new(poly: MultiPoly, s1: UniPoly, claimed_sum: Scalar, rand: StdRng) -> (r: Result<
        Verifier,
        SumcheckError,
    >)
        requires
            poly.wf(),
        ensures
            r is Ok <==> claimed_sum@ == boundary_sum(s1@),
            r is Err ==> r->Err_0 == SumcheckError::ClaimMismatch,
            r is Ok ==> r->Ok_0.wf() && r->Ok_0@ == (VerifierView {
                poly,
                claimed: claimed_sum@,
                challenges: Seq::empty(),
                prev: s1@,
                rounds: 1,
                phase: Phase::Verifying,
            }),
    {
        let expected = boundary_value(&s1);
        if !claimed_sum.equals(&expected) {
            return Err(SumcheckError::ClaimMismatch);
        }
        let v = Verifier {
            rand,
            poly,
            claimed_sum,
            r_vec: Vec::new(),
            prev_gi: s1,
            rounds: 1,
            phase: Phase::Verifying,
        };
        assert(values(v.r_vec@) =~= Seq::<int>::empty());
        Ok(v)
    }

    /// Draws a challenge uniformly from the field and records it.
    pub fn gen_r(&mut self) -> (r: Scalar)
        requires
            old(self).wf(),
        ensures
            final(self).wf(),
            final(self)@ == (VerifierView {
                challenges: old(self)@.challenges.push(r@),
                ..old(self)@
            }),
    {
        let r = fr_random(&mut self.rand);
        self.r_vec.push(r);
        assert(values(self.r_vec@) =~= values(old(self).r_vec@).push(r@));
        r
    }

    /// Checks the next round polynomial `gi` against the last challenge.
    ///
    /// With `k` rounds accepted, a fresh challenge `r_k` must have been drawn for `g_k`.
    /// While `k < num_vars`, `gi` must meet the boundary identity `gi(0) + gi(1) == g_k(r_k)`;
    /// if it is the last round polynomial, the verifier then draws `r_n` itself and requires
    /// the final identity `gi(r_n) == g(r_1, ..., r_n)`. When every variable already has a
    /// challenge (a single variable), the final identity is required of `g_k` instead. A
    /// failed identity rejects the run; a call on a finished run, or without a fresh
    /// challenge, is `ProtocolMisuse` and changes nothing.
    pub fn execute_round(&mut self, gi: UniPoly) -> (res: Result<Status, SumcheckError>)
        requires
            old(self).wf(),
        ensures
            final(self).wf(),
            ({
                let o = old(self)@;
                let f = final(self)@;
                let n = o.poly.num_vars;
                let k = o.rounds;
                if o.phase != Phase::Verifying || o.challenges.len() != k {
                    res == Err::<Status, SumcheckError>(SumcheckError::ProtocolMisuse) && f == o
                } else if k < n {
                    if boundary_sum(gi@) != value_at(o.prev, o.challenges[k - 1]) {
                        res == Err::<Status, SumcheckError>(SumcheckError::VerificationFailed) && f
                            == (VerifierView { phase: Phase::Rejected, ..o })
                    } else if k + 1 < n {
                        res == Ok::<Status, SumcheckError>(Status::Verifying) && f
                            == (VerifierView { prev: gi@, rounds: k + 1, ..o })
                    } else {
                        &&& f.challenges.len() == n
                        &&& f.challenges.drop_last() == o.challenges
                        &&& f == (VerifierView {
                            challenges: f.challenges,
                            prev: gi@,
                            rounds: n as nat,
                            phase: f.phase,
                            ..o
                        })
                        &&& if value_at(gi@, f.challenges.last()) == o.poly.eval(f.challenges)
                            % modulus() {
                            res == Ok::<Status, SumcheckError>(Status::Verified) && f.phase
                                == Phase::Verified
                        } else {
                            res == Err::<Status, SumcheckError>(SumcheckError::VerificationFailed)
                                && f.phase == Phase::Rejected
                        }
                    }
                } else if value_at(o.prev, o.challenges.last()) == o.poly.eval(o.challenges)
                    % modulus() {
                    res == Ok::<Status, SumcheckError>(Status::Verified) && f
                        == (VerifierView { phase: Phase::Verified, ..o })
                } else {
                    res == Err::<Status, SumcheckError>(SumcheckError::VerificationFailed) && f
                        == (VerifierView { phase: Phase::Rejected, ..o })
                }
            }),
    {
        if self.phase != Phase::Verifying || self.r_vec.len() != self.rounds {
            return Err(SumcheckError::ProtocolMisuse);
        }
        let n = self.poly.num_vars;
        let k = self.rounds;
        if k < n {
            let lhs = boundary_value(&gi);
            let rhs = uni_evaluate(&self.prev_gi, &self.r_vec[k - 1]);
            if !lhs.equals(&rhs) {
                self.phase = Phase::Rejected;
                return Err(SumcheckError::VerificationFailed);
            }
            self.rounds = k + 1;
            if k + 1 < n {
                self.prev_gi = gi;
                return Ok(Status::Verifying);
            }
            let last = fr_random(&mut self.rand);
            self.r_vec.push(last);
            let ghost rs = values(self.r_vec@);
            proof {
                assert(rs =~= values(old(self).r_vec@).push(last@));
                assert(rs.drop_last() =~= values(old(self).r_vec@));
            }
            let at_last = uni_evaluate(&gi, &last);
            let at_point = multi_evaluate(&self.poly, &self.r_vec);
            self.prev_gi = gi;
            if at_last.equals(&at_point) {
                self.phase = Phase::Verified;
                Ok(Status::Verified)
            } else {
                self.phase = Phase::Rejected;
                Err(SumcheckError::VerificationFailed)
            }
        } else {
            let at_last = uni_evaluate(&self.prev_gi, &self.r_vec[k - 1]);
            let at_point = multi_evaluate(&self.poly, &self.r_vec);
            if at_last.equals(&at_point) {
                self.phase = Phase::Verified;
                Ok(Status::Verified)
            } else {
                self.phase = Phase::Rejected;
                Err(SumcheckError::VerificationFailed)
            }
        }
    }

    /// How many round polynomials have been accepted, the first one included.
    pub fn rounds(&self) -> (r: usize)
        ensures
            r == self@.rounds,
    {
        self.rounds
    }

    /// Where the run stands.
    pub fn phase(&self) -> (r: Phase)
        ensures
            r == self@.phase,
    {
        self.phase
    }

    /// The challenges drawn so far, in order.
    pub fn challenges(&self) -> (r: &Vec<Scalar>)
        ensures
            values(r@) == self@.challenges,
    {
        &self.r_vec
    }
}

/// `p(0) + p(1)` in the field.
fn boundary_value(p: &UniPoly) -> (r: Scalar)
    ensures
        r@ == boundary_sum(p@),
{
    let zero = Scalar::zero();
    let one = Scalar::one();
    let e0 = uni_evaluate(p, &zero);
    let e1 = uni_evaluate(p, &one);
    let r = fr_add(&e0, &e1);
    proof {
        lemma_add_mod_noop(uni_eval(p@, 0), uni_eval(p@, 1), modulus());
    }
    r
}

} // verus!
