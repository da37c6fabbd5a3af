//! The identities that make the honest prover pass, and a full run of the protocol.
use crate::error::SumcheckError;
use crate::field::{modulus, Scalar};
use crate::hypercube::{cube_sum, hypercube_sum, is_round_poly, lemma_mod_add_congruent};
use crate::poly::{uni_eval, MultiPoly};
use crate::prover::Prover;
use crate::verification::{boundary_sum, value_at, Phase, Status, Verifier};
use rand::rngs::StdRng;
use vstd::prelude::*;

verus! {

/// The first round polynomial's values at 0 and 1 add up to the sum of `g` over the
/// hypercube: an honest first round meets the true claimed sum.
pub proof fn lemma_first_round_identity(g: MultiPoly, p: Seq<int>)
    requires
        g.wf(),
        is_round_poly(p, g, Seq::empty()),
    ensures
        boundary_sum(p) == hypercube_sum(g) % modulus(),
{
    let m = (g.num_vars - 1) as nat;
    let e = Seq::<int>::empty();
    assert(uni_eval(p, 0) % modulus() == cube_sum(g@, e.push(0), m) % modulus());
    assert(uni_eval(p, 1) % modulus() == cube_sum(g@, e.push(1), m) % modulus());
    lemma_mod_add_congruent(uni_eval(p, 0), cube_sum(g@, e.push(0), m), uni_eval(p, 1), cube_sum(g@, e.push(1), m));
}

/// Boundary identity: if `p` is the honest round polynomial for the challenges `prefix` and
/// `q` the one for `prefix` followed by `r`, and `q` still has a free variable, then
/// `q(0) + q(1) == p(r)`.
pub proof fn lemma_boundary_identity(g: MultiPoly, p: Seq<int>, q: Seq<int>, prefix: Seq<int>, r: int)
    requires
        g.wf(),
        prefix.len() + 1 < g.num_vars,
        is_round_poly(p, g, prefix),
        is_round_poly(q, g, prefix.push(r)),
    ensures
        boundary_sum(q) == value_at(p, r),
{
    let m = (g.num_vars - prefix.len() - 2) as nat;
    let pr = prefix.push(r);
    assert(uni_eval(q, 0) % modulus() == cube_sum(g@, pr.push(0), m) % modulus());
    assert(uni_eval(q, 1) % modulus() == cube_sum(g@, pr.push(1), m) % modulus());
    assert(uni_eval(p, r) % modulus() == cube_sum(g@, pr, m + 1) % modulus());
    lemma_mod_add_congruent(uni_eval(q, 0), cube_sum(g@, pr.push(0), m), uni_eval(q, 1), cube_sum(g@, pr.push(1), m));
}

/// Final identity: the honest last round polynomial, at the last challenge, is the value of
/// `g` at the whole challenge vector.
pub proof fn lemma_final_identity(g: MultiPoly, p: Seq<int>, prefix: Seq<int>, r: int)
    requires
        g.wf(),
        prefix.len() + 1 == g.num_vars,
        is_round_poly(p, g, prefix),
    ensures
        value_at(p, r) == g.eval(prefix.push(r)) % modulus(),
{
    assert(uni_eval(p, r) % modulus() == cube_sum(g@, prefix.push(r), 0) % modulus());
}

/// Runs the whole protocol on `g` between an honest prover and a verifier that draws its
/// challenges from `rand`: first round, then challenge, answer and check until the verifier
/// decides. A true claim is always verified, after exactly `num_vars` round polynomials were
/// accepted (the first one included); a false one is refused at the first round. Returns the
/// final status and the number of accepted round polynomials.
pub fn run_protocol(g: &MultiPoly, claimed_sum: Scalar, rand: StdRng) -> (r: Result<
    (Status, usize),
    SumcheckError,
>)
    requires
        g.wf(),
    ensures
        claimed_sum@ == hypercube_sum(*g) % modulus() ==> r == Ok::<(Status, usize), SumcheckError>(
            (Status::Verified, g.num_vars),
        ),
        claimed_sum@ != hypercube_sum(*g) % modulus() ==> r == Err::<(Status, usize), SumcheckError>(
            SumcheckError::ClaimMismatch,
        ),
{
    let mut prover = Prover::new(g.copy());
    let s1 = prover.first_round();
    proof {
        lemma_first_round_identity(*g, s1@);
    }
    let mut verifier = match Verifier::new(g.copy(), s1, claimed_sum, rand) {
        Ok(v) => v,
        Err(e) => {
            return Err(e);
        },
    };
    loop
        invariant
            g.wf(),
            claimed_sum@ == hypercube_sum(*g) % modulus(),
            prover.wf(),
            verifier.wf(),
            prover@.poly@ == g@,
            prover@.poly.num_vars == g.num_vars,
            verifier@.poly@ == g@,
            verifier@.poly.num_vars == g.num_vars,
            prover@.started,
            verifier@.phase == Phase::Verifying,
            verifier@.challenges == prover@.challenges,
            verifier@.rounds == prover@.challenges.len() + 1,
            is_round_poly(verifier@.prev, *g, verifier@.challenges),
        decreases g.num_vars + 1 - verifier@.rounds,
    {
        let ghost before = verifier@;
        let r = verifier.gen_r();
        let gi = match prover.gen_uni_polynomial(r) {
            Ok(p) => p,
            Err(e) => {
                return Err(e);
            },
        };
        let ghost mid = verifier@;
        let ghost c = mid.challenges;
        let ghost k = mid.rounds;
        let ghost n = g.num_vars;
        proof {
            assert(c.drop_last() =~= before.challenges);
            assert(c =~= before.challenges.push(c[k - 1]));
            assert(is_round_poly(gi@, *g, c));
            if k < n {
                lemma_boundary_identity(*g, mid.prev, gi@, before.challenges, c[k - 1]);
                if k + 1 == n {
                    assert forall|last: int| value_at(gi@, last) == g.eval(c.push(last)) % modulus() by {
                        lemma_final_identity(*g, gi@, c, last);
                    }
                }
            } else {
                lemma_final_identity(*g, mid.prev, before.challenges, c[k - 1]);
            }
        }
        match verifier.execute_round(gi) {
            Ok(Status::Verifying) => {},
            Ok(Status::Verified) => {
                proof {
                    verifier.lemma_round_count();
                }
                return Ok((Status::Verified, verifier.rounds()));
            },
            Err(e) => {
                proof {
                    // the last challenge was drawn inside the round: the final identity held
                    if k + 1 == n {
                        let f = verifier@.challenges;
                        assert(f =~= c.push(f.last()));
                    }
                }
                return Err(e);
            },
        }
    }
}

} // verus!
