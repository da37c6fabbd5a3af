use rand::rngs::StdRng;
use rand::SeedableRng;
use sumcheck::{
    run_protocol, MultiPoly, Phase, Prover, Scalar, Status, SumcheckError, Term, Verifier,
};

fn s(v: u64) -> Scalar {
    Scalar::from_u64(v)
}

fn term(c: u64, powers: Vec<(usize, usize)>) -> Term {
    Term { coeff: s(c), powers }
}

// g = 2 x1^3 + x1 x3 + x2 x3, variables numbered from zero
fn example_poly() -> MultiPoly {
    MultiPoly::new(
        3,
        vec![term(2, vec![(0, 3)]), term(1, vec![(0, 1), (2, 1)]), term(1, vec![(1, 1), (2, 1)])],
    )
    .unwrap()
}

fn four_var() -> MultiPoly {
    MultiPoly::new(
        4,
        vec![
            term(2, vec![(0, 3)]),
            term(1, vec![(0, 1), (2, 1)]),
            term(1, vec![(1, 1), (2, 1)]),
            term(1, vec![(3, 1), (2, 1)]),
        ],
    )
    .unwrap()
}

fn rng(seed: u64) -> StdRng {
    StdRng::seed_from_u64(seed)
}

#[test]
fn honest_run_verifies_in_three_rounds() {
    let g = example_poly();
    // (1,0,0) -> 2, (1,0,1) -> 3, (1,1,0) -> 2, (1,1,1) -> 4, and (0,1,1) -> 1
    assert_eq!(g.slow_sum_poly(), s(12));
    let mut prover = Prover::new(g.copy());
    let g1 = prover.first_round();
    let mut verifier = Verifier::new(g.copy(), g1, s(12), rng(1)).unwrap();
    let mut rounds = 1;
    let mut status = Status::Verifying;
    while status == Status::Verifying {
        let r = verifier.gen_r();
        let gi = prover.gen_uni_polynomial(r).unwrap();
        status = verifier.execute_round(gi).unwrap();
        rounds += 1;
    }
    assert_eq!(status, Status::Verified);
    assert_eq!(rounds, 3);
    assert_eq!(verifier.rounds(), 3);
    assert_eq!(verifier.phase(), Phase::Verified);
    assert_eq!(verifier.challenges().len(), 3);
}

#[test]
fn tampered_second_round_is_rejected() {
    let g = example_poly();
    let mut prover = Prover::new(g.copy());
    let g1 = prover.first_round();
    let mut verifier = Verifier::new(g.copy(), g1, s(12), rng(2)).unwrap();
    let r = verifier.gen_r();
    let mut g2 = prover.gen_uni_polynomial(r).unwrap();
    g2.coeffs[0] = g2.coeffs[0].add(&s(1));
    assert_eq!(verifier.execute_round(g2), Err(SumcheckError::VerificationFailed));
    assert_eq!(verifier.phase(), Phase::Rejected);
}

#[test]
fn wrong_claim_is_refused() {
    let g = example_poly();
    let mut prover = Prover::new(g.copy());
    let g1 = prover.first_round();
    let r = Verifier::new(g.copy(), g1.clone(), s(13), rng(3));
    assert_eq!(r.err(), Some(SumcheckError::ClaimMismatch));
    // leaving out the point (0,1,1) gives 11, which is refused too
    let r = Verifier::new(g.copy(), g1, s(11), rng(3));
    assert_eq!(r.err(), Some(SumcheckError::ClaimMismatch));
}

#[test]
fn tampered_last_round_is_rejected() {
    let g = example_poly();
    let mut prover = Prover::new(g.copy());
    let g1 = prover.first_round();
    let mut verifier = Verifier::new(g.copy(), g1, s(12), rng(4)).unwrap();
    let r = verifier.gen_r();
    let g2 = prover.gen_uni_polynomial(r).unwrap();
    assert_eq!(verifier.execute_round(g2), Ok(Status::Verifying));
    let r = verifier.gen_r();
    let mut g3 = prover.gen_uni_polynomial(r).unwrap();
    g3.coeffs[0] = g3.coeffs[0].add(&s(7));
    assert_eq!(verifier.execute_round(g3), Err(SumcheckError::VerificationFailed));
    assert_eq!(verifier.phase(), Phase::Rejected);
}

#[test]
fn driver_verifies_true_claims() {
    assert_eq!(run_protocol(&example_poly(), s(12), rng(5)), Ok((Status::Verified, 3)));
    assert_eq!(run_protocol(&four_var(), s(28), rng(6)), Ok((Status::Verified, 4)));
}

#[test]
fn driver_refuses_false_claims() {
    assert_eq!(run_protocol(&example_poly(), s(11), rng(7)), Err(SumcheckError::ClaimMismatch));
    assert_eq!(run_protocol(&four_var(), s(0), rng(8)), Err(SumcheckError::ClaimMismatch));
}

#[test]
fn single_variable_run_verifies() {
    // 3 x0^2 + 5 over {0, 1}: 5 + 8
    let g = MultiPoly::new(1, vec![term(3, vec![(0, 2)]), term(5, vec![])]).unwrap();
    assert_eq!(g.slow_sum_poly(), s(13));
    assert_eq!(run_protocol(&g, s(13), rng(9)), Ok((Status::Verified, 1)));
    assert_eq!(run_protocol(&g, s(14), rng(9)), Err(SumcheckError::ClaimMismatch));
}

#[test]
fn single_variable_run_step_by_step() {
    let g = MultiPoly::new(1, vec![term(3, vec![(0, 2)]), term(5, vec![])]).unwrap();
    let mut prover = Prover::new(g.copy());
    let g1 = prover.first_round();
    let mut verifier = Verifier::new(g.copy(), g1, s(13), rng(10)).unwrap();
    let r = verifier.gen_r();
    let last = prover.gen_uni_polynomial(r).unwrap();
    assert_eq!(last.coeffs.len(), 1);
    assert_eq!(verifier.execute_round(last), Ok(Status::Verified));
}

#[test]
fn calls_after_completion_are_misuse() {
    let g = example_poly();
    let mut prover = Prover::new(g.copy());
    let g1 = prover.first_round();
    let mut verifier = Verifier::new(g.copy(), g1, s(12), rng(11)).unwrap();
    let mut status = Status::Verifying;
    let mut last = None;
    while status == Status::Verifying {
        let r = verifier.gen_r();
        let gi = prover.gen_uni_polynomial(r).unwrap();
        last = Some(gi.clone());
        status = verifier.execute_round(gi).unwrap();
    }
    assert_eq!(verifier.execute_round(last.unwrap()), Err(SumcheckError::ProtocolMisuse));
    assert_eq!(verifier.phase(), Phase::Verified);
    // the prover answers once more, with g at the full challenge vector, then refuses
    assert!(prover.gen_uni_polynomial(s(1)).is_ok());
    assert_eq!(prover.gen_uni_polynomial(s(2)).err(), Some(SumcheckError::ProtocolMisuse));
}

#[test]
fn prover_refuses_before_first_round() {
    let mut prover = Prover::new(example_poly());
    assert_eq!(prover.gen_uni_polynomial(s(1)).err(), Some(SumcheckError::ProtocolMisuse));
    assert_eq!(prover.compute_round(s(1)).err(), Some(SumcheckError::ProtocolMisuse));
}

#[test]
fn round_without_fresh_challenge_is_misuse() {
    let g = example_poly();
    let mut prover = Prover::new(g.copy());
    let g1 = prover.first_round();
    let mut verifier = Verifier::new(g.copy(), g1.clone(), s(12), rng(12)).unwrap();
    assert_eq!(verifier.execute_round(g1), Err(SumcheckError::ProtocolMisuse));
    assert_eq!(verifier.phase(), Phase::Verifying);
}

#[test]
fn rejected_run_stays_rejected() {
    let g = example_poly();
    let mut prover = Prover::new(g.copy());
    let g1 = prover.first_round();
    let mut verifier = Verifier::new(g.copy(), g1, s(12), rng(13)).unwrap();
    let r = verifier.gen_r();
    let mut g2 = prover.gen_uni_polynomial(r).unwrap();
    let honest = g2.clone();
    g2.coeffs[1] = g2.coeffs[1].add(&s(1));
    assert_eq!(verifier.execute_round(g2), Err(SumcheckError::VerificationFailed));
    verifier.gen_r();
    assert_eq!(verifier.execute_round(honest), Err(SumcheckError::ProtocolMisuse));
    assert_eq!(verifier.phase(), Phase::Rejected);
}

#[test]
fn honest_rounds_meet_boundary_and_final_identities() {
    let g = four_var();
    let mut prover = Prover::new(g.copy());
    let mut prev = prover.first_round();
    let mut point = Vec::new();
    for _ in 0..3 {
        let r = s(17 + point.len() as u64);
        point.push(r);
        let gi = prover.compute_round(r).unwrap();
        if point.len() < 4 {
            assert_eq!(gi.evaluate(&s(0)).add(&gi.evaluate(&s(1))), prev.evaluate(&r));
        }
        prev = gi;
    }
    let r4 = s(99);
    point.push(r4);
    assert_eq!(prev.evaluate(&r4), g.evaluate(&point));
}

#[test]
fn same_seed_same_challenges() {
    let g = example_poly();
    let mut p = Prover::new(g.copy());
    let g1 = p.first_round();
    let mut a = Verifier::new(g.copy(), g1.clone(), s(12), rng(42)).unwrap();
    let mut b = Verifier::new(g.copy(), g1, s(12), rng(42)).unwrap();
    assert_eq!(a.gen_r(), b.gen_r());
    assert_ne!(a.gen_r(), s(0));
}

#[test]
fn compute_round_answers_like_gen_uni_polynomial() {
    let g = four_var();
    let mut a = Prover::new(g.copy());
    let mut b = Prover::new(g.copy());
    a.first_round();
    b.first_round();
    let pa = a.compute_round(s(3)).unwrap();
    let pb = b.gen_uni_polynomial(s(3)).unwrap();
    assert_eq!(pa.coeffs, pb.coeffs);
    assert_eq!(pa.coeffs.len(), 2);
}
