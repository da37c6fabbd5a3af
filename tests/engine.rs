use sumcheck::{n_to_vec, MultiPoly, Scalar, SumcheckError, Term, UniPoly};

fn s(v: u64) -> Scalar {
    Scalar::from_u64(v)
}

fn term(c: u64, powers: Vec<(usize, usize)>) -> Term {
    Term { coeff: s(c), powers }
}

// g = 2 x0^3 + x0 x2 + x1 x2
fn three_var() -> MultiPoly {
    MultiPoly::new(
        3,
        vec![term(2, vec![(0, 3)]), term(1, vec![(0, 1), (2, 1)]), term(1, vec![(1, 1), (2, 1)])],
    )
    .unwrap()
}

// g = 2 x0^3 + x0 x2 + x1 x2 + x3 x2
fn four_var() -> MultiPoly {
    MultiPoly::new(
        4,
        vec![
            term(2, vec![(0, 3)]),
            term(1, vec![(0, 1), (2, 1)]),
            term(1, vec![(1, 1), (2, 1)]),
            term(1, vec![(3, 1), (2, 1)]),
        ],
    )
    .unwrap()
}

#[test]
fn full_sum_of_three_variable_example_is_twelve() {
    // (1,0,0) -> 2, (1,0,1) -> 3, (1,1,0) -> 2, (1,1,1) -> 4, and (0,1,1) -> 1
    assert_eq!(three_var().slow_sum_poly(), s(12));
}

#[test]
fn full_sum_of_four_variable_example() {
    // 2 x0^3 over 8 points with x0 = 1, then three products over 4 points each
    assert_eq!(four_var().slow_sum_poly(), s(28));
}

#[test]
fn full_sum_of_empty_polynomial_is_zero() {
    let g = MultiPoly::new(2, vec![]).unwrap();
    assert_eq!(g.slow_sum_poly(), s(0));
}

#[test]
fn full_sum_of_constant_counts_points() {
    let g = MultiPoly::new(3, vec![term(5, vec![])]).unwrap();
    assert_eq!(g.slow_sum_poly(), s(40));
}

#[test]
fn construction_rejects_zero_variables() {
    assert_eq!(MultiPoly::new(0, vec![]).err(), Some(SumcheckError::ConstructionError));
}

#[test]
fn construction_rejects_variable_out_of_range() {
    let r = MultiPoly::new(2, vec![term(1, vec![(2, 1)])]);
    assert_eq!(r.err(), Some(SumcheckError::ConstructionError));
}

#[test]
fn construction_rejects_repeated_variable() {
    let r = MultiPoly::new(2, vec![term(1, vec![(1, 1), (1, 2)])]);
    assert_eq!(r.err(), Some(SumcheckError::ConstructionError));
}

#[test]
fn construction_rejects_exponent_at_usize_max() {
    let r = MultiPoly::new(2, vec![term(1, vec![(0, usize::MAX)])]);
    assert_eq!(r.err(), Some(SumcheckError::ConstructionError));
}

#[test]
fn construction_keeps_terms() {
    let g = three_var();
    assert_eq!(g.num_vars, 3);
    assert_eq!(g.terms.len(), 3);
}

#[test]
fn partial_eval_with_last_variable_free() {
    // x0 = 2, x1 = 3: 2*8 + 2 x2 + 3 x2 = 16 + 5 x2
    let g = three_var();
    let p = g.partial_eval(&vec![Some(s(2)), Some(s(3)), None]);
    assert_eq!(p.coeffs, vec![s(16), s(5)]);
}

#[test]
fn partial_eval_with_first_variable_free() {
    // x1 = 1, x2 = 0: 2 x0^3
    let g = three_var();
    let p = g.partial_eval(&vec![None, Some(s(1)), Some(s(0))]);
    assert_eq!(p.coeffs, vec![s(0), s(0), s(0), s(2)]);
}

#[test]
fn partial_eval_with_nothing_free_is_the_value() {
    // 2*1 + 1*1 + 1*1 = 4 at (1, 1, 1)
    let g = three_var();
    let p = g.partial_eval(&vec![Some(s(1)), Some(s(1)), Some(s(1))]);
    assert_eq!(p.coeffs, vec![s(4)]);
}

#[test]
fn round_polynomial_for_empty_prefix() {
    // sum over x1, x2 of 2 x0^3 + x0 x2 + x1 x2 = 8 x0^3 + 2 x0 + 1
    let p = three_var().gen_uni_polynomial(&vec![]);
    assert_eq!(p.coeffs, vec![s(1), s(2), s(0), s(8)]);
}

#[test]
fn round_polynomial_degree_follows_variable() {
    let g = four_var();
    assert_eq!(g.gen_uni_polynomial(&vec![]).coeffs.len(), 4);
    assert_eq!(g.gen_uni_polynomial(&vec![s(5)]).coeffs.len(), 2);
    assert_eq!(g.gen_uni_polynomial(&vec![s(5), s(6)]).coeffs.len(), 2);
    assert_eq!(g.gen_uni_polynomial(&vec![s(5), s(6), s(7)]).coeffs.len(), 2);
}

#[test]
fn round_polynomial_for_last_variable() {
    // x0 = 2, x1 = 3: 16 + 5 x2 with nothing left to sum
    let p = three_var().gen_uni_polynomial(&vec![s(2), s(3)]);
    assert_eq!(p.coeffs, vec![s(16), s(5)]);
}

#[test]
fn round_polynomial_boundary_matches_full_sum() {
    let g = four_var();
    let p = g.gen_uni_polynomial(&vec![]);
    let total = p.evaluate(&s(0)).add(&p.evaluate(&s(1)));
    assert_eq!(total, g.slow_sum_poly());
}

#[test]
fn round_polynomial_boundary_matches_previous_round() {
    let g = four_var();
    let p1 = g.gen_uni_polynomial(&vec![s(9)]);
    let p2 = g.gen_uni_polynomial(&vec![s(9), s(4)]);
    assert_eq!(p2.evaluate(&s(0)).add(&p2.evaluate(&s(1))), p1.evaluate(&s(4)));
}

#[test]
fn last_round_polynomial_meets_the_polynomial() {
    let g = three_var();
    let p = g.gen_uni_polynomial(&vec![s(2), s(3)]);
    assert_eq!(p.evaluate(&s(7)), g.evaluate(&vec![s(2), s(3), s(7)]));
}

#[test]
fn multivariate_evaluation() {
    // 2*8 + 2*7 + 3*7 = 51
    assert_eq!(three_var().evaluate(&vec![s(2), s(3), s(7)]), s(51));
}

#[test]
fn univariate_evaluation() {
    // 1 + 2*3 + 8*27 = 223
    let p = UniPoly { coeffs: vec![s(1), s(2), s(0), s(8)] };
    assert_eq!(p.evaluate(&s(3)), s(223));
}

#[test]
fn univariate_evaluation_of_empty_is_zero() {
    let p = UniPoly { coeffs: vec![] };
    assert_eq!(p.evaluate(&s(3)), s(0));
}

#[test]
fn scalar_arithmetic() {
    assert_eq!(s(2).add(&s(3)), s(5));
    assert!(Scalar::zero().equals(&s(0)));
    assert!(Scalar::one().equals(&s(1)));
    assert!(!s(1).equals(&s(2)));
}

#[test]
fn large_powers_reduce_in_the_field() {
    // 2^300 is reduced modulo the order: checked through x0 = 2 raised to 300 and a round trip
    let g = MultiPoly::new(1, vec![term(1, vec![(0, 300)])]).unwrap();
    let direct = g.evaluate(&vec![s(2)]);
    let p = g.gen_uni_polynomial(&vec![]);
    assert_eq!(p.coeffs.len(), 301);
    assert_eq!(p.evaluate(&s(2)), direct);
    assert_ne!(direct, s(0));
}

#[test]
fn copy_keeps_the_polynomial() {
    let g = four_var();
    let h = g.copy();
    assert_eq!(h.slow_sum_poly(), g.slow_sum_poly());
    assert_eq!(h.num_vars, g.num_vars);
}

#[test]
fn index_walk_sum_agrees_with_recursive_sum() {
    assert_eq!(three_var().slow_sum_g(), s(12));
    assert_eq!(four_var().slow_sum_g(), s(28));
    assert_eq!(four_var().slow_sum_g(), four_var().slow_sum_poly());
}

#[test]
fn binary_digits_most_significant_first() {
    assert_eq!(n_to_vec(6, 3), vec![s(1), s(1), s(0)]);
    assert_eq!(n_to_vec(1, 4), vec![s(0), s(0), s(0), s(1)]);
    assert_eq!(n_to_vec(0, 2), vec![s(0), s(0)]);
    assert_eq!(n_to_vec(5, 0), vec![]);
}

#[test]
fn binary_digits_keep_the_low_ones() {
    // 13 = 0b1101: the last two digits
    assert_eq!(n_to_vec(13, 2), vec![s(0), s(1)]);
}

#[test]
fn construction_rejects_total_degree_beyond_usize() {
    let r = MultiPoly::new(2, vec![term(1, vec![(0, usize::MAX - 1), (1, 2)]), term(1, vec![])]);
    assert_eq!(r.err(), Some(SumcheckError::ConstructionError));
}

#[test]
fn construction_accepts_total_degree_at_usize_max() {
    let r = MultiPoly::new(2, vec![term(1, vec![(0, usize::MAX - 1), (1, 1)])]);
    assert!(r.is_ok());
}

#[test]
fn partial_eval_with_one_free_variable_per_term() {
    // x0 and x1 both free, never in the same term: x0 = x1 = x, x2 = 3
    // 2 x^3 + 3 x + 3 x
    let g = three_var();
    let p = g.partial_eval(&vec![None, None, Some(s(3))]);
    assert_eq!(p.coeffs, vec![s(0), s(6), s(0), s(2)]);
}
