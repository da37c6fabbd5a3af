//! The hypercube evaluation engine: full sums over `{0,1}^n`, partial evaluation with one
//! free variable, and the per-round univariate polynomial of the sum-check prover.
use crate::field::{fr_add, fr_mul, fr_pow, modulus, Scalar};
use crate::poly::{
    eval_terms, monomial, multi_evaluate, powers_wf, uni_eval, values, MultiPoly, Term,
    TermModel, UniPoly,
};
use vstd::arithmetic::div_mod::*;
use vstd::arithmetic::power::*;
use vstd::arithmetic::power2::*;
use vstd::prelude::*;

verus! {

// ---------------------------------------------------------------------------------------
// Models
// ---------------------------------------------------------------------------------------

/// The point that an assignment stands for once every free variable takes the value `x`.
pub open spec fn fill(vals: Seq<Option<Scalar>>, x: int) -> Seq<int> {
    Seq::new(
        vals.len(),
        |i: int|
            match vals[i] {
                Some(s) => s@,
                None => x,
            },
    )
}

/// At most one of a term's pairs has a free variable.
pub open spec fn one_free_in_term(powers: Seq<(usize, usize)>, vals: Seq<Option<Scalar>>) -> bool {
    forall|j: int, k: int|
        0 <= j < powers.len() && 0 <= k < powers.len() && is_free(vals, (#[trigger] powers[j]).0 as int)
            && is_free(vals, (#[trigger] powers[k]).0 as int) ==> j == k
}

/// Every term has at most one free variable under the assignment.
pub open spec fn one_free_per_term(terms: Seq<TermModel>, vals: Seq<Option<Scalar>>) -> bool {
    forall|i: int| 0 <= i < terms.len() ==> one_free_in_term(#[trigger] terms[i].1, vals)
}

/// Variable `v` is assigned and left free.
pub open spec fn is_free(vals: Seq<Option<Scalar>>, v: int) -> bool {
    0 <= v < vals.len() && vals[v] is None
}

/// The product of `s^e` over the pairs `(v, e)` whose variable is fixed to `s`.
pub open spec fn fixed_part(powers: Seq<(usize, usize)>, vals: Seq<Option<Scalar>>) -> int
    decreases powers.len(),
{
    if powers.len() == 0 {
        1
    } else {
        fixed_part(powers.drop_last(), vals) * match vals[powers.last().0 as int] {
            Some(s) => pow(s@, powers.last().1 as nat),
            None => 1,
        }
    }
}

/// The sum of the exponents of the term's free variables.
pub open spec fn free_exp(powers: Seq<(usize, usize)>, vals: Seq<Option<Scalar>>) -> nat
    decreases powers.len(),
{
    if powers.len() == 0 {
        0
    } else {
        free_exp(powers.drop_last(), vals) + if is_free(vals, powers.last().0 as int) {
            powers.last().1 as nat
        } else {
            0nat
        }
    }
}

/// The largest `free_exp` over the terms (zero for no terms).
pub open spec fn max_free_exp(terms: Seq<TermModel>, vals: Seq<Option<Scalar>>) -> nat
    decreases terms.len(),
{
    if terms.len() == 0 {
        0
    } else {
        let rest = max_free_exp(terms.drop_last(), vals);
        let here = free_exp(terms.last().1, vals);
        if rest >= here {
            rest
        } else {
            here
        }
    }
}

/// The exponent of variable `v` in a term (zero when it does not occur).
pub open spec fn var_exp(powers: Seq<(usize, usize)>, v: int) -> nat
    decreases powers.len(),
{
    if powers.len() == 0 {
        0
    } else {
        var_exp(powers.drop_last(), v) + if powers.last().0 == v {
            powers.last().1 as nat
        } else {
            0nat
        }
    }
}

/// The largest exponent of variable `v` over all terms.
pub open spec fn var_degree(terms: Seq<TermModel>, v: int) -> nat
    decreases terms.len(),
{
    if terms.len() == 0 {
        0
    } else {
        let rest = var_degree(terms.drop_last(), v);
        let here = var_exp(terms.last().1, v);
        if rest >= here {
            rest
        } else {
            here
        }
    }
}

/// The sum of the terms over every Boolean completion of `prefix` by `m` more coordinates,
/// the first of them deciding the halves.
pub open spec fn cube_sum(terms: Seq<TermModel>, prefix: Seq<int>, m: nat) -> int
    decreases m,
{
    if m == 0 {
        eval_terms(terms, prefix)
    } else {
        cube_sum(terms, prefix.push(0), (m - 1) as nat) + cube_sum(
            terms,
            prefix.push(1),
            (m - 1) as nat,
        )
    }
}

/// Coordinate `p` of the `m`-digit big-endian binary expansion of `i`.
pub open spec fn bit_of(i: int, m: nat, p: int) -> int {
    (i / pow2((m - 1 - p) as nat) as int) % 2
}

/// The last `m` binary digits of `i`, most significant first.
pub open spec fn bits(i: int, m: nat) -> Seq<int> {
    Seq::new(m, |p: int| bit_of(i, m, p))
}

/// The sum of the terms at `prefix` followed by the `m` digits of each index in `[lo, hi)`.
pub open spec fn index_sum(terms: Seq<TermModel>, prefix: Seq<int>, m: nat, lo: int, hi: int) -> int
    decreases hi - lo,
{
    if hi <= lo {
        0
    } else {
        index_sum(terms, prefix, m, lo, hi - 1) + eval_terms(terms, prefix + bits(hi - 1, m))
    }
}

/// The sum of `g` over the whole hypercube `{0,1}^n`.
pub open spec fn hypercube_sum(g: MultiPoly) -> int {
    cube_sum(g@, Seq::empty(), g.num_vars as nat)
}

/// The honest round polynomial for the challenges `prefix`, at `x`: the variable after the
/// prefix takes `x`, and the later ones range over `{0,1}`. With every variable fixed, the
/// value of `g` at the prefix.
pub open spec fn round_value(g: MultiPoly, prefix: Seq<int>, x: int) -> int {
    if prefix.len() < g.num_vars {
        cube_sum(g@, prefix.push(x), (g.num_vars - prefix.len() - 1) as nat)
    } else {
        g.eval(prefix)
    }
}

/// `p` is, as a function on the field, the honest round polynomial for `prefix`.
pub open spec fn is_round_poly(p: Seq<int>, g: MultiPoly, prefix: Seq<int>) -> bool {
    forall|x: int| #[trigger] uni_eval(p, x) % modulus() == round_value(g, prefix, x) % modulus()
}

// ---------------------------------------------------------------------------------------
// Lemmas on univariate evaluation
// ---------------------------------------------------------------------------------------

pub(crate) proof fn lemma_mod_add_congruent(a1: int, a2: int, b1: int, b2: int)
    requires
        a1 % modulus() == a2 % modulus(),
        b1 % modulus() == b2 % modulus(),
    ensures
        (a1 + b1) % modulus() == (a2 + b2) % modulus(),
{
    lemma_add_mod_noop(a1, b1, modulus());
    lemma_add_mod_noop(a2, b2, modulus());
}

/// Replacing one coefficient shifts the value by the change times the matching power.
pub proof fn lemma_uni_update(c: Seq<int>, d: int, v: int, x: int)
    requires
        0 <= d < c.len(),
    ensures
        uni_eval(c.update(d, v), x) == uni_eval(c, x) + (v - c[d]) * pow(x, d as nat),
    decreases c.len(),
{
    let c2 = c.update(d, v);
    if d == c.len() - 1 {
        assert(c2.drop_last() =~= c.drop_last());
        let p = pow(x, d as nat);
        assert(v * p == c[d] * p + (v - c[d]) * p) by (nonlinear_arith);
    } else {
        assert(c2.drop_last() =~= c.drop_last().update(d, v));
        lemma_uni_update(c.drop_last(), d, v, x);
    }
}

/// A high zero coefficient changes nothing.
pub proof fn lemma_uni_push_zero(c: Seq<int>, x: int)
    ensures
        uni_eval(c.push(0), x) == uni_eval(c, x),
{
    assert(c.push(0).drop_last() =~= c);
    let p = pow(x, c.len() as nat);
    assert(0 * p == 0);
}

/// Coefficients that agree modulo the order give values that agree modulo the order.
pub proof fn lemma_uni_congruent(c1: Seq<int>, c2: Seq<int>, x: int)
    requires
        c1.len() == c2.len(),
        forall|i: int| 0 <= i < c1.len() ==> #[trigger] c1[i] % modulus() == c2[i] % modulus(),
    ensures
        uni_eval(c1, x) % modulus() == uni_eval(c2, x) % modulus(),
    decreases c1.len(),
{
    if c1.len() > 0 {
        let n = c1.len() - 1;
        lemma_uni_congruent(c1.drop_last(), c2.drop_last(), x);
        let p = pow(x, n as nat);
        assert(c1[n] % modulus() == c2[n] % modulus());
        lemma_mul_mod_noop_left(c1[n], p, modulus());
        lemma_mul_mod_noop_left(c2[n], p, modulus());
        lemma_mod_add_congruent(uni_eval(c1.drop_last(), x), uni_eval(c2.drop_last(), x), c1[n] * p, c2[n] * p);
    }
}

/// Evaluation is additive in the coefficients.
pub proof fn lemma_uni_add(a: Seq<int>, b: Seq<int>, c: Seq<int>, x: int)
    requires
        a.len() == b.len(),
        a.len() == c.len(),
        forall|i: int| 0 <= i < c.len() ==> #[trigger] c[i] == a[i] + b[i],
    ensures
        uni_eval(c, x) == uni_eval(a, x) + uni_eval(b, x),
    decreases c.len(),
{
    if c.len() > 0 {
        let n = c.len() - 1;
        lemma_uni_add(a.drop_last(), b.drop_last(), c.drop_last(), x);
        let p = pow(x, n as nat);
        assert(c[n] * p == a[n] * p + b[n] * p) by (nonlinear_arith)
            requires
                c[n] == a[n] + b[n],
        ;
    }
}

// ---------------------------------------------------------------------------------------
// Lemmas on terms under a partial assignment
// ---------------------------------------------------------------------------------------

/// With the free variables at `x`, a term's monomial is its fixed part times `x` to the
/// free exponent.
pub proof fn lemma_monomial_split(powers: Seq<(usize, usize)>, vals: Seq<Option<Scalar>>, x: int)
    requires
        forall|j: int| 0 <= j < powers.len() ==> (#[trigger] powers[j]).0 < vals.len(),
    ensures
        monomial(powers, fill(vals, x)) == fixed_part(powers, vals) * pow(
            x,
            free_exp(powers, vals),
        ),
    decreases powers.len(),
{
    if powers.len() > 0 {
        let p = powers.drop_last();
        lemma_monomial_split(p, vals, x);
        let v = powers.last().0 as int;
        let e = powers.last().1 as nat;
        assert(powers[powers.len() - 1].0 < vals.len());
        let mm = monomial(p, fill(vals, x));
        let ff = fixed_part(p, vals);
        let fe = free_exp(p, vals);
        let px = pow(x, fe);
        assert(powers.last() == powers[powers.len() - 1]);
        assert(monomial(powers, fill(vals, x)) == mm * pow(fill(vals, x)[v], e));
        match vals[v] {
            Some(s) => {
                let ps = pow(s@, e);
                assert(fill(vals, x)[v] == s@);
                assert(fixed_part(powers, vals) == ff * ps);
                assert(!is_free(vals, v));
                assert(free_exp(powers, vals) == fe);
                assert(mm * ps == (ff * ps) * px) by (nonlinear_arith)
                    requires
                        mm == ff * px,
                ;
            },
            None => {
                let pe = pow(x, e);
                assert(fill(vals, x)[v] == x);
                assert(fixed_part(powers, vals) == ff * 1);
                assert(is_free(vals, v));
                assert(free_exp(powers, vals) == fe + e);
                lemma_pow_adds(x, fe, e);
                assert(mm * pe == (ff * 1) * (px * pe)) by (nonlinear_arith)
                    requires
                        mm == ff * px,
                ;
            },
        }
    } else {
        lemma_pow0(x);
    }
}

/// A term none of whose variables is free has free exponent zero.
proof fn lemma_free_exp_zero(powers: Seq<(usize, usize)>, vals: Seq<Option<Scalar>>)
    requires
        forall|j: int| 0 <= j < powers.len() ==> !is_free(vals, (#[trigger] powers[j]).0 as int),
    ensures
        free_exp(powers, vals) == 0,
    decreases powers.len(),
{
    if powers.len() > 0 {
        assert(!is_free(vals, powers[powers.len() - 1].0 as int));
        lemma_free_exp_zero(powers.drop_last(), vals);
    }
}

/// With at most one free variable in the term, the free exponent is one exponent (or zero),
/// so it fits below `usize::MAX`.
proof fn lemma_free_exp_bound(powers: Seq<(usize, usize)>, vals: Seq<Option<Scalar>>)
    requires
        forall|j: int| 0 <= j < powers.len() ==> (#[trigger] powers[j]).1 < usize::MAX,
        one_free_in_term(powers, vals),
    ensures
        free_exp(powers, vals) < usize::MAX,
    decreases powers.len(),
{
    if powers.len() > 0 {
        let p = powers.drop_last();
        let last = powers.len() - 1;
        assert(powers[last].1 < usize::MAX);
        if is_free(vals, powers[last].0 as int) {
            assert forall|j: int| 0 <= j < p.len() implies !is_free(vals, (#[trigger] p[j]).0 as int) by {
                assert(powers[j] == p[j]);
            }
            lemma_free_exp_zero(p, vals);
        } else {
            assert forall|j: int, k: int|
                0 <= j < p.len() && 0 <= k < p.len() && is_free(vals, (#[trigger] p[j]).0 as int)
                    && is_free(vals, (#[trigger] p[k]).0 as int) implies j == k by {
                assert(powers[j] == p[j] && powers[k] == p[k]);
            }
            lemma_free_exp_bound(p, vals);
        }
    }
}

/// Fixing one more coordinate keeps at most one free variable per term.
proof fn lemma_one_free_push(terms: Seq<TermModel>, vals: Seq<Option<Scalar>>, s: Scalar)
    requires
        one_free_per_term(terms, vals),
    ensures
        one_free_per_term(terms, vals.push(Some(s))),
{
    assert forall|v: int| #[trigger] is_free(vals.push(Some(s)), v) == is_free(vals, v) by {}
}

/// Fixing one more coordinate leaves the free exponents as they were.
proof fn lemma_free_exp_push(powers: Seq<(usize, usize)>, vals: Seq<Option<Scalar>>, s: Scalar)
    ensures
        free_exp(powers, vals.push(Some(s))) == free_exp(powers, vals),
    decreases powers.len(),
{
    if powers.len() > 0 {
        lemma_free_exp_push(powers.drop_last(), vals, s);
        let v = powers.last().0 as int;
        assert(is_free(vals.push(Some(s)), v) == is_free(vals, v));
    }
}

proof fn lemma_max_free_exp_push(terms: Seq<TermModel>, vals: Seq<Option<Scalar>>, s: Scalar)
    ensures
        max_free_exp(terms, vals.push(Some(s))) == max_free_exp(terms, vals),
    decreases terms.len(),
{
    if terms.len() > 0 {
        lemma_max_free_exp_push(terms.drop_last(), vals, s);
        lemma_free_exp_push(terms.last().1, vals, s);
    }
}

/// When exactly variable `k` is free, the free exponent is the exponent of `x_k`.
proof fn lemma_free_exp_is_var_exp(powers: Seq<(usize, usize)>, vals: Seq<Option<Scalar>>, k: int)
    requires
        forall|v: int| is_free(vals, v) <==> v == k,
    ensures
        free_exp(powers, vals) == var_exp(powers, k),
    decreases powers.len(),
{
    if powers.len() > 0 {
        assert(is_free(vals, powers.last().0 as int) <==> powers.last().0 == k);
        lemma_free_exp_is_var_exp(powers.drop_last(), vals, k);
    }
}

proof fn lemma_max_free_exp_is_var_degree(terms: Seq<TermModel>, vals: Seq<Option<Scalar>>, k: int)
    requires
        forall|v: int| is_free(vals, v) <==> v == k,
    ensures
        max_free_exp(terms, vals) == var_degree(terms, k),
    decreases terms.len(),
{
    if terms.len() > 0 {
        lemma_max_free_exp_is_var_degree(terms.drop_last(), vals, k);
        lemma_free_exp_is_var_exp(terms.last().1, vals, k);
    }
}

// ---------------------------------------------------------------------------------------
// Lemmas on enumerating the hypercube by index
// ---------------------------------------------------------------------------------------

/// An index below `2^(m-1)` spells 0 and then its own `m-1` digits; one in
/// `[2^(m-1), 2^m)` spells 1 and then the digits of `i - 2^(m-1)`.
proof fn lemma_bits_split(i: int, m: nat)
    requires
        m >= 1,
        0 <= i < 2 * pow2((m - 1) as nat),
    ensures
        i < pow2((m - 1) as nat) ==> bits(i, m) =~= seq![0int] + bits(i, (m - 1) as nat),
        i >= pow2((m - 1) as nat) ==> bits(i, m) =~= seq![1int] + bits(
            i - pow2((m - 1) as nat),
            (m - 1) as nat,
        ),
{
    let h = pow2((m - 1) as nat) as int;
    lemma_pow2_pos((m - 1) as nat);
    if i < h {
        lemma_fundamental_div_mod_converse(i, h, 0, i);
        assert(bit_of(i, m, 0) == 0);
        assert forall|p: int| 1 <= p < m implies bit_of(i, m, p) == bit_of(i, (m - 1) as nat, p - 1) by {}
    } else {
        lemma_fundamental_div_mod_converse(i, h, 1, i - h);
        assert(bit_of(i, m, 0) == 1);
        assert forall|p: int| 1 <= p < m implies bit_of(i, m, p) == bit_of(
            i - h,
            (m - 1) as nat,
            p - 1,
        ) by {
            let sft = (m - 1 - p) as nat;
            let d = pow2(sft) as int;
            let e = pow2(p as nat) as int;
            lemma_pow2_pos(sft);
            lemma_pow2_adds(sft, p as nat);
            assert(h == d * e);
            let q = (i - h) / d;
            let r = (i - h) % d;
            lemma_fundamental_div_mod(i - h, d);
            assert(i == d * (q + e) + r) by (nonlinear_arith)
                requires
                    i - h == d * q + r,
                    h == d * e,
            ;
            lemma_fundamental_div_mod_converse(i, d, q + e, r);
            lemma_pow2_unfold(p as nat);
            lemma_mod_multiples_vanish(pow2((p - 1) as nat) as int, q, 2);
        }
    }
}

proof fn lemma_index_sum_split(terms: Seq<TermModel>, prefix: Seq<int>, m: nat, lo: int, mid: int, hi: int)
    requires
        lo <= mid <= hi,
    ensures
        index_sum(terms, prefix, m, lo, mid) + index_sum(terms, prefix, m, mid, hi) == index_sum(
            terms,
            prefix,
            m,
            lo,
            hi,
        ),
    decreases hi - mid,
{
    if hi > mid {
        lemma_index_sum_split(terms, prefix, m, lo, mid, hi - 1);
    }
}

/// The lower half of the indices walks the half-cube below 0, the upper half the one below 1.
proof fn lemma_index_sum_halves(terms: Seq<TermModel>, prefix: Seq<int>, m: nat, k: int)
    requires
        m >= 1,
        0 <= k <= pow2((m - 1) as nat),
    ensures
        index_sum(terms, prefix, m, 0, k) == index_sum(terms, prefix.push(0), (m - 1) as nat, 0, k),
        index_sum(terms, prefix, m, pow2((m - 1) as nat) as int, pow2((m - 1) as nat) + k)
            == index_sum(terms, prefix.push(1), (m - 1) as nat, 0, k),
    decreases k,
{
    let h = pow2((m - 1) as nat) as int;
    if k > 0 {
        lemma_index_sum_halves(terms, prefix, m, k - 1);
        lemma_bits_split(k - 1, m);
        lemma_bits_split(h + k - 1, m);
        assert(prefix + bits(k - 1, m) =~= prefix.push(0) + bits(k - 1, (m - 1) as nat));
        assert(prefix + bits(h + k - 1, m) =~= prefix.push(1) + bits(k - 1, (m - 1) as nat));
    }
}

/// Walking the indices `0 .. 2^m` and reading each as `m` binary digits sums the same
/// points as the recursive halving.
pub proof fn lemma_index_sum_is_cube_sum(terms: Seq<TermModel>, prefix: Seq<int>, m: nat)
    ensures
        index_sum(terms, prefix, m, 0, pow2(m) as int) == cube_sum(terms, prefix, m),
    decreases m,
{
    if m == 0 {
        assert(pow2(0) == 1) by {
            lemma2_to64();
        }
        assert(prefix + bits(0, 0) =~= prefix);
        assert(index_sum(terms, prefix, m, 0, 0) == 0);
        assert(index_sum(terms, prefix, m, 0, 1) == eval_terms(terms, prefix));
    } else {
        let h = pow2((m - 1) as nat) as int;
        lemma_pow2_unfold(m);
        lemma_index_sum_split(terms, prefix, m, 0, h, 2 * h);
        lemma_index_sum_halves(terms, prefix, m, h);
        lemma_index_sum_is_cube_sum(terms, prefix.push(0), (m - 1) as nat);
        lemma_index_sum_is_cube_sum(terms, prefix.push(1), (m - 1) as nat);
        assert(pow2(m) == 2 * h);
        assert(index_sum(terms, prefix, m, h, h + h) == cube_sum(terms, prefix.push(1), (m - 1) as nat));
    }
}

// ---------------------------------------------------------------------------------------
// Executable engine
// ---------------------------------------------------------------------------------------

/// A term under a partial assignment: its coefficient times the fixed variables' powers,
/// and the exponent left on the free variable.
fn term_split(t: &Term, vals: &Vec<Option<Scalar>>) -> (r: (Scalar, usize))
    requires
        powers_wf(t.powers@, vals@.len()),
        one_free_in_term(t.powers@, vals@),
    ensures
        r.0@ == (t.coeff@ * fixed_part(t.powers@, vals@)) % modulus(),
        r.1 == free_exp(t.powers@, vals@),
{
    let mut c = t.coeff;
    proof {
        use_type_invariant(&t.coeff);
        lemma_small_mod(t.coeff@ as nat, modulus() as nat);
        assert(t.powers@.subrange(0, 0) =~= Seq::<(usize, usize)>::empty());
    }
    let mut d: usize = 0;
    let len = t.powers.len();
    let mut j: usize = 0;
    while j < len
        invariant
            len == t.powers@.len(),
            0 <= j <= len,
            powers_wf(t.powers@, vals@.len()),
            one_free_in_term(t.powers@, vals@),
            c@ == (t.coeff@ * fixed_part(t.powers@.subrange(0, j as int), vals@)) % modulus(),
            d == free_exp(t.powers@.subrange(0, j as int), vals@),
        decreases len - j,
    {
        let (v, e) = t.powers[j];
        let ghost before = t.powers@.subrange(0, j as int);
        let ghost after = t.powers@.subrange(0, j + 1);
        assert(after.drop_last() =~= before);
        assert(after.last() == (v, e));
        assert(v < vals@.len());
        match vals[v] {
            Some(s) => {
                let p = fr_pow(&s, e);
                let ghost c0 = c@;
                c = fr_mul(&c, &p);
                proof {
                    let f = fixed_part(before, vals@);
                    let ps = pow(s@, e as nat);
                    assert(fixed_part(after, vals@) == f * ps);
                    lemma_mul_mod_noop(t.coeff@ * f, ps, modulus());
                    assert((t.coeff@ * f) * ps == t.coeff@ * (f * ps)) by (nonlinear_arith);
                }
            },
            None => {
                proof {
                    assert(is_free(vals@, v as int));
                    assert forall|a: int| 0 <= a < after.len() implies (#[trigger] after[a]).1 < usize::MAX by {
                        assert(after[a] == t.powers@[a]);
                    }
                    assert forall|a: int, b: int|
                        0 <= a < after.len() && 0 <= b < after.len() && is_free(vals@, (#[trigger] after[a]).0 as int)
                            && is_free(vals@, (#[trigger] after[b]).0 as int) implies a == b by {
                        assert(after[a] == t.powers@[a] && after[b] == t.powers@[b]);
                    }
                    lemma_free_exp_bound(after, vals@);
                }
                d = d + e;
            },
        }
        j = j + 1;
    }
    assert(t.powers@.subrange(0, len as int) =~= t.powers@);
    (c, d)
}

/// The last `n` binary digits of `i` as field elements (0 or 1), most significant first.
pub fn n_to_vec(i: usize, n: usize) -> (r: Vec<Scalar>)
    ensures
        r@.len() == n,
        values(r@) == bits(i as int, n as nat),
{
    let mut low: Vec<bool> = Vec::new();
    let mut cur = i;
    let mut j: usize = 0;
    proof {
        assert(pow2(0) == 1) by {
            lemma2_to64();
        }
    }
    while j < n
        invariant
            0 <= j <= n,
            low@.len() == j,
            cur as int == i as int / pow2(j as nat) as int,
            forall|k: int| 0 <= k < j ==> (#[trigger] low@[k]) == ((i as int / pow2(k as nat) as int) % 2 == 1),
        decreases n - j,
    {
        low.push(cur % 2 == 1);
        proof {
            lemma_pow2_pos(j as nat);
            lemma_pow2_unfold((j + 1) as nat);
            lemma_div_denominator(i as int, pow2(j as nat) as int, 2);
            assert(pow2(j as nat) * 2 == pow2((j + 1) as nat));
        }
        cur = cur / 2;
        j = j + 1;
    }
    let mut r: Vec<Scalar> = Vec::new();
    let mut p: usize = 0;
    while p < n
        invariant
            0 <= p <= n,
            low@.len() == n,
            r@.len() == p,
            forall|k: int| 0 <= k < n ==> (#[trigger] low@[k]) == ((i as int / pow2(k as nat) as int) % 2 == 1),
            forall|q: int| 0 <= q < p ==> #[trigger] values(r@)[q] == bit_of(i as int, n as nat, q),
        decreases n - p,
    {
        let ghost k = (n - 1 - p) as int;
        proof {
            lemma_pow2_pos(k as nat);
            lemma_mod_bound(i as int / pow2(k as nat) as int, 2);
        }
        let ghost before = r@;
        if low[n - 1 - p] {
            r.push(Scalar::one());
        } else {
            r.push(Scalar::zero());
        }
        proof {
            assert(values(r@) =~= values(before).push(r@[p as int]@));
            assert(low@[k] == ((i as int / pow2(k as nat) as int) % 2 == 1));
        }
        p = p + 1;
    }
    assert(values(r@) =~= bits(i as int, n as nat));
    r
}

/// The coefficientwise sum of two coefficient vectors of one length.
fn add_coeffs(a: &Vec<Scalar>, b: &Vec<Scalar>) -> (r: Vec<Scalar>)
    requires
        a@.len() == b@.len(),
    ensures
        r@.len() == a@.len(),
        forall|i: int| 0 <= i < r@.len() ==> #[trigger] r@[i]@ == (a@[i]@ + b@[i]@) % modulus(),
{
    let mut r: Vec<Scalar> = Vec::new();
    let mut i: usize = 0;
    while i < a.len()
        invariant
            a@.len() == b@.len(),
            0 <= i <= a@.len(),
            r@.len() == i,
            forall|k: int| 0 <= k < i ==> #[trigger] r@[k]@ == (a@[k]@ + b@[k]@) % modulus(),
        decreases a@.len() - i,
    {
        r.push(fr_add(&a[i], &b[i]));
        i = i + 1;
    }
    r
}

/// Values of a coefficientwise sum are sums of values.
proof fn lemma_add_coeffs_eval(a: Seq<int>, b: Seq<int>, r: Seq<int>, x: int)
    requires
        a.len() == b.len(),
        r.len() == a.len(),
        forall|i: int| 0 <= i < r.len() ==> #[trigger] r[i] == (a[i] + b[i]) % modulus(),
    ensures
        uni_eval(r, x) % modulus() == (uni_eval(a, x) + uni_eval(b, x)) % modulus(),
{
    let exact = Seq::new(r.len(), |i: int| a[i] + b[i]);
    assert forall|i: int| 0 <= i < r.len() implies #[trigger] r[i] % modulus() == exact[i] % modulus() by {
        lemma_mod_twice(a[i] + b[i], modulus());
    }
    lemma_uni_congruent(r, exact, x);
    lemma_uni_add(a, b, exact, x);
}

impl MultiPoly {
    /// Partial evaluation: the fixed variables take their values, and what is left is a
    /// univariate polynomial in the free variables, all read as one variable (a constant when
    /// none is free). Each term may have at most one free variable. Its
    /// coefficient vector has one entry more than the largest free exponent.
    pub fn partial_eval(&self, vals: &Vec<Option<Scalar>>) -> (r: UniPoly)
        requires
            self.wf(),
            vals@.len() == self.num_vars,
            one_free_per_term(self@, vals@),
        ensures
            r.coeffs@.len() == max_free_exp(self@, vals@) + 1,
            forall|x: int|
                #[trigger] uni_eval(r@, x) % modulus() == self.eval(fill(vals@, x)) % modulus(),
    {
        let mut coeffs: Vec<Scalar> = Vec::new();
        coeffs.push(Scalar::zero());
        proof {
            assert(self@.subrange(0, 0) =~= Seq::<TermModel>::empty());
            assert forall|x: int| #[trigger] uni_eval(values(coeffs@), x) % modulus() == 0 by {
                assert(values(coeffs@).drop_last() =~= Seq::<int>::empty());
                assert(values(coeffs@).last() == 0);
                assert(uni_eval(Seq::<int>::empty(), x) == 0);
                let p = pow(x, 0);
                assert(0 * p == 0);
                lemma_small_mod(0, modulus() as nat);
            }
        }
        let mut i: usize = 0;
        while i < self.terms.len()
            invariant
                self.wf(),
                vals@.len() == self.num_vars,
                one_free_per_term(self@, vals@),
                0 <= i <= self@.len(),
                coeffs@.len() == max_free_exp(self@.subrange(0, i as int), vals@) + 1,
                forall|x: int|
                    #[trigger] uni_eval(values(coeffs@), x) % modulus() == eval_terms(
                        self@.subrange(0, i as int),
                        fill(vals@, x),
                    ) % modulus(),
            decreases self@.len() - i,
        {
            let ghost prev = self@.subrange(0, i as int);
            let ghost next = self@.subrange(0, i + 1);
            proof {
                assert(next.drop_last() =~= prev);
                assert(next.last() == self.terms@[i as int]@);
                assert(powers_wf(self@[i as int].1, self.num_vars as nat));
                assert(one_free_in_term(self@[i as int].1, vals@));
            }
            let (c, d) = term_split(&self.terms[i], vals);
            proof {
                let pw = self.terms@[i as int].powers@;
                assert(self@[i as int].1 == pw);
                assert(powers_wf(pw, self.num_vars as nat));
                lemma_free_exp_bound(pw, vals@);
            }
            let ghost len0 = coeffs@.len();
            while coeffs.len() <= d
                invariant
                    len0 <= coeffs@.len(),
                    coeffs@.len() <= (if len0 > d + 1 { len0 as int } else { d + 1 }),
                    d < usize::MAX,
                    forall|x: int|
                        #[trigger] uni_eval(values(coeffs@), x) % modulus() == eval_terms(
                            prev,
                            fill(vals@, x),
                        ) % modulus(),
                decreases d + 1 - coeffs@.len(),
            {
                let ghost old_c = coeffs@;
                coeffs.push(Scalar::zero());
                proof {
                    assert forall|x: int|
                        #[trigger] uni_eval(values(coeffs@), x) % modulus() == eval_terms(
                            prev,
                            fill(vals@, x),
                        ) % modulus() by {
                        assert(values(coeffs@) =~= values(old_c).push(0));
                        lemma_uni_push_zero(values(old_c), x);
                    }
                }
            }
            let cur = coeffs[d];
            let s = fr_add(&cur, &c);
            let ghost old_c = coeffs@;
            coeffs.set(d, s);
            proof {
                let t = self.terms@[i as int];
                assert(self@[i as int].1 == t.powers@);
                assert forall|j: int| 0 <= j < t.powers@.len() implies (#[trigger] t.powers@[j]).0 < vals@.len() by {
                    assert(powers_wf(t.powers@, self.num_vars as nat));
                }
                assert forall|x: int|
                    #[trigger] uni_eval(values(coeffs@), x) % modulus() == eval_terms(
                        next,
                        fill(vals@, x),
                    ) % modulus() by {
                    let ov = values(old_c);
                    let tt = t.coeff@ * fixed_part(t.powers@, vals@);
                    let exact = ov.update(d as int, ov[d as int] + tt);
                    assert(values(coeffs@) =~= ov.update(d as int, s@));
                    assert forall|k: int| 0 <= k < exact.len() implies #[trigger] values(coeffs@)[k] % modulus() == exact[k] % modulus() by {
                        if k == d {
                            lemma_add_mod_noop(ov[k], tt, modulus());
                            lemma_mod_twice(tt, modulus());
                            lemma_add_mod_noop(ov[k], tt % modulus(), modulus());
                            lemma_mod_twice(ov[k] + tt, modulus());
                        }
                    }
                    lemma_uni_congruent(values(coeffs@), exact, x);
                    lemma_uni_update(ov, d as int, ov[d as int] + tt, x);
                    let pd = pow(x, d as nat);
                    lemma_monomial_split(t.powers@, vals@, x);
                    let f = fixed_part(t.powers@, vals@);
                    assert(tt * pd == t.coeff@ * (f * pd)) by (nonlinear_arith)
                        requires
                            tt == t.coeff@ * f,
                    ;
                    lemma_mod_add_congruent(
                        uni_eval(ov, x),
                        eval_terms(prev, fill(vals@, x)),
                        tt * pd,
                        tt * pd,
                    );
                }
            }
            i = i + 1;
        }
        proof {
            assert(self@.subrange(0, self@.len() as int) =~= self@);
        }
        UniPoly { coeffs }
    }

    /// Sums the partial evaluations over every Boolean value of the next `m` variables.
    fn sum_partial_evals(&self, vals: &mut Vec<Option<Scalar>>, m: usize) -> (r: UniPoly)
        requires
            self.wf(),
            old(vals)@.len() + m == self.num_vars,
            one_free_per_term(self@, old(vals)@),
        ensures
            final(vals)@ == old(vals)@,
            r.coeffs@.len() == max_free_exp(self@, old(vals)@) + 1,
            forall|x: int|
                #[trigger] uni_eval(r@, x) % modulus() == cube_sum(
                    self@,
                    fill(old(vals)@, x),
                    m as nat,
                ) % modulus(),
        decreases m,
    {
        if m == 0 {
            self.partial_eval(vals)
        } else {
            let ghost v0 = vals@;
            let zero = Scalar::zero();
            let one = Scalar::one();
            proof {
                lemma_one_free_push(self@, v0, zero);
                lemma_one_free_push(self@, v0, one);
            }
            vals.push(Some(zero));
            let a = self.sum_partial_evals(vals, m - 1);
            vals.pop();
            proof {
                assert(vals@ =~= v0);
            }
            vals.push(Some(one));
            let b = self.sum_partial_evals(vals, m - 1);
            vals.pop();
            proof {
                assert(vals@ =~= v0);
                lemma_max_free_exp_push(self@, v0, zero);
                lemma_max_free_exp_push(self@, v0, one);
            }
            let r = add_coeffs(&a.coeffs, &b.coeffs);
            proof {
                assert forall|x: int|
                    #[trigger] uni_eval(values(r@), x) % modulus() == cube_sum(
                        self@,
                        fill(v0, x),
                        m as nat,
                    ) % modulus() by {
                    assert(fill(v0.push(Some(zero)), x) =~= fill(v0, x).push(0));
                    assert(fill(v0.push(Some(one)), x) =~= fill(v0, x).push(1));
                    lemma_add_coeffs_eval(a@, b@, values(r@), x);
                    lemma_mod_add_congruent(
                        uni_eval(a@, x),
                        cube_sum(self@, fill(v0, x).push(0), (m - 1) as nat),
                        uni_eval(b@, x),
                        cube_sum(self@, fill(v0, x).push(1), (m - 1) as nat),
                    );
                }
            }
            UniPoly { coeffs: r }
        }
    }

    /// The round polynomial for the challenges `prefix`: the variable after the prefix is
    /// free, every later one ranges over `{0,1}`. Its coefficient vector has one entry more
    /// than the largest exponent of that variable.
    pub fn gen_uni_polynomial(&self, prefix: &Vec<Scalar>) -> (r: UniPoly)
        requires
            self.wf(),
            prefix@.len() < self.num_vars,
        ensures
            r.coeffs@.len() == var_degree(self@, prefix@.len() as int) + 1,
            is_round_poly(r@, *self, values(prefix@)),
    {
        let k = prefix.len();
        let mut vals: Vec<Option<Scalar>> = Vec::new();
        let mut i: usize = 0;
        while i < k
            invariant
                k == prefix@.len(),
                0 <= i <= k,
                vals@.len() == i,
                forall|j: int| 0 <= j < i ==> #[trigger] vals@[j] == Some(prefix@[j]),
            decreases k - i,
        {
            vals.push(Some(prefix[i]));
            i = i + 1;
        }
        vals.push(None);
        proof {
            assert forall|v: int| is_free(vals@, v) <==> v == k by {
                if 0 <= v < k {
                    assert(vals@[v] == Some(prefix@[v]));
                }
            }
            assert forall|i: int| 0 <= i < self@.len() implies one_free_in_term(#[trigger] self@[i].1, vals@) by {
                assert(powers_wf(self@[i].1, self.num_vars as nat));
            }
            lemma_max_free_exp_is_var_degree(self@, vals@, k as int);
        }
        let ghost v0 = vals@;
        let r = self.sum_partial_evals(&mut vals, self.num_vars - k - 1);
        proof {
            assert forall|x: int| #[trigger] uni_eval(r@, x) % modulus() == round_value(*self, values(prefix@), x) % modulus() by {
                assert(fill(v0, x) =~= values(prefix@).push(x));
            }
        }
        r
    }

    /// The sum of the polynomial at the `2^m` Boolean completions of `point`.
    fn cube_sum_at(&self, point: &mut Vec<Scalar>, m: usize) -> (r: Scalar)
        requires
            self.wf(),
            old(point)@.len() + m == self.num_vars,
        ensures
            final(point)@ == old(point)@,
            r@ == cube_sum(self@, values(old(point)@), m as nat) % modulus(),
        decreases m,
    {
        if m == 0 {
            multi_evaluate(self, point)
        } else {
            let ghost p0 = point@;
            let zero = Scalar::zero();
            let one = Scalar::one();
            point.push(zero);
            let a = self.cube_sum_at(point, m - 1);
            point.pop();
            proof {
                assert(point@ =~= p0);
            }
            point.push(one);
            let b = self.cube_sum_at(point, m - 1);
            point.pop();
            proof {
                assert(point@ =~= p0);
                assert(values(p0.push(zero)) =~= values(p0).push(0));
                assert(values(p0.push(one)) =~= values(p0).push(1));
            }
            let r = fr_add(&a, &b);
            proof {
                lemma_add_mod_noop(
                    cube_sum(self@, values(p0).push(0), (m - 1) as nat),
                    cube_sum(self@, values(p0).push(1), (m - 1) as nat),
                    modulus(),
                );
            }
            r
        }
    }

    /// The sum of the polynomial over the Boolean hypercube, walking the indices
    /// `0 .. 2^num_vars` and reading each as a point. The index must fit in a `usize`.
    pub fn slow_sum_g(&self) -> (r: Scalar)
        requires
            self.wf(),
            pow2(self.num_vars as nat) <= usize::MAX,
        ensures
            r@ == hypercube_sum(*self) % modulus(),
    {
        let n = self.num_vars;
        let mut count: usize = 1;
        let mut j: usize = 0;
        proof {
            assert(pow2(0) == 1) by {
                lemma2_to64();
            }
        }
        while j < n
            invariant
                0 <= j <= n,
                n == self.num_vars,
                count == pow2(j as nat),
                pow2(n as nat) <= usize::MAX,
            decreases n - j,
        {
            proof {
                lemma_pow2_unfold((j + 1) as nat);
                if j + 1 < n {
                    lemma_pow2_strictly_increases((j + 1) as nat, n as nat);
                }
            }
            count = count * 2;
            j = j + 1;
        }
        let mut acc = Scalar::zero();
        let mut i: usize = 0;
        let ghost e = Seq::<int>::empty();
        proof {
            lemma_small_mod(0, modulus() as nat);
        }
        while i < count
            invariant
                self.wf(),
                n == self.num_vars,
                i <= count,
                count == pow2(n as nat),
                e == Seq::<int>::empty(),
                acc@ == index_sum(self@, e, n as nat, 0, i as int) % modulus(),
            decreases count - i,
        {
            let w = n_to_vec(i, n);
            let v = multi_evaluate(self, &w);
            let ghost prev = acc@;
            acc = fr_add(&acc, &v);
            proof {
                assert(e + bits(i as int, n as nat) =~= values(w@));
                lemma_add_mod_noop(index_sum(self@, e, n as nat, 0, i as int), self.eval(values(w@)), modulus());
                lemma_mod_twice(index_sum(self@, e, n as nat, 0, i as int), modulus());
                lemma_mod_twice(self.eval(values(w@)), modulus());
            }
            i = i + 1;
        }
        proof {
            lemma_index_sum_is_cube_sum(self@, e, n as nat);
        }
        acc
    }

    /// The sum of the polynomial over all `2^num_vars` points of the Boolean hypercube.
    pub fn slow_sum_poly(&self) -> (r: Scalar)
        requires
            self.wf(),
        ensures
            r@ == hypercube_sum(*self) % modulus(),
    {
        let mut point: Vec<Scalar> = Vec::new();
        proof {
            assert(values(point@) =~= Seq::<int>::empty());
        }
        self.cube_sum_at(&mut point, self.num_vars)
    }
}

} // verus!
