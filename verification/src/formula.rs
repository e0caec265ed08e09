use crate::bignum::{abs, gcd, tdiv, Int};
use num_integer::Integer;
use vstd::arithmetic::div_mod::{
    lemma_fundamental_div_mod, lemma_fundamental_div_mod_converse, lemma_mod_multiples_basic,
    lemma_mod_self_0, lemma_small_mod,
};
use vstd::arithmetic::mul::{
    lemma_mul_is_commutative,
    lemma_mul_is_associative, lemma_mul_is_distributive_add,
    lemma_mul_is_distributive_add_other_way, lemma_mul_is_distributive_sub,
    lemma_mul_is_distributive_sub_other_way,
};
use vstd::prelude::*;

verus! {

/// One term `coefficient * arctan(1 / denominator)` of a Machin-type formula.
#[derive(Clone, Copy, Debug, PartialEq, Eq, Structural)]
pub struct Term {
    pub coefficient: i64,
    pub denominator: u64,
}

// ---------------------------------------------------------------------------
// Gaussian integers
// ---------------------------------------------------------------------------

/// Product of Gaussian integers written as (real, imaginary) pairs.
pub open spec fn gmul(a: (int, int), b: (int, int)) -> (int, int) {
    (a.0 * b.0 - a.1 * b.1, a.0 * b.1 + a.1 * b.0)
}

pub open spec fn gconj(a: (int, int)) -> (int, int) {
    (a.0, -a.1)
}

/// `b^e` for a Gaussian integer `b`.
pub open spec fn gpow(b: (int, int), e: nat) -> (int, int)
    decreases e,
{
    if e == 0 {
        (1, 0)
    } else {
        gmul(gpow(b, (e - 1) as nat), b)
    }
}

pub proof fn lemma_gmul_assoc(a: (int, int), b: (int, int), c: (int, int))
    ensures
        gmul(gmul(a, b), c) == gmul(a, gmul(b, c)),
{
    lemma_ring_assoc(a.0, a.1, b.0, b.1, c.0, c.1);
}

proof fn lemma_ring_assoc(a0: int, a1: int, b0: int, b1: int, c0: int, c1: int)
    ensures
        (a0 * b0 - a1 * b1) * c0 - (a0 * b1 + a1 * b0) * c1 == a0 * (b0 * c0 - b1 * c1) - a1 * (
        b0 * c1 + b1 * c0),
        (a0 * b0 - a1 * b1) * c1 + (a0 * b1 + a1 * b0) * c0 == a0 * (b0 * c1 + b1 * c0) + a1 * (
        b0 * c0 - b1 * c1),
{
    lemma_mul_is_distributive_sub_other_way(c0, a0 * b0, a1 * b1);
    lemma_mul_is_distributive_add_other_way(c1, a0 * b1, a1 * b0);
    lemma_mul_is_distributive_sub(a0, b0 * c0, b1 * c1);
    lemma_mul_is_distributive_add(a1, b0 * c1, b1 * c0);
    lemma_mul_is_distributive_sub_other_way(c1, a0 * b0, a1 * b1);
    lemma_mul_is_distributive_add_other_way(c0, a0 * b1, a1 * b0);
    lemma_mul_is_distributive_add(a0, b0 * c1, b1 * c0);
    lemma_mul_is_distributive_sub(a1, b0 * c0, b1 * c1);
    lemma_mul_is_associative(a0, b0, c0);
    lemma_mul_is_associative(a1, b1, c0);
    lemma_mul_is_associative(a0, b1, c1);
    lemma_mul_is_associative(a1, b0, c1);
    lemma_mul_is_associative(a0, b0, c1);
    lemma_mul_is_associative(a1, b1, c1);
    lemma_mul_is_associative(a0, b1, c0);
    lemma_mul_is_associative(a1, b0, c0);
}

pub proof fn lemma_gmul_comm(a: (int, int), b: (int, int))
    ensures
        gmul(a, b) == gmul(b, a),
{
    assert(gmul(a, b).0 == gmul(b, a).0) by (nonlinear_arith);
    assert(gmul(a, b).1 == gmul(b, a).1) by (nonlinear_arith);
}

pub proof fn lemma_gmul_one(a: (int, int))
    ensures
        gmul((1, 0), a) == a,
        gmul(a, (1, 0)) == a,
{
}

/// `b^(2k) == (b*b)^k`.
proof fn lemma_gpow_square(b: (int, int), k: nat)
    ensures
        gpow(b, 2 * k) == gpow(gmul(b, b), k),
    decreases k,
{
    if k > 0 {
        lemma_gpow_square(b, (k - 1) as nat);
        assert(gpow(b, (2 * k - 1) as nat) == gmul(gpow(b, (2 * k - 2) as nat), b));
        assert(gpow(b, 2 * k) == gmul(gpow(b, (2 * k - 1) as nat), b));
        assert((2 * k - 2) as nat == 2 * ((k - 1) as nat));
        lemma_gmul_assoc(gpow(b, (2 * k - 2) as nat), b, b);
    }
}

/// `b^(e+1) == b * b^e`.
proof fn lemma_gpow_succ_front(b: (int, int), e: nat)
    ensures
        gpow(b, e + 1) == gmul(b, gpow(b, e)),
{
    lemma_gmul_comm(gpow(b, e), b);
}

#[derive(Debug)]
pub(crate) struct Gaussian {
    pub(crate) re: Int,
    pub(crate) im: Int,
}

impl Gaussian {
    pub(crate) open spec fn value(&self) -> (int, int) {
        (self.re@, self.im@)
    }

    pub(crate) fn new(re: Int, im: Int) -> (r: Self)
        ensures
            r.value() == (re@, im@),
    {
        Self { re, im }
    }

    pub(crate) fn one() -> (r: Self)
        ensures
            r.value() == (1int, 0int),
    {
        Self::new(Int::from_u64(1), Int::zero())
    }

    pub(crate) fn duplicate(&self) -> (r: Self)
        ensures
            r.value() == self.value(),
    {
        Self { re: self.re.clone(), im: self.im.clone() }
    }

    pub(crate) fn multiply(&self, other: &Self) -> (r: Self)
        ensures
            r.value() == gmul(self.value(), other.value()),
    {
        let rr = Int::times(&self.re, &other.re);
        let ii = Int::times(&self.im, &other.im);
        let ri = Int::times(&self.re, &other.im);
        let ir = Int::times(&self.im, &other.re);
        Self { re: Int::minus(&rr, &ii), im: Int::plus(&ri, &ir) }
    }

    pub(crate) fn conjugate(&self) -> (r: Self)
        ensures
            r.value() == gconj(self.value()),
    {
        Self::new(self.re.clone(), self.im.negated())
    }

    pub(crate) fn pow(base: &Self, exponent: u64) -> (r: Self)
        ensures
            r.value() == gpow(base.value(), exponent as nat),
    {
        let mut exponent = exponent;
        let ghost e0 = exponent;
        let mut result = Self::one();
        let mut factor = base.duplicate();
        proof {
            lemma_gmul_one(gpow(base.value(), e0 as nat));
        }
        while exponent > 0
            invariant
                gmul(result.value(), gpow(factor.value(), exponent as nat)) == gpow(base.value(), e0 as nat),
            decreases exponent,
        {
            let ghost f = factor.value();
            let ghost e = exponent;
            let ghost k = (e / 2) as nat;
            assert(exponent & 1 == exponent % 2) by (bit_vector);
            assert(exponent >> 1 == exponent / 2) by (bit_vector);
            proof {
                lemma_gpow_square(f, k);
            }
            if exponent & 1 == 1 {
                proof {
                    assert(e == 2 * k + 1);
                    lemma_gpow_succ_front(f, 2 * k);
                    lemma_gmul_assoc(result.value(), f, gpow(f, 2 * k));
                }
                result = result.multiply(&factor);
            }
            factor = factor.multiply(&factor);
            exponent = exponent >> 1;
        }
        proof {
            assert(gpow(factor.value(), 0) == (1int, 0int));
            lemma_gmul_one(result.value());
        }
        result
    }
}

// ---------------------------------------------------------------------------
// Exact check of a formula
// ---------------------------------------------------------------------------

/// Product of `(d + i)^c` over the terms with a positive coefficient.
pub open spec fn positive_product(terms: Seq<Term>) -> (int, int)
    decreases terms.len(),
{
    if terms.len() == 0 {
        (1, 0)
    } else {
        let rest = positive_product(terms.drop_last());
        let t = terms.last();
        if t.coefficient > 0 {
            gmul(rest, gpow((t.denominator as int, 1), abs(t.coefficient as int) as nat))
        } else {
            rest
        }
    }
}

/// Product of `(d + i)^|c|` over the terms with a coefficient that is not positive.
pub open spec fn negative_product(terms: Seq<Term>) -> (int, int)
    decreases terms.len(),
{
    if terms.len() == 0 {
        (1, 0)
    } else {
        let rest = negative_product(terms.drop_last());
        let t = terms.last();
        if t.coefficient > 0 {
            rest
        } else {
            gmul(rest, gpow((t.denominator as int, 1), abs(t.coefficient as int) as nat))
        }
    }
}

/// `prod (d + i)^c` over all terms, as the numerator times the conjugate of the
/// denominator.
pub open spec fn formula_quotient(terms: Seq<Term>) -> (int, int) {
    gmul(positive_product(terms), gconj(negative_product(terms)))
}

/// A formula's arctangent sum is `pi/4` modulo `pi` exactly when
/// `prod (d + i)^c` lies on the diagonal `re == im`.
pub open spec fn is_exact_formula(terms: Seq<Term>) -> bool {
    formula_quotient(terms).0 == formula_quotient(terms).1
}

/// The factor a term contributes to the product of the terms with a positive
/// coefficient (`positive`) or of the others.
pub open spec fn term_factor(t: Term, positive: bool) -> (int, int) {
    if (t.coefficient > 0) == positive {
        gpow((t.denominator as int, 1), abs(t.coefficient as int) as nat)
    } else {
        (1, 0)
    }
}

/// The product of the factors of the terms, in order.
pub open spec fn factor_product(terms: Seq<Term>, positive: bool) -> (int, int)
    decreases terms.len(),
{
    if terms.len() == 0 {
        (1, 0)
    } else {
        gmul(factor_product(terms.drop_last(), positive), term_factor(terms.last(), positive))
    }
}

proof fn lemma_factor_products(terms: Seq<Term>)
    ensures
        positive_product(terms) == factor_product(terms, true),
        negative_product(terms) == factor_product(terms, false),
    decreases terms.len(),
{
    if terms.len() > 0 {
        lemma_factor_products(terms.drop_last());
        lemma_gmul_one(positive_product(terms.drop_last()));
        lemma_gmul_one(negative_product(terms.drop_last()));
    }
}

proof fn lemma_factor_product_remove(terms: Seq<Term>, j: int, positive: bool)
    requires
        0 <= j < terms.len(),
    ensures
        factor_product(terms, positive) == gmul(
            factor_product(terms.remove(j), positive),
            term_factor(terms[j], positive),
        ),
    decreases terms.len(),
{
    let n = terms.len();
    if j == n - 1 {
        assert(terms.remove(j) =~= terms.drop_last());
    } else {
        let d = terms.drop_last();
        lemma_factor_product_remove(d, j, positive);
        assert(terms.remove(j).drop_last() =~= d.remove(j));
        assert(terms.remove(j).last() == terms.last());
        let x = factor_product(d.remove(j), positive);
        let fj = term_factor(terms[j], positive);
        let fl = term_factor(terms.last(), positive);
        lemma_gmul_assoc(x, fj, fl);
        lemma_gmul_assoc(x, fl, fj);
        lemma_gmul_comm(fj, fl);
    }
}

proof fn lemma_factor_product_permuted(a: Seq<Term>, b: Seq<Term>, positive: bool)
    requires
        a.to_multiset() == b.to_multiset(),
    ensures
        factor_product(a, positive) == factor_product(b, positive),
    decreases a.len(),
{
    broadcast use vstd::seq_lib::group_to_multiset_ensures;

    if a.len() == 0 {
        assert(a.to_multiset().len() == 0);
        assert(b.to_multiset().len() == b.len());
        assert(b.len() == 0);
    } else {
        let x = a.last();
        assert(a.contains(x)) by {
            assert(a[a.len() - 1] == x);
        }
        assert(b.to_multiset().count(x) > 0);
        assert(b.contains(x));
        let j = choose|j: int| 0 <= j < b.len() && b[j] == x;
        assert(a.remove(a.len() - 1) =~= a.drop_last());
        assert(a.drop_last().to_multiset() == b.remove(j).to_multiset());
        lemma_factor_product_permuted(a.drop_last(), b.remove(j), positive);
        lemma_factor_product_remove(b, j, positive);
    }
}

/// The exact test does not depend on the order of the terms: two term lists
/// that are rearrangements of each other are both exact or both not.
pub proof fn exactness_ignores_term_order(a: Seq<Term>, b: Seq<Term>)
    requires
        a.to_multiset() == b.to_multiset(),
    ensures
        is_exact_formula(a) == is_exact_formula(b),
{
    lemma_factor_products(a);
    lemma_factor_products(b);
    lemma_factor_product_permuted(a, b, true);
    lemma_factor_product_permuted(a, b, false);
}

pub open spec fn gnorm(a: (int, int)) -> int {
    a.0 * a.0 + a.1 * a.1
}

proof fn lemma_gnorm_mul(a: (int, int), b: (int, int))
    ensures
        gnorm(gmul(a, b)) == gnorm(a) * gnorm(b),
{
    let (p, q) = a;
    let (r, t) = b;
    let pr = p * r;
    let qt = q * t;
    let pt = p * t;
    let qr = q * r;
    assert((pr - qt) * (pr - qt) == pr * pr - 2 * (pr * qt) + qt * qt) by (nonlinear_arith);
    assert((pt + qr) * (pt + qr) == pt * pt + 2 * (pt * qr) + qr * qr) by (nonlinear_arith);
    assert(pr * qt == pt * qr) by (nonlinear_arith)
        requires
            pr == p * r,
            qt == q * t,
            pt == p * t,
            qr == q * r,
    ;
    let pp = p * p;
    let qq = q * q;
    let rr = r * r;
    let tt = t * t;
    assert(pr * pr == pp * rr) by (nonlinear_arith)
        requires
            pr == p * r,
            pp == p * p,
            rr == r * r,
    ;
    assert(pt * pt == pp * tt) by (nonlinear_arith)
        requires
            pt == p * t,
            pp == p * p,
            tt == t * t,
    ;
    assert(qt * qt == qq * tt) by (nonlinear_arith)
        requires
            qt == q * t,
            qq == q * q,
            tt == t * t,
    ;
    assert(qr * qr == qq * rr) by (nonlinear_arith)
        requires
            qr == q * r,
            qq == q * q,
            rr == r * r,
    ;
    assert((pp + qq) * (rr + tt) == pp * rr + pp * tt + qq * rr + qq * tt) by (nonlinear_arith);
    assert(gmul(a, b) == (pr - qt, pt + qr));
}

proof fn lemma_gpow_nonzero(b: (int, int), e: nat)
    requires
        gnorm(b) > 0,
    ensures
        gnorm(gpow(b, e)) > 0,
    decreases e,
{
    if e > 0 {
        lemma_gpow_nonzero(b, (e - 1) as nat);
        lemma_gnorm_mul(gpow(b, (e - 1) as nat), b);
        let x = gnorm(gpow(b, (e - 1) as nat));
        let y = gnorm(b);
        assert(x * y > 0) by (nonlinear_arith)
            requires
                x > 0,
                y > 0,
        ;
    }
}

proof fn lemma_quotient_scaled(pp: (int, int), qq: (int, int), f: (int, int))
    requires
        gnorm(f) > 0,
    ensures
        (gmul(gmul(pp, f), gconj(gmul(qq, f))).0 == gmul(gmul(pp, f), gconj(gmul(qq, f))).1) == (gmul(
            pp,
            gconj(qq),
        ).0 == gmul(pp, gconj(qq)).1),
{
    let cf = gconj(f);
    let cq = gconj(qq);
    let (a, b) = qq;
    let (e, g) = f;
    assert((-b) * (-g) == b * g && a * (-g) == -(a * g) && (-b) * e == -(b * e)) by (nonlinear_arith);
    assert(gconj(gmul(qq, f)) == gmul(cq, cf));
    let ff = gmul(f, cf);
    assert(g * (-g) == -(g * g) && e * (-g) + g * e == 0) by (nonlinear_arith);
    assert(ff == (gnorm(f), 0int));
    lemma_gmul_assoc(pp, f, gmul(cq, cf));
    lemma_gmul_assoc(f, cq, cf);
    lemma_gmul_comm(f, cq);
    lemma_gmul_assoc(cq, f, cf);
    lemma_gmul_assoc(pp, cq, ff);
    let x = gmul(pp, cq);
    let n = gnorm(f);
    assert(x.0 * n - x.1 * 0 == x.0 * n && x.0 * 0 + x.1 * n == x.1 * n) by (nonlinear_arith);
    assert(gmul(x, (n, 0int)) == (x.0 * n, x.1 * n));
    assert((x.0 * n == x.1 * n) == (x.0 == x.1)) by (nonlinear_arith)
        requires
            n > 0,
    ;
}

/// A pair of terms `c arctan(1/d)` and `-c arctan(1/d)` cancels: adding it
/// to a formula does not change whether the formula is exact.
pub proof fn exactness_ignores_cancelling_pair(terms: Seq<Term>, c: i64, d: u64)
    requires
        c > i64::MIN,
    ensures
        is_exact_formula(terms + seq![Term { coefficient: c, denominator: d }, Term { coefficient: (-c) as i64, denominator: d }])
            == is_exact_formula(terms),
{
    let t1 = Term { coefficient: c, denominator: d };
    let t2 = Term { coefficient: (-c) as i64, denominator: d };
    let all = terms + seq![t1, t2];
    assert(all.drop_last() =~= terms.push(t1));
    assert(all.last() == t2);
    assert(terms.push(t1).drop_last() =~= terms);
    assert(terms.push(t1).last() == t1);
    lemma_factor_products(all);
    lemma_factor_products(terms);
    let pp = factor_product(terms, true);
    let qq = factor_product(terms, false);
    let f = gpow((d as int, 1), abs(c as int) as nat);
    assert(gnorm((d as int, 1int)) > 0) by (nonlinear_arith);
    lemma_gpow_nonzero((d as int, 1), abs(c as int) as nat);
    assert(abs((-c) as int) == abs(c as int));
    lemma_gmul_one(pp);
    lemma_gmul_one(qq);
    lemma_gmul_one(gmul(pp, f));
    lemma_gmul_one(gmul(qq, f));
    let head = terms.push(t1);
    assert(factor_product(head, true) == gmul(pp, term_factor(t1, true)));
    assert(factor_product(head, false) == gmul(qq, term_factor(t1, false)));
    assert(factor_product(all, true) == gmul(factor_product(head, true), term_factor(t2, true)));
    assert(factor_product(all, false) == gmul(factor_product(head, false), term_factor(t2, false)));
    assert(t2.coefficient as int == -(c as int));
    if c > 0 {
        assert(factor_product(all, true) == gmul(pp, f));
        assert(factor_product(all, false) == gmul(qq, f));
        lemma_quotient_scaled(pp, qq, f);
    } else if c < 0 {
        assert(factor_product(all, true) == gmul(pp, f));
        assert(factor_product(all, false) == gmul(qq, f));
        lemma_quotient_scaled(pp, qq, f);
    } else {
        assert(f == (1int, 0int));
        assert(factor_product(all, true) == pp);
        assert(factor_product(all, false) == qq);
    }
}

/// Decides `sum c * arctan(1/d) == pi/4 (mod pi)` exactly with Gaussian integers.
pub fn exact_pi_over_four(terms: &[Term]) -> (r: bool)
    ensures
        r == is_exact_formula(terms@),
{
    let mut positive = Gaussian::one();
    let mut negative = Gaussian::one();
    let mut index: usize = 0;
    while index < terms.len()
        invariant
            index <= terms@.len(),
            positive.value() == positive_product(terms@.subrange(0, index as int)),
            negative.value() == negative_product(terms@.subrange(0, index as int)),
        decreases terms@.len() - index,
    {
        let term = terms[index];
        let base = Gaussian::new(Int::from_u64(term.denominator), Int::from_u64(1));
        let magnitude: u64 = if term.coefficient >= 0 {
            term.coefficient as u64
        } else {
            ((-(term.coefficient + 1)) as u64) + 1
        };
        let power = Gaussian::pow(&base, magnitude);
        proof {
            let s = terms@.subrange(0, index as int + 1);
            assert(s.drop_last() =~= terms@.subrange(0, index as int));
            assert(s.last() == term);
        }
        if term.coefficient > 0 {
            positive = positive.multiply(&power);
        } else {
            negative = negative.multiply(&power);
        }
        index += 1;
    }
    assert(terms@.subrange(0, terms@.len() as int) =~= terms@);
    let quotient = positive.multiply(&negative.conjugate());
    Int::equal_to(&quotient.re, &quotient.im)
}

// ---------------------------------------------------------------------------
// Fixed-point arctangent of a reciprocal
// ---------------------------------------------------------------------------

/// The k-th signed power `scale / d^(2k+1)` of the series, each step truncated
/// as the fixed-point computation does.
pub open spec fn arctan_power(d: int, scale: int, k: nat) -> int
    decreases k,
{
    if k == 0 {
        tdiv(scale, d)
    } else {
        tdiv(-arctan_power(d, scale, (k - 1) as nat), d * d)
    }
}

/// The k-th series term `power_k / (2k + 1)`, truncated.
pub open spec fn arctan_term(d: int, scale: int, k: nat) -> int {
    tdiv(arctan_power(d, scale, k), (2 * k + 1) as int)
}

/// `power_0 + term_1 + ... + term_n`.
pub open spec fn arctan_partial_sum(d: int, scale: int, n: nat) -> int
    decreases n,
{
    if n == 0 {
        arctan_power(d, scale, 0)
    } else {
        arctan_partial_sum(d, scale, (n - 1) as nat) + arctan_term(d, scale, n)
    }
}

/// The series stops after `n` terms: `term_{n+1}` is the first term that truncates to zero.
pub open spec fn arctan_stops_after(d: int, scale: int, n: nat) -> bool {
    &&& arctan_term(d, scale, n + 1) == 0
    &&& forall|j: nat| 1 <= j <= n ==> #[trigger] arctan_term(d, scale, j) != 0
}

/// `scale * arctan(1/d)` in fixed point: the Gregory series summed until a term truncates to zero.
pub open spec fn fixed_arctan(d: int, scale: int) -> int {
    arctan_partial_sum(d, scale, choose|n: nat| arctan_stops_after(d, scale, n))
}

proof fn lemma_stop_unique(d: int, scale: int, n: nat, m: nat)
    requires
        arctan_stops_after(d, scale, n),
        arctan_stops_after(d, scale, m),
    ensures
        n == m,
{
    if n < m {
        assert(arctan_term(d, scale, n + 1) != 0);
    } else if m < n {
        assert(arctan_term(d, scale, m + 1) != 0);
    }
}

proof fn lemma_term_zero_persists(d: int, scale: int, k: nat)
    requires
        d >= 1,
        arctan_term(d, scale, k) == 0,
    ensures
        arctan_term(d, scale, k + 1) == 0,
{
    let a = arctan_power(d, scale, k);
    let b = (2 * k + 1) as int;
    let q = abs(a) / b;
    assert(q == 0) by {
        if (a < 0) != (b < 0) {
            assert(-q == 0);
        }
    }
    lemma_fundamental_div_mod(abs(a), b);
    assert(abs(a) < b);
    assert(d * d >= 1) by (nonlinear_arith)
        requires
            d >= 1,
    ;
    lemma_tdiv_bounds(-a, d * d);
    assert(abs(-a) == abs(a));
    let next = arctan_power(d, scale, k + 1);
    assert(next == tdiv(-a, d * d));
    assert(abs(next) < b + 2);
    lemma_tdiv_bounds(next, b + 2);
}

proof fn lemma_terms_stay_zero(d: int, scale: int, k: nat, m: nat)
    requires
        d >= 1,
        k <= m,
        arctan_term(d, scale, k) == 0,
    ensures
        arctan_term(d, scale, m) == 0,
    decreases m - k,
{
    if k < m {
        lemma_term_zero_persists(d, scale, k);
        lemma_terms_stay_zero(d, scale, k + 1, m);
    }
}

proof fn lemma_sum_settles(d: int, scale: int, n: nat, m: nat)
    requires
        d >= 1,
        n <= m,
        arctan_term(d, scale, n + 1) == 0,
    ensures
        arctan_partial_sum(d, scale, m) == arctan_partial_sum(d, scale, n),
    decreases m - n,
{
    if n < m {
        lemma_sum_settles(d, scale, n, (m - 1) as nat);
        lemma_terms_stay_zero(d, scale, n + 1, m);
    }
}

proof fn lemma_first_zero_term(d: int, scale: int, j: nat, bound: nat)
    requires
        1 <= j <= bound,
        arctan_term(d, scale, bound) == 0,
        forall|i: nat| 1 <= i < j ==> #[trigger] arctan_term(d, scale, i) != 0,
    ensures
        exists|n: nat| arctan_stops_after(d, scale, n),
    decreases bound - j,
{
    if arctan_term(d, scale, j) == 0 {
        assert(arctan_stops_after(d, scale, (j - 1) as nat));
    } else {
        lemma_first_zero_term(d, scale, j + 1, bound);
    }
}

/// The fixed-point arctangent is the whole truncated Gregory series: summing
/// the series up to any point where the next term truncates to zero already
/// gives the result, whatever the scale.
pub proof fn fixed_arctan_is_the_full_series(d: int, scale: int, m: nat)
    requires
        d >= 1,
        arctan_term(d, scale, m + 1) == 0,
    ensures
        arctan_partial_sum(d, scale, m) == fixed_arctan(d, scale),
{
    lemma_first_zero_term(d, scale, 1, m + 1);
    let n = choose|n: nat| arctan_stops_after(d, scale, n);
    assert(arctan_stops_after(d, scale, n));
    if m < n {
        assert(arctan_term(d, scale, m + 1) != 0);
    }
    lemma_sum_settles(d, scale, n, m);
}

proof fn lemma_tdiv_bounds(a: int, b: int)
    requires
        b > 0,
    ensures
        abs(tdiv(a, b)) <= abs(a),
        abs(tdiv(a, b)) * b <= abs(a),
        abs(a) < b ==> tdiv(a, b) == 0,
        tdiv(-a, b) == -tdiv(a, b),
{
    let q = abs(a) / b;
    assert(q * b <= abs(a)) by (nonlinear_arith)
        requires
            q == abs(a) / b,
            b > 0,
            abs(a) >= 0,
    ;
    assert(q <= abs(a)) by (nonlinear_arith)
        requires
            q * b <= abs(a),
            b > 0,
            q >= 0,
    ;
    if abs(a) < b {
        assert(q == 0) by (nonlinear_arith)
            requires
                q == abs(a) / b,
                0 <= abs(a) < b,
        ;
    }
}

/// `scale * arctan(1 / denominator)` in fixed point.
pub fn fixed_arctan_reciprocal(denominator: u64, scale: &Int) -> (r: Int)
    requires
        denominator > 0,
    ensures
        r@ == fixed_arctan(denominator as int, scale@),
{
    let ghost d = denominator as int;
    let ghost s = scale@;
    let denominator = Int::from_u64(denominator);
    let denominator_squared = Int::times(&denominator, &denominator);
    let minus_one = Int::from_i64(-1);
    let one = Int::from_u64(1);
    let two = Int::from_u64(2);
    let mut power = Int::quotient(scale, &denominator);
    let mut sum = power.clone();
    let mut index = Int::from_u64(1);
    let ghost mut k: nat = 0;
    let ghost p0 = power@;
    proof {
        assert(d * d > 0) by (nonlinear_arith)
            requires
                d > 0,
        ;
    }
    loop
        invariant_except_break
            index@ == k + 1,
            power@ == arctan_power(d, s, k),
            sum@ == arctan_partial_sum(d, s, k),
            forall|j: nat| 1 <= j <= k ==> #[trigger] arctan_term(d, s, j) != 0,
            abs(arctan_power(d, s, k)) <= abs(p0),
            k <= abs(p0),
            denominator_squared@ == d * d,
            d * d > 0,
            minus_one@ == -1,
            one@ == 1,
            two@ == 2,
            p0 == arctan_power(d, s, 0),
        ensures
            arctan_stops_after(d, s, k),
            sum@ == arctan_partial_sum(d, s, k),
        decreases abs(p0) - k,
    {
        let negated = Int::times(&power, &minus_one);
        proof {
            lemma_tdiv_bounds(-power@, d * d);
            assert(abs(-power@) == abs(power@));
        }
        power = Int::quotient(&negated, &denominator_squared);
        let odd = Int::plus(&Int::times(&two, &index), &one);
        let term = Int::quotient(&power, &odd);
        proof {
            assert(power@ == arctan_power(d, s, k + 1));
            assert(odd@ == 2 * (k + 1) + 1);
            lemma_tdiv_bounds(power@, odd@);
        }
        if term.is_zero() {
            break;
        }
        sum = Int::plus(&sum, &term);
        index = Int::plus(&index, &one);
        proof {
            k = k + 1;
            assert(arctan_term(d, s, k) != 0);
        }
    }
    proof {
        lemma_stop_unique(d, s, k, choose|n: nat| arctan_stops_after(d, s, n));
    }
    sum
}

// ---------------------------------------------------------------------------
// Integer relations
// ---------------------------------------------------------------------------

/// Wrapper around `num_integer::Integer::gcd` on `i64`, which returns the
/// non-negative greatest common divisor of the magnitudes and panics (on
/// `abs` overflow) exactly when that divisor is `2^63`.
#[verifier::external_body]
fn gcd_i64(m: i64, n: i64) -> (r: i64)
    requires
        gcd(abs(m as int) as nat, abs(n as int) as nat) <= i64::MAX,
    ensures
        r as int == gcd(abs(m as int) as nat, abs(n as int) as nat),
{
    m.gcd(&n)
}

pub(crate) fn unsigned_abs(v: i64) -> (r: u64)
    ensures
        r as int == abs(v as int),
{
    if v >= 0 {
        v as u64
    } else {
        ((-(v + 1)) as u64) + 1
    }
}

/// `a / b` rounding toward zero, for any `b != 0` and `a != i64::MIN`.
fn trunc_div(a: i64, b: i64) -> (r: i64)
    requires
        b != 0,
        a != i64::MIN,
    ensures
        r as int == tdiv(a as int, b as int),
{
    let ma = unsigned_abs(a);
    let mb = unsigned_abs(b);
    let q = ma / mb;
    assert(q <= ma) by (nonlinear_arith)
        requires
            q == ma / mb,
            mb >= 1,
    ;
    if (a < 0) != (b < 0) {
        -(q as i64)
    } else {
        q as i64
    }
}

/// `a / d` rounding toward zero, for a positive `d`.
fn trunc_div_positive(a: i64, d: i64) -> (r: i64)
    requires
        d > 0,
    ensures
        r as int == tdiv(a as int, d as int),
{
    let ma = unsigned_abs(a);
    let q = ma / (d as u64);
    assert(q <= ma) by (nonlinear_arith)
        requires
            q == ma / (d as u64),
            d >= 1,
    ;
    if a < 0 {
        if q == 0x8000_0000_0000_0000u64 {
            i64::MIN
        } else {
            -(q as i64)
        }
    } else {
        q as i64
    }
}

/// `gcd(|s_0|, ..., |s_{n-1}|)`, folded from the left starting at 0.
pub open spec fn relation_gcd(s: Seq<i64>) -> nat
    decreases s.len(),
{
    if s.len() == 0 {
        0
    } else {
        gcd(relation_gcd(s.drop_last()), abs(s.last() as int) as nat)
    }
}

/// The divisor that normalization applies: the gcd, or 1 when it is 0.
pub open spec fn relation_divisor(s: Seq<i64>) -> int {
    if relation_gcd(s) == 0 {
        1
    } else {
        relation_gcd(s) as int
    }
}

pub open spec fn divided_relation(s: Seq<i64>) -> Seq<int> {
    s.map_values(|v: i64| tdiv(v as int, relation_divisor(s)))
}

/// The sign of the first nonzero entry (0 when every entry is 0).
pub open spec fn leading_sign(q: Seq<int>) -> int
    decreases q.len(),
{
    if q.len() == 0 {
        0
    } else if q[0] > 0 {
        1
    } else if q[0] < 0 {
        -1
    } else {
        leading_sign(q.drop_first())
    }
}

/// A relation divided by the gcd of its entries, with the sign chosen so that
/// the first nonzero entry is positive.
pub open spec fn normalized_relation(s: Seq<i64>) -> Seq<int> {
    let q = divided_relation(s);
    if leading_sign(q) < 0 {
        q.map_values(|v: int| -v)
    } else {
        q
    }
}

/// Normalization runs without overflow: every partial gcd fits in an `i64`
/// and no entry to be negated is `i64::MIN`.
pub open spec fn normalization_fits(s: Seq<i64>) -> bool {
    &&& forall|k: int| 0 <= k <= s.len() ==> #[trigger] relation_gcd(s.take(k)) <= i64::MAX
    &&& leading_sign(divided_relation(s)) < 0 ==> forall|i: int|
        0 <= i < s.len() ==> #[trigger] divided_relation(s)[i] != i64::MIN
}

proof fn lemma_leading_sign_skip(q: Seq<int>, i: int)
    requires
        0 <= i <= q.len(),
        forall|j: int| 0 <= j < i ==> q[j] == 0,
    ensures
        leading_sign(q) == leading_sign(q.skip(i)),
    decreases i,
{
    if i > 0 {
        assert(q.skip(1) =~= q.drop_first());
        lemma_leading_sign_skip(q.drop_first(), i - 1);
        assert(q.drop_first().skip(i - 1) =~= q.skip(i));
    } else {
        assert(q.skip(0) =~= q);
    }
}

/// `d` divides `a + k * b` when it divides `a` and `b`.
proof fn lemma_divides_combination(a: int, b: int, k: int, d: int)
    requires
        d > 0,
        a % d == 0,
        b % d == 0,
    ensures
        (a + k * b) % d == 0,
{
    lemma_fundamental_div_mod(a, d);
    lemma_fundamental_div_mod(b, d);
    let qa = a / d;
    let qb = b / d;
    lemma_mul_is_associative(k, d, qb);
    lemma_mul_is_commutative(k, d);
    lemma_mul_is_associative(d, k, qb);
    lemma_mul_is_distributive_add(d, qa, k * qb);
    lemma_mul_is_commutative(d, qa + k * qb);
    lemma_mod_multiples_basic(qa + k * qb, d);
}

/// `gcd(a, b)` divides both arguments, and is zero only for `gcd(0, 0)`.
pub proof fn lemma_gcd_divides(a: nat, b: nat)
    ensures
        gcd(a, b) == 0 <==> (a == 0 && b == 0),
        gcd(a, b) > 0 ==> a % gcd(a, b) == 0 && b % gcd(a, b) == 0,
    decreases b,
{
    if b > 0 {
        lemma_gcd_divides(b, a % b);
        let g = gcd(a, b);
        lemma_fundamental_div_mod(a as int, b as int);
        if g > 0 {
            lemma_mul_is_commutative(b as int, (a / b) as int);
            lemma_divides_combination((a % b) as int, b as int, (a / b) as int, g as int);
        }
        if a % b == 0 {
            lemma_mod_self_0(b as int);
        }
    } else {
        if a > 0 {
            lemma_mod_self_0(a as int);
            lemma_small_mod(0, a);
        }
    }
}

/// A positive multiple of `d` is at least `d`.
proof fn lemma_divisor_le(x: nat, d: nat)
    requires
        x > 0,
        d > 0,
        x % d == 0,
    ensures
        d <= x,
{
    lemma_fundamental_div_mod(x as int, d as int);
    let q = x / d;
    assert(q >= 1) by (nonlinear_arith)
        requires
            x == d * q,
            x > 0,
            d > 0,
            q >= 0,
    ;
    assert(d <= d * q) by (nonlinear_arith)
        requires
            q >= 1,
            d > 0,
    ;
}

/// The gcd of a relation divides every entry, and is zero only when every entry is.
pub proof fn lemma_relation_gcd_divides(s: Seq<i64>, i: int)
    requires
        0 <= i < s.len(),
    ensures
        relation_gcd(s) > 0 ==> abs(s[i] as int) % (relation_gcd(s) as int) == 0,
        relation_gcd(s) == 0 ==> s[i] == 0,
    decreases s.len(),
{
    let g = relation_gcd(s);
    let prev = relation_gcd(s.drop_last());
    let last = abs(s.last() as int) as nat;
    lemma_gcd_divides(prev, last);
    if i < s.len() - 1 {
        lemma_relation_gcd_divides(s.drop_last(), i);
        assert(s.drop_last()[i] == s[i]);
        if g > 0 && prev > 0 {
            // g | prev and prev | s_i
            lemma_fundamental_div_mod(abs(s[i] as int), prev as int);
            lemma_fundamental_div_mod(prev as int, g as int);
            let q1 = abs(s[i] as int) / (prev as int);
            let q2 = (prev as int) / (g as int);
            lemma_mul_is_associative(g as int, q2, q1);
            lemma_mul_is_commutative(prev as int, q1);
            lemma_mod_multiples_basic(q2 * q1, g as int);
            lemma_mul_is_commutative(g as int, q2 * q1);
        } else if g > 0 && prev == 0 {
            assert(s[i] == 0);
            lemma_small_mod(0, g);
        }
    }
}

/// Every partial gcd of entries bounded by `m` is bounded by `m`.
proof fn lemma_relation_gcd_bounded(s: Seq<i64>, m: nat)
    requires
        forall|i: int| 0 <= i < s.len() ==> abs(#[trigger] s[i] as int) <= m,
    ensures
        relation_gcd(s) <= m,
    decreases s.len(),
{
    if s.len() > 0 {
        let prev = relation_gcd(s.drop_last());
        let last = abs(s.last() as int) as nat;
        assert forall|i: int| 0 <= i < s.drop_last().len() implies abs(#[trigger] s.drop_last()[i] as int) <= m by {
            assert(s.drop_last()[i] == s[i]);
        }
        lemma_relation_gcd_bounded(s.drop_last(), m);
        lemma_gcd_divides(prev, last);
        if gcd(prev, last) > 0 {
            if last > 0 {
                lemma_divisor_le(last, gcd(prev, last));
            } else {
                lemma_divisor_le(prev, gcd(prev, last));
            }
        }
    }
}

/// Normalization is defined for every relation whose entries are all above `i64::MIN`.
pub proof fn lemma_normalization_fits(s: Seq<i64>)
    requires
        forall|i: int| 0 <= i < s.len() ==> #[trigger] s[i] > i64::MIN,
    ensures
        normalization_fits(s),
{
    assert forall|k: int| 0 <= k <= s.len() implies #[trigger] relation_gcd(s.take(k)) <= i64::MAX by {
        assert forall|i: int| 0 <= i < s.take(k).len() implies abs(#[trigger] s.take(k)[i] as int) <= i64::MAX by {
            assert(s.take(k)[i] == s[i]);
        }
        lemma_relation_gcd_bounded(s.take(k), i64::MAX as nat);
    }
    let d = relation_divisor(s);
    assert forall|i: int| 0 <= i < s.len() implies #[trigger] divided_relation(s)[i] != i64::MIN by {
        let v = s[i] as int;
        assert(abs(v) / d <= abs(v)) by (nonlinear_arith)
            requires
                d >= 1,
                abs(v) >= 0,
        ;
    }
}

/// Dividing by the gcd keeps nonzero entries nonzero.
pub proof fn lemma_divided_nonzero(s: Seq<i64>, i: int)
    requires
        0 <= i < s.len(),
        s[i] != 0,
    ensures
        divided_relation(s)[i] != 0,
{
    lemma_relation_gcd_divides(s, i);
    let g = relation_gcd(s);
    let v = abs(s[i] as int);
    lemma_divisor_le(v as nat, g);
    assert(v / (g as int) >= 1) by (nonlinear_arith)
        requires
            g >= 1,
            v >= g,
    ;
}

/// Divides out the common factor and makes the first nonzero entry positive.
pub fn normalize_relation(relation: Vec<i64>) -> (r: Vec<i64>)
    requires
        normalization_fits(relation@),
    ensures
        r@.map_values(|v: i64| v as int) == normalized_relation(relation@),
{
    let mut relation = relation;
    let ghost s = relation@;
    let n = relation.len();
    let mut g: i64 = 0;
    let mut k: usize = 0;
    assert(s.take(0) =~= Seq::<i64>::empty());
    while k < n
        invariant
            n == s.len(),
            relation@ == s,
            k <= n,
            normalization_fits(s),
            g as int == relation_gcd(s.take(k as int)),
        decreases n - k,
    {
        assert(s.take(k + 1).drop_last() =~= s.take(k as int));
        assert(relation_gcd(s.take(k + 1)) <= i64::MAX);
        g = gcd_i64(g, relation[k]);
        k += 1;
    }
    assert(s.take(n as int) =~= s);
    let divisor: i64 = if g > 1 {
        g
    } else {
        1
    };
    assert(divisor == relation_divisor(s));
    let ghost q = divided_relation(s);
    let mut k: usize = 0;
    while k < n
        invariant
            n == s.len(),
            relation@.len() == n,
            k <= n,
            divisor == relation_divisor(s),
            divisor > 0,
            q == divided_relation(s),
            forall|j: int| 0 <= j < k ==> relation@[j] as int == q[j],
            forall|j: int| k <= j < n ==> relation@[j] == s[j],
        decreases n - k,
    {
        let value = trunc_div_positive(relation[k], divisor);
        relation[k] = value;
        k += 1;
    }
    let mut first: usize = 0;
    while first < n && relation[first] == 0
        invariant
            n == s.len(),
            relation@.len() == n,
            first <= n,
            forall|j: int| 0 <= j < n ==> relation@[j] as int == q[j],
            forall|j: int| 0 <= j < first ==> q[j] == 0,
        decreases n - first,
    {
        first += 1;
    }
    proof {
        lemma_leading_sign_skip(q, first as int);
        if first < n {
            assert(q.skip(first as int)[0] == q[first as int]);
        } else {
            assert(q.skip(first as int).len() == 0);
        }
    }
    if first < n && relation[first] < 0 {
        let mut k: usize = 0;
        while k < n
            invariant
                n == s.len(),
                relation@.len() == n,
                k <= n,
                leading_sign(q) < 0,
                normalization_fits(s),
                q == divided_relation(s),
                forall|j: int| 0 <= j < k ==> relation@[j] as int == -q[j],
                forall|j: int| k <= j < n ==> relation@[j] as int == q[j],
            decreases n - k,
        {
            assert(q[k as int] != i64::MIN);
            let value = -relation[k];
            relation[k] = value;
            k += 1;
        }
        assert(relation@.map_values(|v: i64| v as int) =~= normalized_relation(s));
    } else {
        assert(relation@.map_values(|v: i64| v as int) =~= normalized_relation(s));
    }
    relation
}

/// `gcd(g*a, g*b) == g * gcd(a, b)`.
pub(crate) proof fn lemma_gcd_scale(g: nat, a: nat, b: nat)
    ensures
        gcd(g * a, g * b) == g * gcd(a, b),
    decreases b,
{
    if b == 0 {
        assert(g * b == 0) by (nonlinear_arith)
            requires
                b == 0,
        ;
    } else if g == 0 {
        assert(g * a == 0 && g * b == 0 && g * gcd(a, b) == 0) by (nonlinear_arith)
            requires
                g == 0,
        ;
    } else {
        lemma_fundamental_div_mod(a as int, b as int);
        let q = a / b;
        let r = a % b;
        assert(g * a == q * (g * b) + g * r && 0 <= g * r < g * b) by (nonlinear_arith)
            requires
                a == b * q + r,
                0 <= r < b,
                g > 0,
        ;
        lemma_fundamental_div_mod_converse((g * a) as int, (g * b) as int, q as int, (g * r) as int);
        assert(g * b > 0) by (nonlinear_arith)
            requires
                g > 0,
                b > 0,
        ;
        lemma_gcd_scale(g, b, r);
    }
}

/// The gcd of a relation whose entries are `g` times those of another is
/// `g` times its gcd.
proof fn lemma_relation_gcd_scaled(s: Seq<i64>, t: Seq<i64>, g: nat)
    requires
        s.len() == t.len(),
        forall|i: int| 0 <= i < s.len() ==> abs(#[trigger] s[i] as int) == g * abs(t[i] as int),
    ensures
        relation_gcd(s) == g * relation_gcd(t),
    decreases s.len(),
{
    if s.len() == 0 {
        assert(g * 0 == 0) by (nonlinear_arith);
    } else {
        assert forall|i: int| 0 <= i < s.drop_last().len() implies abs(#[trigger] s.drop_last()[i] as int)
            == g * abs(t.drop_last()[i] as int) by {
            assert(s.drop_last()[i] == s[i] && t.drop_last()[i] == t[i]);
        }
        lemma_relation_gcd_scaled(s.drop_last(), t.drop_last(), g);
        assert(abs(s.last() as int) == g * abs(t.last() as int));
        lemma_gcd_scale(g, relation_gcd(t.drop_last()), abs(t.last() as int) as nat);
    }
}

proof fn lemma_leading_sign_negated(q: Seq<int>)
    ensures
        leading_sign(q.map_values(|v: int| -v)) == -leading_sign(q),
    decreases q.len(),
{
    if q.len() > 0 {
        let n = q.map_values(|v: int| -v);
        assert(n.drop_first() =~= q.drop_first().map_values(|v: int| -v));
        lemma_leading_sign_negated(q.drop_first());
    }
}

proof fn lemma_leading_sign_zero(q: Seq<int>)
    requires
        leading_sign(q) == 0,
    ensures
        forall|i: int| 0 <= i < q.len() ==> #[trigger] q[i] == 0,
    decreases q.len(),
{
    if q.len() > 0 {
        lemma_leading_sign_zero(q.drop_first());
        assert forall|i: int| 0 <= i < q.len() implies #[trigger] q[i] == 0 by {
            if i > 0 {
                assert(q[i] == q.drop_first()[i - 1]);
            }
        }
    }
}

proof fn lemma_tdiv_scaled(v: int, k: int, g: int)
    requires
        g > 0,
        k != 0,
        abs(v) % g == 0,
    ensures
        tdiv(k * v, abs(k) * g) == (if k < 0 {
            -tdiv(v, g)
        } else {
            tdiv(v, g)
        }),
{
    let a = abs(v);
    let m = a / g;
    let big = abs(k);
    lemma_fundamental_div_mod(a, g);
    assert(a == g * m);
    assert(abs(k * v) == big * a) by (nonlinear_arith)
        requires
            big == abs(k),
            a == abs(v),
    ;
    assert(big * a == (big * g) * m) by (nonlinear_arith)
        requires
            a == g * m,
    ;
    assert(big * g > 0) by (nonlinear_arith)
        requires
            big > 0,
            g > 0,
    ;
    vstd::arithmetic::div_mod::lemma_div_multiples_vanish(m, big * g);
    assert(abs(big * g) == big * g);
    assert(abs(k * v) / abs(big * g) == m);
    if v == 0 {
        assert(k * v == 0) by (nonlinear_arith)
            requires
                v == 0,
        ;
        assert(m == 0);
    } else {
        assert((k * v < 0) == ((k < 0) != (v < 0))) by (nonlinear_arith)
            requires
                k != 0,
                v != 0,
        ;
    }
}

/// Scaling a relation by a nonzero factor does not change its
/// normalization: `s = k * t` entrywise gives the same normalized relation
/// as `t`.
pub proof fn normalize_relation_ignores_scaling(s: Seq<i64>, t: Seq<i64>, k: int)
    requires
        s.len() == t.len(),
        k != 0,
        forall|i: int| 0 <= i < s.len() ==> #[trigger] s[i] as int == k * t[i] as int,
    ensures
        normalized_relation(s) == normalized_relation(t),
{
    let big = abs(k) as nat;
    assert forall|i: int| 0 <= i < s.len() implies abs(#[trigger] s[i] as int) == big * abs(t[i] as int) by {
        let v = t[i] as int;
        assert(s[i] as int == k * v);
        assert(abs(k * v) == abs(k) * abs(v)) by (nonlinear_arith);
    }
    lemma_relation_gcd_scaled(s, t, big);
    let g = relation_gcd(t);
    let qs = divided_relation(s);
    let qt = divided_relation(t);
    if g == 0 {
        assert(relation_gcd(s) == 0) by (nonlinear_arith)
            requires
                relation_gcd(s) == big * g,
                g == 0,
        ;
        assert forall|i: int| 0 <= i < s.len() implies #[trigger] qs[i] == qt[i] by {
            lemma_relation_gcd_divides(t, i);
            assert(t[i] == 0);
            assert(s[i] as int == k * 0);
        }
    } else {
        assert(relation_gcd(s) > 0) by (nonlinear_arith)
            requires
                relation_gcd(s) == big * g,
                g > 0,
                big > 0,
        ;
        assert forall|i: int| 0 <= i < s.len() implies #[trigger] qs[i] == (if k < 0 {
            -qt[i]
        } else {
            qt[i]
        }) by {
            lemma_relation_gcd_divides(t, i);
            lemma_tdiv_scaled(t[i] as int, k, g as int);
        }
    }
    assert(qs.len() == qt.len());
    if k > 0 || g == 0 {
        assert(qs =~= qt);
    } else {
        let neg = qt.map_values(|v: int| -v);
        assert(qs =~= neg);
        lemma_leading_sign_negated(qt);
        if leading_sign(qt) == 0 {
            lemma_leading_sign_zero(qt);
            assert(qs =~= qt);
        } else {
            assert(neg.map_values(|v: int| -v) =~= qt);
        }
    }
}

/// Normalizing a normalized relation changes nothing: it can be normalized
/// again, and the result is the same.
pub proof fn normalize_relation_idempotent(s: Seq<i64>, t: Seq<i64>)
    requires
        normalization_fits(s),
        t.map_values(|v: i64| v as int) == normalized_relation(s),
    ensures
        normalization_fits(t),
        normalized_relation(t) == normalized_relation(s),
{
    let g = relation_gcd(s);
    let q = divided_relation(s);
    let n = normalized_relation(s);
    let flip = leading_sign(q) < 0;
    assert(q.len() == s.len());
    assert(n.len() == q.len());
    assert(t.map_values(|v: i64| v as int).len() == t.len());
    assert(t.len() == s.len());
    assert forall|i: int| 0 <= i < t.len() implies (#[trigger] t[i]) as int == n[i] by {
        assert(t.map_values(|v: i64| v as int)[i] == t[i] as int);
    }
    if g == 0 {
        assert forall|i: int| 0 <= i < s.len() implies #[trigger] s[i] == 0 by {
            lemma_relation_gcd_divides(s, i);
        }
        assert forall|i: int| 0 <= i < t.len() implies #[trigger] t[i] == 0 by {
            assert(s[i] == 0);
            assert(q[i] == tdiv(0, 1));
        }
        assert forall|k: int| 0 <= k <= t.len() implies #[trigger] relation_gcd(t.take(k)) <= i64::MAX by {
            assert forall|i: int| 0 <= i < t.take(k).len() implies abs(#[trigger] t.take(k)[i] as int)
                == 0 * abs(t.take(k)[i] as int) by {
                assert(t.take(k)[i] == t[i]);
            }
            lemma_relation_gcd_scaled(t.take(k), t.take(k), 0);
        }
        assert forall|i: int| 0 <= i < t.len() implies abs(#[trigger] t[i] as int) == 0 * abs(
            t[i] as int,
        ) by {}
        lemma_relation_gcd_scaled(t, t, 0);
    } else {
        // every entry of s is g times the matching entry of t
        assert forall|i: int| 0 <= i < s.len() implies abs(#[trigger] s[i] as int) == g * abs(t[i] as int) by {
            lemma_relation_gcd_divides(s, i);
            let a = abs(s[i] as int);
            lemma_fundamental_div_mod(a, g as int);
            assert(q[i] == tdiv(s[i] as int, g as int));
            assert(abs(q[i]) == a / (g as int));
            if flip {
                assert(n[i] == -q[i]);
            }
            assert(abs(t[i] as int) == a / (g as int));
            assert(a == (g as int) * (a / (g as int)));
        }
        lemma_relation_gcd_scaled(s, t, g);
        assert(relation_gcd(t) == 1) by (nonlinear_arith)
            requires
                g == g * relation_gcd(t),
                g > 0,
        ;
        assert forall|k: int| 0 <= k <= t.len() implies #[trigger] relation_gcd(t.take(k)) <= i64::MAX by {
            assert forall|i: int| 0 <= i < s.take(k).len() implies abs(#[trigger] s.take(k)[i] as int)
                == g * abs(t.take(k)[i] as int) by {
                assert(s.take(k)[i] == s[i] && t.take(k)[i] == t[i]);
            }
            lemma_relation_gcd_scaled(s.take(k), t.take(k), g);
            assert(relation_gcd(s.take(k)) <= i64::MAX);
            assert(relation_gcd(t.take(k)) <= relation_gcd(s.take(k))) by (nonlinear_arith)
                requires
                    relation_gcd(s.take(k)) == g * relation_gcd(t.take(k)),
                    g >= 1,
            ;
        }
    }
    // t is its own quotient, and its first nonzero entry is not negative
    assert(relation_divisor(t) == 1);
    assert(divided_relation(t) =~= n) by {
        assert forall|i: int| 0 <= i < t.len() implies #[trigger] divided_relation(t)[i] == n[i] by {
            assert(divided_relation(t)[i] == tdiv(t[i] as int, 1));
        }
    }
    if flip {
        lemma_leading_sign_negated(q);
    }
    assert(leading_sign(n) >= 0);
    assert(normalized_relation(t) =~= n);
}

/// The formula read from `coefficient_k * pi/4 + sum c_j arctan(1/d_j) = 0`
/// solved for `pi/4`: each nonzero `c_j` becomes `-c_j / target`, and the whole
/// result is `None` as soon as one of them is not divisible by `target`.
pub open spec fn formula_from_coefficients(coefficients: Seq<i64>, denominators: Seq<u64>, target: i64) -> Option<
    Seq<Term>,
>
    decreases coefficients.len(),
{
    if coefficients.len() == 0 || denominators.len() == 0 {
        Some(Seq::empty())
    } else {
        let c = coefficients[0];
        let rest = formula_from_coefficients(coefficients.drop_first(), denominators.drop_first(), target);
        if c == 0 {
            rest
        } else if abs(c as int) % abs(target as int) != 0 {
            None
        } else {
            match rest {
                Some(terms) => Some(
                    seq![Term { coefficient: tdiv(-c, target as int) as i64, denominator: denominators[0] }]
                        + terms,
                ),
                None => None,
            }
        }
    }
}

/// No coefficient that is read (before the first indivisible one) is `i64::MIN`.
pub open spec fn formula_coefficients_fit(coefficients: Seq<i64>, denominators: Seq<u64>, target: i64) -> bool
    decreases coefficients.len(),
{
    if coefficients.len() == 0 || denominators.len() == 0 {
        true
    } else {
        let c = coefficients[0];
        let rest = formula_coefficients_fit(coefficients.drop_first(), denominators.drop_first(), target);
        if c == 0 {
            rest
        } else if c == i64::MIN {
            false
        } else if abs(c as int) % abs(target as int) != 0 {
            true
        } else {
            rest
        }
    }
}

/// Solves a relation `[target, c_1, ..., c_k]` for `pi/4`.
pub open spec fn relation_formula(relation: Seq<i64>, denominators: Seq<u64>) -> Option<Seq<Term>> {
    if relation.len() == 0 || relation[0] == 0 {
        None
    } else {
        formula_from_coefficients(relation.drop_first(), denominators, relation[0])
    }
}

/// The terms of a coefficient list over the denominators, leaving out the
/// zero coefficients.
pub open spec fn nonzero_terms(coefficients: Seq<i64>, denominators: Seq<u64>) -> Seq<Term>
    decreases coefficients.len(),
{
    if coefficients.len() == 0 || denominators.len() == 0 {
        Seq::empty()
    } else {
        let rest = nonzero_terms(coefficients.drop_first(), denominators.drop_first());
        if coefficients[0] == 0 {
            rest
        } else {
            seq![Term { coefficient: coefficients[0], denominator: denominators[0] }] + rest
        }
    }
}

/// The relation `pi/4 - sum c_j arctan(1/d_j) = 0` of a formula's
/// coefficients.
pub open spec fn formula_relation(coefficients: Seq<i64>) -> Seq<i64> {
    seq![1i64] + coefficients.map_values(|v: i64| (-v) as i64)
}

proof fn lemma_negated_coefficients(coefficients: Seq<i64>, denominators: Seq<u64>)
    requires
        forall|i: int| 0 <= i < coefficients.len() ==> #[trigger] coefficients[i] > i64::MIN,
    ensures
        formula_from_coefficients(coefficients.map_values(|v: i64| (-v) as i64), denominators, 1)
            == Some(nonzero_terms(coefficients, denominators)),
    decreases coefficients.len(),
{
    let negated = coefficients.map_values(|v: i64| (-v) as i64);
    if coefficients.len() > 0 && denominators.len() > 0 {
        let tail = coefficients.drop_first();
        assert forall|i: int| 0 <= i < tail.len() implies #[trigger] tail[i] > i64::MIN by {
            assert(tail[i] == coefficients[i + 1]);
        }
        lemma_negated_coefficients(tail, denominators.drop_first());
        assert(negated.drop_first() =~= tail.map_values(|v: i64| (-v) as i64));
        let c = coefficients[0];
        assert(c > i64::MIN);
        assert(negated[0] == -c);
        if c != 0 {
            assert(abs(negated[0] as int) % abs(1int) == 0);
            assert(tdiv(-(negated[0] as int), 1) == c);
        }
    }
}

proof fn lemma_scaled_division(c: int, t: int, k: int)
    requires
        t != 0,
        k != 0,
        c != 0,
    ensures
        (abs(k * c) % abs(k * t) == 0) == (abs(c) % abs(t) == 0),
        abs(c) % abs(t) == 0 ==> tdiv(-(k * c), k * t) == tdiv(-c, t),
{
    let ak = abs(k);
    let ac = abs(c);
    let at = abs(t);
    assert(abs(k * c) == ak * ac && abs(k * t) == ak * at) by (nonlinear_arith)
        requires
            ak == abs(k),
            ac == abs(c),
            at == abs(t),
    ;
    assert(ak * at > 0) by (nonlinear_arith)
        requires
            ak > 0,
            at > 0,
    ;
    lemma_fundamental_div_mod(ac, at);
    lemma_fundamental_div_mod(ak * ac, ak * at);
    let m = ac / at;
    let r = ac % at;
    let m2 = (ak * ac) / (ak * at);
    let r2 = (ak * ac) % (ak * at);
    assert(ak * ac == (ak * at) * m + ak * r) by (nonlinear_arith)
        requires
            ac == at * m + r,
    ;
    assert(0 <= ak * r < ak * at) by (nonlinear_arith)
        requires
            0 <= r < at,
            ak > 0,
    ;
    vstd::arithmetic::div_mod::lemma_fundamental_div_mod_converse(ak * ac, ak * at, m, ak * r);
    assert(r2 == ak * r);
    assert(m2 == m);
    assert((ak * r == 0) == (r == 0)) by (nonlinear_arith)
        requires
            ak > 0,
    ;
    if r == 0 {
        assert(abs(-(k * c)) == abs(k * c));
        assert(abs(-c) == ac);
        assert(((-(k * c)) < 0) != ((k * t) < 0) <==> ((-c) < 0) != (t < 0)) by (nonlinear_arith)
            requires
                k != 0,
                c != 0,
                t != 0,
        ;
    }
}

proof fn lemma_scaled_coefficients(s: Seq<i64>, r: Seq<i64>, denominators: Seq<u64>, ts: i64, t: i64, k: int)
    requires
        s.len() == r.len(),
        k != 0,
        t != 0,
        ts as int == k * t as int,
        forall|i: int| 0 <= i < s.len() ==> #[trigger] s[i] as int == k * r[i] as int,
    ensures
        formula_from_coefficients(s, denominators, ts) == formula_from_coefficients(r, denominators, t),
    decreases s.len(),
{
    if s.len() > 0 && denominators.len() > 0 {
        assert forall|i: int| 0 <= i < s.drop_first().len() implies #[trigger] s.drop_first()[i] as int == k
            * r.drop_first()[i] as int by {
            assert(s.drop_first()[i] == s[i + 1]);
            assert(r.drop_first()[i] == r[i + 1]);
        }
        lemma_scaled_coefficients(s.drop_first(), r.drop_first(), denominators.drop_first(), ts, t, k);
        let c = r[0] as int;
        assert(s[0] as int == k * c);
        if c == 0 {
            assert(k * c == 0) by (nonlinear_arith)
                requires
                    c == 0,
            ;
        } else {
            assert(k * c != 0) by (nonlinear_arith)
                requires
                    c != 0,
                    k != 0,
            ;
            lemma_scaled_division(c, t as int, k);
        }
    }
}

/// Scaling a relation by a nonzero factor does not change the formula it
/// solves to.
pub proof fn relation_to_formula_ignores_scaling(s: Seq<i64>, r: Seq<i64>, denominators: Seq<u64>, k: int)
    requires
        s.len() == r.len(),
        k != 0,
        forall|i: int| 0 <= i < s.len() ==> #[trigger] s[i] as int == k * r[i] as int,
    ensures
        relation_formula(s, denominators) == relation_formula(r, denominators),
{
    if r.len() > 0 {
        assert(s[0] as int == k * r[0] as int);
        if r[0] == 0 {
            assert(k * 0 == 0);
        } else {
            assert(k * r[0] as int != 0) by (nonlinear_arith)
                requires
                    r[0] != 0,
                    k != 0,
            ;
            assert forall|i: int| 0 <= i < s.drop_first().len() implies #[trigger] s.drop_first()[i] as int
                == k * r.drop_first()[i] as int by {
                assert(s.drop_first()[i] == s[i + 1]);
                assert(r.drop_first()[i] == r[i + 1]);
            }
            lemma_scaled_coefficients(s.drop_first(), r.drop_first(), denominators, s[0], r[0], k);
        }
    }
}

/// Solving the relation of a formula for `pi/4` gives the formula back, with
/// its zero coefficients left out.
pub proof fn relation_to_formula_inverts_formula_relation(coefficients: Seq<i64>, denominators: Seq<u64>)
    requires
        forall|i: int| 0 <= i < coefficients.len() ==> #[trigger] coefficients[i] > i64::MIN,
    ensures
        relation_formula(formula_relation(coefficients), denominators) == Some(
            nonzero_terms(coefficients, denominators),
        ),
{
    let r = formula_relation(coefficients);
    assert(r.drop_first() =~= coefficients.map_values(|v: i64| (-v) as i64));
    assert(r[0] == 1);
    lemma_negated_coefficients(coefficients, denominators);
}

pub open spec fn relation_formula_fits(relation: Seq<i64>, denominators: Seq<u64>) -> bool {
    relation.len() == 0 || relation[0] == 0 || formula_coefficients_fit(
        relation.drop_first(),
        denominators,
        relation[0],
    )
}

proof fn lemma_formula_step(coefficients: Seq<i64>, denominators: Seq<u64>, target: i64, k: int)
    requires
        0 <= k < coefficients.len(),
        k < denominators.len(),
    ensures
        formula_from_coefficients(coefficients.skip(k), denominators.skip(k), target) == ({
            let c = coefficients[k];
            let rest = formula_from_coefficients(coefficients.skip(k + 1), denominators.skip(k + 1), target);
            if c == 0 {
                rest
            } else if abs(c as int) % abs(target as int) != 0 {
                None
            } else {
                match rest {
                    Some(terms) => Some(
                        seq![Term { coefficient: tdiv(-c, target as int) as i64, denominator: denominators[k] }]
                            + terms,
                    ),
                    None => None,
                }
            }
        }),
        formula_coefficients_fit(coefficients.skip(k), denominators.skip(k), target) == ({
            let c = coefficients[k];
            let rest = formula_coefficients_fit(coefficients.skip(k + 1), denominators.skip(k + 1), target);
            if c == 0 {
                rest
            } else if c == i64::MIN {
                false
            } else if abs(c as int) % abs(target as int) != 0 {
                true
            } else {
                rest
            }
        }),
{
    assert(coefficients.skip(k).drop_first() =~= coefficients.skip(k + 1));
    assert(denominators.skip(k).drop_first() =~= denominators.skip(k + 1));
}

pub fn relation_to_formula(relation: &[i64], denominators: &[u64]) -> (r: Option<Vec<Term>>)
    requires
        relation_formula_fits(relation@, denominators@),
    ensures
        r matches Some(v) ==> relation_formula(relation@, denominators@) == Some(v@),
        r is None ==> relation_formula(relation@, denominators@) is None,
{
    if relation.len() == 0 {
        return None;
    }
    let target = relation[0];
    if target == 0 {
        return None;
    }
    let ghost coefficients = relation@.drop_first();
    let ghost dens = denominators@;
    let length = if relation.len() - 1 < denominators.len() {
        relation.len() - 1
    } else {
        denominators.len()
    };
    let mut collected: Vec<Term> = Vec::new();
    let mut k: usize = 0;
    proof {
        assert(coefficients.skip(0) =~= coefficients);
        assert(dens.skip(0) =~= dens);
        match formula_from_coefficients(coefficients, dens, target) {
            Some(rest) => {
                assert(collected@ + rest =~= rest);
            },
            None => {},
        }
    }
    // The result is `collected ++ formula(rest)` for the part still to read.
    while k < length
        invariant
            relation@.len() == coefficients.len() + 1,
            coefficients == relation@.drop_first(),
            dens == denominators@,
            target == relation@[0],
            target != 0,
            length <= coefficients.len(),
            length <= dens.len(),
            length == coefficients.len() || length == dens.len(),
            k <= length,
            formula_coefficients_fit(coefficients.skip(k as int), dens.skip(k as int), target),
            formula_from_coefficients(coefficients, dens, target) == (match formula_from_coefficients(
                coefficients.skip(k as int),
                dens.skip(k as int),
                target,
            ) {
                Some(rest) => Some(collected@ + rest),
                None => None::<Seq<Term>>,
            }),
        decreases length - k,
    {
        proof {
            lemma_formula_step(coefficients, dens, target, k as int);
        }
        let coefficient = relation[k + 1];
        if coefficient != 0 {
            let magnitude = unsigned_abs(coefficient);
            let divisor = unsigned_abs(target);
            if magnitude % divisor != 0 {
                return None;
            }
            let value = trunc_div(-coefficient, target);
            let ghost before = collected@;
            collected.push(Term { coefficient: value, denominator: denominators[k] });
            proof {
                let term = Term { coefficient: value, denominator: denominators[k as int] };
                assert(collected@ == before + seq![term]);
                match formula_from_coefficients(coefficients.skip(k + 1), dens.skip(k + 1), target) {
                    Some(rest) => {
                        assert(before + (seq![term] + rest) =~= collected@ + rest);
                    },
                    None => {},
                }
            }
        }
        k += 1;
    }
    proof {
        assert(coefficients.skip(k as int).len() == 0 || dens.skip(k as int).len() == 0);
        assert(collected@ + Seq::<Term>::empty() =~= collected@);
    }
    Some(collected)
}

} // verus!
