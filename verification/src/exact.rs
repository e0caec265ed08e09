//! Exhaustive meet-in-the-middle search for Machin-type formulas over a
//! bounded denominator, coefficient and support space.
use crate::bignum::{abs, gcd, tdiv, Int};
use crate::formula::{
    fixed_arctan, fixed_arctan_reciprocal, formula_quotient, gconj, gmul, gpow, is_exact_formula,
    lemma_gcd_divides, lemma_gmul_assoc, lemma_gmul_comm, lemma_gmul_one, negative_product,
    positive_product, Gaussian, Term,
};
use vstd::arithmetic::div_mod::lemma_fundamental_div_mod;
use vstd::arithmetic::mul::{lemma_mul_is_distributive_add, lemma_mul_is_distributive_sub};
use crate::parse::{append_decimal, decimal_text, fixed_text, number_text};
use vstd::arithmetic::power::pow;
use vstd::prelude::*;
use vstd::string::StringExecFns;

verus! {

pub const MAX_PARTIAL_STATES: u64 = 10_000_000;

// ---------------------------------------------------------------------------
// Counting the states
// ---------------------------------------------------------------------------

/// The binomial coefficient, by Pascal's rule.
pub open spec fn binomial(n: nat, k: nat) -> nat
    decreases n,
{
    if k == 0 {
        1
    } else if n == 0 {
        0
    } else {
        binomial((n - 1) as nat, (k - 1) as nat) + binomial((n - 1) as nat, k)
    }
}

proof fn lemma_binomial_above(n: nat, k: nat)
    requires
        k > n,
    ensures
        binomial(n, k) == 0,
    decreases n,
{
    if n > 0 {
        lemma_binomial_above((n - 1) as nat, (k - 1) as nat);
        lemma_binomial_above((n - 1) as nat, k);
    }
}

proof fn lemma_binomial_one(n: nat)
    ensures
        binomial(n, 1) == n,
    decreases n,
{
    if n > 0 {
        lemma_binomial_one((n - 1) as nat);
        assert(binomial((n - 1) as nat, 0) == 1);
    }
}

/// `C(n, i) * (n - i) == C(n, i + 1) * (i + 1)`.
proof fn lemma_binomial_step(n: nat, i: nat)
    requires
        i <= n,
    ensures
        binomial(n, i) * (n - i) == binomial(n, i + 1) * (i + 1),
    decreases n,
{
    if n == 0 {
        lemma_binomial_above(0, 1);
        assert(i + 1 == 1);
        assert(binomial(n, i + 1) == 0);
        assert(binomial(n, i) * (n - i) == 0);
    } else if i == 0 {
        lemma_binomial_one(n);
        assert(binomial(n, 0) == 1);
        assert(i + 1 == 1);
        assert(binomial(n, i + 1) == n);
        assert(binomial(n, i) * (n - i) == n);
    } else {
        let m = (n - 1) as nat;
        let a = binomial(m, (i - 1) as nat);
        let b = binomial(m, i);
        let c = binomial(m, i + 1);
        if i <= m {
            lemma_binomial_step(m, i);
        } else {
            lemma_binomial_above(m, i + 1);
            lemma_binomial_above(m, i);
            assert(b * (m - i) == 0) by (nonlinear_arith)
                requires
                    b == 0,
            ;
            assert(c * (i + 1) == 0) by (nonlinear_arith)
                requires
                    c == 0,
            ;
        }
        lemma_binomial_step(m, (i - 1) as nat);
        assert(binomial(n, i) == a + b);
        assert(binomial(n, i + 1) == b + c);
        assert(a * (m - (i - 1)) == b * i);
        assert(b * (m - i) == c * (i + 1));
        assert((a + b) * (n - i) == (b + c) * (i + 1)) by (nonlinear_arith)
            requires
                a * (m - (i - 1)) == b * i,
                b * (m - i) == c * (i + 1),
                m == n - 1,
                1 <= i <= n,
        ;
    }
}

proof fn lemma_binomial_symmetric(n: nat, k: nat)
    requires
        k <= n,
    ensures
        binomial(n, k) == binomial(n, (n - k) as nat),
    decreases n,
{
    if n > 0 {
        if k == 0 {
            lemma_binomial_top(n);
        } else if k == n {
            lemma_binomial_top(n);
        } else {
            lemma_binomial_symmetric((n - 1) as nat, (k - 1) as nat);
            lemma_binomial_symmetric((n - 1) as nat, k);
            assert(binomial(n, (n - k) as nat) == binomial((n - 1) as nat, (n - k - 1) as nat)
                + binomial((n - 1) as nat, (n - k) as nat));
        }
    }
}

proof fn lemma_binomial_top(n: nat)
    ensures
        binomial(n, n) == 1,
    decreases n,
{
    if n > 0 {
        lemma_binomial_top((n - 1) as nat);
        lemma_binomial_above((n - 1) as nat, n);
    }
}

/// `C(n, i) <= C(n, j)` for `i <= j <= n / 2`.
proof fn lemma_binomial_monotone(n: nat, i: nat, j: nat)
    requires
        i <= j,
        2 * j <= n,
    ensures
        binomial(n, i) <= binomial(n, j),
    decreases j - i,
{
    if i < j {
        lemma_binomial_step(n, i);
        let a = binomial(n, i);
        let b = binomial(n, i + 1);
        assert(b >= a) by (nonlinear_arith)
            requires
                a * (n - i) == b * (i + 1),
                n - i >= i + 1,
                a >= 0,
                b >= 0,
        ;
        lemma_binomial_monotone(n, i + 1, j);
    }
}

/// The multiplicative formula for `C(n, k)` over `min(k, n - k)` factors
/// leaves `u128` at some step: `C(n, i) * (n - i)` is too large for some
/// `i < min(k, n - k)`.
pub open spec fn choose_overflows(n: nat, k: nat) -> bool {
    k <= n && exists|i: nat|
        i < k && i < n - k && #[trigger] binomial(n, i) * (n - i) > u128::MAX
}

/// `C(n, k)` by the multiplicative formula over `min(k, n - k)` factors;
/// `None` exactly when an intermediate product leaves `u128`, which happens
/// only when `C(n, k)` itself exceeds `u64::MAX`.
fn choose_count(n: usize, k: usize) -> (r: Option<u128>)
    ensures
        r is None <==> choose_overflows(n as nat, k as nat),
        match r {
            Some(v) => v == binomial(n as nat, k as nat),
            None => binomial(n as nat, k as nat) > u64::MAX,
        },
{
    if k > n {
        proof {
            lemma_binomial_above(n as nat, k as nat);
        }
        return Some(0);
    }
    let half = if k < n - k {
        k
    } else {
        n - k
    };
    proof {
        lemma_binomial_symmetric(n as nat, k as nat);
    }
    let mut value: u128 = 1;
    let mut i: usize = 0;
    while i < half
        invariant
            half <= n,
            2 * half <= n,
            i <= half,
            value == binomial(n as nat, i as nat),
            binomial(n as nat, k as nat) == binomial(n as nat, half as nat),
            k <= n,
            half == k || half == n - k,
            half <= k && half <= n - k,
            forall|j: nat| j < i ==> #[trigger] binomial(n as nat, j) * (n - j) <= u128::MAX,
        decreases half - i,
    {
        proof {
            lemma_binomial_step(n as nat, i as nat);
        }
        match value.checked_mul((n - i) as u128) {
            Some(product) => {
                proof {
                    let next = binomial(n as nat, (i + 1) as nat);
                    assert((next * (i + 1)) / ((i + 1) as int) == next) by (nonlinear_arith)
                        requires
                            i + 1 > 0,
                    ;
                    assert(binomial(n as nat, i as nat) * (n - i) <= u128::MAX);
                }
                value = product / (i + 1) as u128;
            },
            None => {
                proof {
                    let next = binomial(n as nat, (i + 1) as nat);
                    let m = (i + 1) as nat;
                    assert(m <= 0x1_0000_0000_0000_0000);
                    assert(value * (n - i) > u128::MAX);
                    assert(next * m > u128::MAX);
                    assert(next > u64::MAX) by (nonlinear_arith)
                        requires
                            next * m > u128::MAX,
                            m <= 0x1_0000_0000_0000_0000,
                            next >= 0,
                    ;
                    lemma_binomial_monotone(n as nat, (i + 1) as nat, half as nat);
                    assert(binomial(n as nat, i as nat) * (n - i) > u128::MAX);
                }
                return None;
            },
        }
        i += 1;
    }
    proof {
        if choose_overflows(n as nat, k as nat) {
            let j = choose|j: nat| j < k && j < n - k && #[trigger] binomial(n as nat, j) * (n - j) > u128::MAX;
            assert(j < half);
            assert(binomial(n as nat, j) * (n - j) <= u128::MAX);
        }
    }
    Some(value)
}

/// `min(a + b, u128::MAX)`.
pub open spec fn sat_add(a: nat, b: nat) -> nat {
    if a + b > u128::MAX {
        u128::MAX as nat
    } else {
        a + b
    }
}

/// `min(a * b, u128::MAX)`.
pub open spec fn sat_mul(a: nat, b: nat) -> nat {
    if a * b > u128::MAX {
        u128::MAX as nat
    } else {
        a * b
    }
}

/// `min(x^e, u128::MAX)`.
pub open spec fn sat_pow(x: nat, e: nat) -> nat {
    if pow(x as int, e) > u128::MAX {
        u128::MAX as nat
    } else {
        pow(x as int, e) as nat
    }
}

/// `u128::saturating_mul`.
fn saturating_mul(a: u128, b: u128) -> (r: u128)
    ensures
        r == sat_mul(a as nat, b as nat),
{
    match a.checked_mul(b) {
        Some(v) => v,
        None => u128::MAX,
    }
}

/// `u128::saturating_pow`.
fn saturating_pow(x: u128, e: u32) -> (r: u128)
    ensures
        r == sat_pow(x as nat, e as nat),
{
    let mut value: u128 = 1;
    let mut i: u32 = 0;
    proof {
        vstd::arithmetic::power::lemma_pow0(x as int);
    }
    while i < e
        invariant
            i <= e,
            value == sat_pow(x as nat, i as nat),
        decreases e - i,
    {
        proof {
            vstd::arithmetic::power::lemma_pow_adds(x as int, i as nat, 1);
            vstd::arithmetic::power::lemma_pow1(x as int);
            lemma_pow_nonnegative(x as nat, i as nat);
            let p = pow(x as int, i as nat);
            assert(pow(x as int, (i + 1) as nat) == p * x);
            if x >= 1 {
                assert(p * x >= p) by (nonlinear_arith)
                    requires
                        x >= 1,
                        p >= 0,
                ;
            } else {
                assert(p * x == 0) by (nonlinear_arith)
                    requires
                        x == 0,
                ;
            }
        }
        value = if value == u128::MAX && x >= 1 {
            u128::MAX
        } else {
            saturating_mul(value, x)
        };
        i += 1;
    }
    value
}

proof fn lemma_pow_nonnegative(x: nat, e: nat)
    ensures
        pow(x as int, e) >= 0,
{
    if x > 0 {
        vstd::arithmetic::power::lemma_pow_positive(x as int, e);
    } else if e == 0 {
        vstd::arithmetic::power::lemma_pow0(0);
    } else {
        vstd::arithmetic::power::lemma0_pow(e);
    }
}

/// Saturating count of the partial states with up to `t` terms over `n`
/// denominators with `choices` coefficient choices each.
pub open spec fn count_upto(n: nat, choices: nat, t: nat) -> nat
    decreases t,
{
    let here = sat_mul(binomial(n, t), sat_pow(choices, (t as u32) as nat));
    if t == 0 {
        here
    } else {
        sat_add(count_upto(n, choices, (t - 1) as nat), here)
    }
}

/// The number of partial states (saturating at `u64::MAX`).
pub open spec fn state_count_spec(n: nat, max_terms: nat, coefficient_limit: nat) -> nat {
    let t = if max_terms < n {
        max_terms
    } else {
        n
    };
    let c = count_upto(n, coefficient_limit * 2, t);
    if c > u64::MAX {
        u64::MAX as nat
    } else {
        c
    }
}

/// Every term of the saturating sum is at most the sum.
proof fn lemma_count_upto_term(n: nat, choices: nat, t: nat, s: nat)
    requires
        s <= t,
    ensures
        count_upto(n, choices, t) >= sat_mul(binomial(n, s), sat_pow(choices, (s as u32) as nat)),
    decreases t,
{
    if t > 0 && s < t {
        lemma_count_upto_term(n, choices, (t - 1) as nat, s);
    }
}

/// The count of the partial states with exactly `t` terms, `C(n, t) * choices^t`
/// saturated at `u128::MAX`; `None` when it exceeds `u64::MAX` anyway.
fn count_term(n: usize, t: usize, choices: u128) -> (r: Option<u128>)
    ensures
        match r {
            Some(v) => v == sat_mul(binomial(n as nat, t as nat), sat_pow(choices as nat, (t as u32) as nat)),
            None => sat_mul(binomial(n as nat, t as nat), sat_pow(choices as nat, (t as u32) as nat)) > u64::MAX,
        },
{
    #[verifier::truncate]
    let exponent = t as u32;
    let power = saturating_pow(choices, exponent);
    if power == 0 {
        proof {
            assert(binomial(n as nat, t as nat) * 0 == 0);
        }
        return Some(0);
    }
    match choose_count(n, t) {
        Some(c) => Some(saturating_mul(c, power)),
        None => {
            proof {
                let c = binomial(n as nat, t as nat);
                let p = sat_pow(choices as nat, exponent as nat);
                assert(c * p >= c) by (nonlinear_arith)
                    requires
                        p >= 1,
                        c >= 0,
                ;
            }
            None
        },
    }
}

/// The number of partial states over `n` denominators, clamped to `u64::MAX`.
fn state_count(n: usize, max_terms: usize, coefficient_limit: u32) -> (r: u64)
    ensures
        r == state_count_spec(n as nat, max_terms as nat, coefficient_limit as nat),
{
    let choices = (coefficient_limit as u128) * 2;
    let limit = if max_terms < n {
        max_terms
    } else {
        n
    };
    let mut total: u128 = match count_term(n, 0, choices) {
        Some(h) => h,
        None => {
            proof {
                lemma_count_upto_term(n as nat, choices as nat, limit as nat, 0);
            }
            return u64::MAX;
        },
    };
    let mut terms: usize = 0;
    while terms < limit
        invariant
            limit == (if max_terms < n {
                max_terms
            } else {
                n
            }),
            terms <= limit,
            choices == coefficient_limit * 2,
            total == count_upto(n as nat, choices as nat, terms as nat),
        decreases limit - terms,
    {
        terms += 1;
        match count_term(n, terms, choices) {
            Some(h) => {
                total = total.saturating_add(h);
            },
            None => {
                proof {
                    lemma_count_upto_term(n as nat, choices as nat, limit as nat, terms as nat);
                }
                return u64::MAX;
            },
        }
    }
    if total > u64::MAX as u128 {
        u64::MAX
    } else {
        total as u64
    }
}

// ---------------------------------------------------------------------------
// Results and progress
// ---------------------------------------------------------------------------

#[derive(Clone, Debug)]
pub struct ExactFormula {
    pub formula: Vec<Term>,
}

#[derive(Debug)]
pub struct ExactSearchResult {
    pub denominators: Vec<u64>,
    pub formulas: Vec<ExactFormula>,
    pub exact: bool,
    pub processed_states: u64,
    pub total_states: u64,
    pub note: String,
}

#[derive(Debug)]
pub struct ExactProgress {
    pub phase: &'static str,
    pub processed: u64,
    pub total: u64,
    pub formulas_found: usize,
    pub formula: Option<Vec<Term>>,
    pub message: String,
}

/// Receives the progress events of an exhaustive search.
pub trait ExactProgressSink {
    fn report(&mut self, event: ExactProgress);
}

/// A progress event as plain values: phase, processed states, total states,
/// formulas found, the formula, and the message.
pub type ExactEvent = (Seq<char>, u64, u64, usize, Option<Seq<Term>>, Seq<char>);

pub open spec fn exact_event(e: ExactProgress) -> ExactEvent {
    (
        e.phase@,
        e.processed,
        e.total,
        e.formulas_found,
        match e.formula {
            Some(f) => Some(f@),
            None => None,
        },
        e.message@,
    )
}

/// A progress receiver together with the log of the events handed to it.
pub struct ExactLog<P> {
    pub sink: P,
    pub(crate) log: Ghost<Seq<ExactEvent>>,
}

impl<P> ExactLog<P> {
    /// The events handed to the receiver so far.
    pub closed spec fn events(&self) -> Seq<ExactEvent> {
        self.log@
    }

    pub fn new(sink: P) -> (r: Self)
        ensures
            r.events() == Seq::<ExactEvent>::empty(),
    {
        ExactLog { sink, log: Ghost(Seq::empty()) }
    }
}

impl<P: ExactProgressSink> ExactLog<P> {
    /// Hands the event to the receiver and records it.
    pub fn report(&mut self, event: ExactProgress)
        ensures
            final(self).events() == old(self).events().push(exact_event(event)),
    {
        self.log = Ghost(self.log@.push(exact_event(event)));
        self.sink.report(event);
    }
}

/// The "formula" events among `ev`, in order.
pub open spec fn formula_events(ev: Seq<ExactEvent>) -> Seq<ExactEvent>
    decreases ev.len(),
{
    if ev.len() == 0 {
        Seq::empty()
    } else if ev.last().0 == "formula"@ {
        formula_events(ev.drop_last()).push(ev.last())
    } else {
        formula_events(ev.drop_last())
    }
}

/// The events of a search so far: a "generate" event at 0 processed states
/// first, the total on every event, and one "formula" event per formula in
/// `found`, in order, carrying the formula and the count up to it.
pub open spec fn events_so_far(ev: Seq<ExactEvent>, total: u64, found: Seq<Seq<Term>>) -> bool {
    &&& ev.len() >= 1
    &&& ev[0].0 == "generate"@
    &&& ev[0].1 == 0
    &&& forall|i: int| 0 <= i < ev.len() ==> (#[trigger] ev[i]).2 == total
    &&& formula_events(ev).len() == found.len()
    &&& forall|i: int|
        0 <= i < found.len() ==> (#[trigger] formula_events(ev)[i]).4 == Some(found[i]) && formula_events(
            ev,
        )[i].3 == i + 1
}

/// The events of a whole search: as `events_so_far` says for its formulas,
/// ending with a "complete" event at all states processed.
pub open spec fn exact_events_ok(ev: Seq<ExactEvent>, result: ExactSearchResult) -> bool {
    &&& events_so_far(ev, result.total_states, formulas_of(result.formulas@))
    &&& ev.last().0 == "complete"@
    &&& ev.last().1 == result.total_states
    &&& ev.last().3 == result.formulas@.len()
}

proof fn lemma_phases_differ()
    ensures
        "generate"@ != "formula"@,
        "match"@ != "formula"@,
        "complete"@ != "formula"@,
{
    reveal_strlit("generate");
    reveal_strlit("formula");
    reveal_strlit("match");
    reveal_strlit("complete");
    assert("generate"@.len() == 8 && "formula"@.len() == 7);
    assert("match"@.len() == 5);
    assert("complete"@[0] != "formula"@[0]);
}

proof fn lemma_event_other(ev: Seq<ExactEvent>, e: ExactEvent, total: u64, found: Seq<Seq<Term>>)
    requires
        events_so_far(ev, total, found),
        e.0 != "formula"@,
        e.2 == total,
    ensures
        events_so_far(ev.push(e), total, found),
{
    assert(ev.push(e).drop_last() =~= ev);
    assert(ev.push(e)[0] == ev[0]);
}

proof fn lemma_event_formula(ev: Seq<ExactEvent>, e: ExactEvent, total: u64, found: Seq<Seq<Term>>, f: Seq<Term>)
    requires
        events_so_far(ev, total, found),
        e.0 == "formula"@,
        e.2 == total,
        e.3 == found.len() + 1,
        e.4 == Some(f),
    ensures
        events_so_far(ev.push(e), total, found.push(f)),
{
    let g = found.push(f);
    assert(ev.push(e).drop_last() =~= ev);
    assert(ev.push(e)[0] == ev[0]);
    assert(formula_events(ev.push(e)) == formula_events(ev).push(e));
    assert forall|i: int| 0 <= i < g.len() implies (#[trigger] formula_events(ev.push(e))[i]).4 == Some(g[i])
        && formula_events(ev.push(e))[i].3 == i + 1 by {
        if i < found.len() {
            assert(formula_events(ev.push(e))[i] == formula_events(ev)[i]);
        }
    }
}

// ---------------------------------------------------------------------------
// Gaussian directions and fixed-point angles
// ---------------------------------------------------------------------------

/// The Gaussian integer `(d + i)^c` for `c > 0`, `(d - i)^|c|` otherwise.
pub open spec fn contribution(c: int, d: int) -> (int, int) {
    if c > 0 {
        gpow((d, 1), c as nat)
    } else {
        gpow((d, -1), (-c) as nat)
    }
}

/// `prod (d_j +- i)^|c_j|` over the terms in order.
pub open spec fn formula_product(terms: Seq<Term>) -> (int, int)
    decreases terms.len(),
{
    if terms.len() == 0 {
        (1, 0)
    } else {
        gmul(
            formula_product(terms.drop_last()),
            contribution(terms.last().coefficient as int, terms.last().denominator as int),
        )
    }
}

/// A Gaussian integer divided by the gcd of its parts (unchanged when zero):
/// the direction of the point, up to a positive factor.
pub open spec fn direction(z: (int, int)) -> (int, int) {
    let g = gcd(abs(z.0) as nat, abs(z.1) as nat);
    if g == 0 {
        z
    } else {
        (tdiv(z.0, g as int), tdiv(z.1, g as int))
    }
}

/// The direction a second factor must have so that the product points along `1 + i`.
pub open spec fn target_direction(k: (int, int)) -> (int, int) {
    direction((k.0 + k.1, k.0 - k.1))
}

/// Scale of the fixed-point angles, `2^64`.
pub open spec fn angle_scale() -> int {
    0x1_0000_0000_0000_0000
}

/// `pi/4` in fixed point by Machin's formula.
pub open spec fn fixed_pi_over_four() -> int {
    4 * fixed_arctan(5, angle_scale()) - fixed_arctan(239, angle_scale())
}

/// `arctan(1/d)` in fixed point; `arctan(1/0)` is `pi/2`.
pub open spec fn unit_angle(d: int) -> int {
    if d == 0 {
        2 * fixed_pi_over_four()
    } else {
        fixed_arctan(d, angle_scale())
    }
}

/// `sum c_j arctan(1/d_j)` in fixed point.
pub open spec fn formula_angle(terms: Seq<Term>) -> int
    decreases terms.len(),
{
    if terms.len() == 0 {
        0
    } else {
        formula_angle(terms.drop_last()) + terms.last().coefficient * unit_angle(
            terms.last().denominator as int,
        )
    }
}

/// Angles closer than this to `pi/4` (about `1e-12` at scale `2^64`) count as equal.
pub const ANGLE_TOLERANCE: u64 = 18446744;

#[derive(Debug)]
struct DirectionKey {
    re: Int,
    im: Int,
}

impl DirectionKey {
    spec fn value(&self) -> (int, int) {
        (self.re@, self.im@)
    }

    fn from_gaussian(value: &Gaussian) -> (r: Self)
        ensures
            r.value() == direction(value.value()),
    {
        let gcd = Int::gcd(&value.re.absolute(), &value.im.absolute());
        if gcd.is_zero() {
            return Self { re: value.re.clone(), im: value.im.clone() };
        }
        Self { re: Int::quotient(&value.re, &gcd), im: Int::quotient(&value.im, &gcd) }
    }

    fn target_after(&self) -> (r: Self)
        ensures
            r.value() == target_direction(self.value()),
    {
        let desired = Gaussian {
            re: Int::plus(&self.re, &self.im),
            im: Int::minus(&self.re, &self.im),
        };
        Self::from_gaussian(&desired)
    }

    fn equals(&self, other: &Self) -> (r: bool)
        ensures
            r == (self.value() == other.value()),
    {
        Int::equal_to(&self.re, &other.re) && Int::equal_to(&self.im, &other.im)
    }

    fn duplicate(&self) -> (r: Self)
        ensures
            r.value() == self.value(),
    {
        Self { re: self.re.clone(), im: self.im.clone() }
    }
}

#[derive(Debug)]
struct Partial {
    direction: DirectionKey,
    terms: Vec<Term>,
    angle: Int,
}

impl Partial {
    /// The direction and angle are those of the terms.
    spec fn consistent(&self) -> bool {
        &&& self.direction.value() == direction(formula_product(self.terms@))
        &&& self.angle@ == formula_angle(self.terms@)
    }
}

spec fn terms_of(partials: Seq<Partial>) -> Seq<Seq<Term>> {
    partials.map_values(|p: Partial| p.terms@)
}

/// A partial state that extends `prefix` and whose direction and angle are
/// those of `g` and `a0` carried on through the terms after the prefix.
spec fn extends(p: Partial, prefix: Seq<Term>, g: (int, int), a0: int) -> bool {
    let added = p.terms@.skip(prefix.len() as int);
    &&& p.terms@.len() >= prefix.len()
    &&& p.terms@.take(prefix.len() as int) == prefix
    &&& p.direction.value() == direction(gmul(g, formula_product(added)))
    &&& p.angle@ == a0 + formula_angle(added)
}

proof fn lemma_extends_step(p: Partial, prefix: Seq<Term>, term: Term, g: (int, int), a0: int)
    requires
        extends(
            p,
            prefix.push(term),
            gmul(g, contribution(term.coefficient as int, term.denominator as int)),
            a0 + term.coefficient * unit_angle(term.denominator as int),
        ),
    ensures
        extends(p, prefix, g, a0),
{
    let n = prefix.len() as int;
    let t = p.terms@;
    let rest = t.skip(n + 1);
    let single = seq![term];
    let c = contribution(term.coefficient as int, term.denominator as int);
    assert(t.take(n + 1)[n] == term);
    assert(t.take(n) =~= t.take(n + 1).drop_last());
    assert(prefix.push(term).drop_last() =~= prefix);
    assert(t.skip(n) =~= single + rest);
    lemma_product_concat(single, rest);
    assert(single.drop_last() =~= Seq::<Term>::empty());
    assert(single.last() == term);
    assert(formula_product(Seq::<Term>::empty()) == (1int, 0int));
    assert(formula_angle(Seq::<Term>::empty()) == 0);
    assert(formula_product(single) == gmul((1int, 0int), c));
    assert(formula_angle(single) == 0 + term.coefficient * unit_angle(term.denominator as int));
    lemma_gmul_one(c);
    assert(formula_product(single) == c);
    lemma_gmul_assoc(g, c, formula_product(rest));
    crate::space::lemma_angle_concat(single, rest);
    assert(formula_angle(single) == term.coefficient * unit_angle(term.denominator as int));
}

/// Partial states from the empty prefix, the product 1 and the angle 0 are
/// consistent.
proof fn lemma_extends_empty(p: Partial)
    requires
        extends(p, Seq::empty(), (1, 0), 0),
    ensures
        p.consistent(),
{
    assert(p.terms@.skip(0) =~= p.terms@);
    lemma_gmul_one(formula_product(p.terms@));
}

spec fn all_consistent(partials: Seq<Partial>) -> bool {
    forall|i: int| 0 <= i < partials.len() ==> (#[trigger] partials[i]).consistent()
}

// ---------------------------------------------------------------------------
// Enumeration
// ---------------------------------------------------------------------------

/// The k-th coefficient choice at a denominator: `1, -1, 2, -2, ...`.
pub open spec fn choice_coefficient(k: nat) -> int {
    if k % 2 == 0 {
        (k / 2 + 1) as int
    } else {
        -((k / 2 + 1) as int)
    }
}

/// Depth-first list of the term lists extending `prefix` with denominators at
/// index `start` or later, each used at most once, up to `max_terms` terms,
/// with coefficients `+-1..=limit`: the prefix itself first.
pub open spec fn subtree(dens: Seq<u64>, limit: nat, max_terms: nat, prefix: Seq<Term>, start: nat) -> Seq<
    Seq<Term>,
>
    decreases dens.len() - start, 2 * limit + 1,
{
    if prefix.len() >= max_terms {
        seq![prefix]
    } else {
        seq![prefix] + children(dens, limit, max_terms, prefix, start, 0)
    }
}

/// The subtrees of the extensions of `prefix` by choice `k` (and later) at
/// denominator `index`, then at every later denominator.
pub open spec fn children(
    dens: Seq<u64>,
    limit: nat,
    max_terms: nat,
    prefix: Seq<Term>,
    index: nat,
    k: nat,
) -> Seq<Seq<Term>>
    decreases dens.len() - index, 2 * limit - k,
{
    if index >= dens.len() {
        Seq::empty()
    } else if k >= 2 * limit {
        children(dens, limit, max_terms, prefix, index + 1, 0)
    } else {
        let term = Term { coefficient: choice_coefficient(k) as i64, denominator: dens[index as int] };
        subtree(dens, limit, max_terms, prefix.push(term), index + 1) + children(
            dens,
            limit,
            max_terms,
            prefix,
            index,
            k + 1,
        )
    }
}

spec fn choices_ok(dens: Seq<u64>, limit: nat, choices: Seq<Vec<(i64, Gaussian)>>) -> bool {
    &&& choices.len() == dens.len()
    &&& forall|i: int| 0 <= i < dens.len() ==> (#[trigger] choices[i])@.len() == 2 * limit
    &&& forall|i: int, k: int|
        0 <= i < dens.len() && 0 <= k < 2 * limit ==> (#[trigger] choices[i]@[k]).0 == choice_coefficient(
            k as nat,
        ) && choices[i]@[k].1.value() == contribution(choice_coefficient(k as nat), dens[i] as int)
}

spec fn angles_ok(dens: Seq<u64>, angles: Seq<Int>) -> bool {
    &&& angles.len() == dens.len()
    &&& forall|i: int| 0 <= i < dens.len() ==> (#[trigger] angles[i])@ == unit_angle(dens[i] as int)
}

/// For every denominator, `(c, (d + i)^c)` and `(-c, (d - i)^c)` for `c` in `1..=limit`.
fn contributions(denominators: &[u64], coefficient_limit: u32) -> (r: Vec<Vec<(i64, Gaussian)>>)
    ensures
        choices_ok(denominators@, coefficient_limit as nat, r@),
{
    let mut all: Vec<Vec<(i64, Gaussian)>> = Vec::new();
    let mut i: usize = 0;
    while i < denominators.len()
        invariant
            i <= denominators@.len(),
            all@.len() == i,
            forall|j: int| 0 <= j < i ==> (#[trigger] all@[j])@.len() == 2 * coefficient_limit,
            forall|j: int, k: int|
                0 <= j < i && 0 <= k < 2 * coefficient_limit ==> (#[trigger] all@[j]@[k]).0
                    == choice_coefficient(k as nat) && all@[j]@[k].1.value() == contribution(
                    choice_coefficient(k as nat),
                    denominators@[j] as int,
                ),
        decreases denominators@.len() - i,
    {
        let denominator = denominators[i];
        let positive = Gaussian::new(Int::from_u64(denominator), Int::from_u64(1));
        let negative = Gaussian::new(Int::from_u64(denominator), Int::from_i64(-1));
        let mut list: Vec<(i64, Gaussian)> = Vec::new();
        let mut c: u32 = 0;
        while c < coefficient_limit
            invariant
                c <= coefficient_limit,
                list@.len() == 2 * c,
                positive.value() == (denominator as int, 1int),
                negative.value() == (denominator as int, -1int),
                forall|k: int|
                    0 <= k < list@.len() ==> (#[trigger] list@[k]).0 == choice_coefficient(k as nat)
                        && list@[k].1.value() == contribution(choice_coefficient(k as nat), denominator as int),
            decreases coefficient_limit - c,
        {
            c += 1;
            let coefficient = c as i64;
            let ghost k = list@.len();
            assert(choice_coefficient(k as nat) == c);
            assert(choice_coefficient((k + 1) as nat) == -(c as int));
            list.push((coefficient, Gaussian::pow(&positive, coefficient as u64)));
            list.push((-coefficient, Gaussian::pow(&negative, coefficient as u64)));
        }
        assert(list@.len() == 2 * coefficient_limit);
        let ghost before = all@;
        all.push(list);
        assert forall|j: int, k: int|
            0 <= j < i + 1 && 0 <= k < 2 * coefficient_limit implies (#[trigger] all@[j]@[k]).0
                == choice_coefficient(k as nat) && all@[j]@[k].1.value() == contribution(
                choice_coefficient(k as nat),
                denominators@[j] as int,
            ) by {
            if j < i {
                assert(all@[j] == before[j]);
            }
        }
        i += 1;
    }
    all
}

/// Appends to `out` the partial states of `subtree(denominators, limit,
/// max_terms, terms, start)` in that order; `product` and `angle` are those
/// of `terms`, which is left as it was.
fn enumerate(
    denominators: &[u64],
    choices: &Vec<Vec<(i64, Gaussian)>>,
    angles: &Vec<Int>,
    Ghost(limit): Ghost<nat>,
    start: usize,
    max_terms: usize,
    product: &Gaussian,
    terms: &mut Vec<Term>,
    angle: &Int,
    out: &mut Vec<Partial>,
)
    requires
        choices_ok(denominators@, limit, choices@),
        angles_ok(denominators@, angles@),
        limit <= u32::MAX,
        start <= denominators@.len(),
    ensures
        final(terms)@ == old(terms)@,
        terms_of(final(out)@) == terms_of(old(out)@) + subtree(
            denominators@,
            limit,
            max_terms as nat,
            old(terms)@,
            start as nat,
        ),
        forall|i: int| 0 <= i < old(out)@.len() ==> final(out)@[i] == old(out)@[i],
        forall|i: int|
            old(out)@.len() <= i < final(out)@.len() ==> extends(
                #[trigger] final(out)@[i],
                old(terms)@,
                product.value(),
                angle@,
            ),
    decreases denominators@.len() - start,
{
    let ghost prefix = terms@;
    let ghost base = terms_of(out@);
    let ghost dens = denominators@;
    let ghost mt = max_terms as nat;
    let ghost g = product.value();
    let ghost a0 = angle@;
    let ghost orig = out@;
    let visited = Partial {
        direction: DirectionKey::from_gaussian(product),
        terms: terms.clone(),
        angle: angle.clone(),
    };
    proof {
        assert(visited.terms@ =~= prefix);
    }
    let ghost before = out@;
    out.push(visited);
    proof {
        assert(terms_of(out@) =~= base.push(prefix));
        assert(prefix.skip(prefix.len() as int) =~= Seq::<Term>::empty());
        assert(prefix.take(prefix.len() as int) =~= prefix);
        lemma_gmul_one(g);
        assert(extends(visited, prefix, g, a0));
        assert forall|i: int| orig.len() <= i < out@.len() implies extends(#[trigger] out@[i], prefix, g, a0) by {
            assert(i == orig.len());
        }
    }
    if terms.len() >= max_terms {
        proof {
            assert(base + subtree(dens, limit, mt, prefix, start as nat) =~= base.push(prefix));
        }
        return;
    }
    proof {
        assert(subtree(dens, limit, mt, prefix, start as nat) == seq![prefix] + children(
            dens,
            limit,
            mt,
            prefix,
            start as nat,
            0,
        ));
        assert(base.push(prefix) + children(dens, limit, mt, prefix, start as nat, 0) =~= base
            + subtree(dens, limit, mt, prefix, start as nat));
    }
    let ghost goal = base + subtree(dens, limit, mt, prefix, start as nat);
    let mut index: usize = start;
    while index < denominators.len()
        invariant
            start <= index <= dens.len(),
            dens == denominators@,
            mt == max_terms,
            choices_ok(dens, limit, choices@),
            angles_ok(dens, angles@),
            limit <= u32::MAX,
            terms@ == prefix,
            product.value() == g,
            angle@ == a0,
            out@.len() >= orig.len(),
            forall|i: int| 0 <= i < orig.len() ==> out@[i] == orig[i],
            forall|i: int| orig.len() <= i < out@.len() ==> extends(#[trigger] out@[i], prefix, g, a0),
            terms_of(out@) + children(dens, limit, mt, prefix, index as nat, 0) == goal,
        decreases dens.len() - index,
    {
        let row = &choices[index];
        let mut k: usize = 0;
        while k < row.len()
            invariant
                start <= index < dens.len(),
                dens == denominators@,
                mt == max_terms,
                choices_ok(dens, limit, choices@),
                angles_ok(dens, angles@),
                limit <= u32::MAX,
                *row == choices@[index as int],
                row@.len() == 2 * limit,
                k <= row@.len(),
                terms@ == prefix,
                product.value() == g,
                angle@ == a0,
                out@.len() >= orig.len(),
                forall|i: int| 0 <= i < orig.len() ==> out@[i] == orig[i],
                forall|i: int| orig.len() <= i < out@.len() ==> extends(#[trigger] out@[i], prefix, g, a0),
                terms_of(out@) + children(dens, limit, mt, prefix, index as nat, k as nat) == goal,
            decreases row@.len() - k,
        {
            let coefficient = row[k].0;
            let denominator = denominators[index];
            let ghost term = Term { coefficient, denominator };
            proof {
                assert(coefficient == choice_coefficient(k as nat));
                assert(children(dens, limit, mt, prefix, index as nat, k as nat) == subtree(
                    dens,
                    limit,
                    mt,
                    prefix.push(term),
                    (index + 1) as nat,
                ) + children(dens, limit, mt, prefix, index as nat, (k + 1) as nat));
                assert(prefix.push(term).drop_last() =~= prefix);
            }
            terms.push(Term { coefficient, denominator });
            let next_product = product.multiply(&row[k].1);
            let step = Int::times(&Int::from_i64(coefficient), &angles[index]);
            let next_angle = Int::plus(angle, &step);
            let ghost mid = terms_of(out@);
            let ghost mid_out = out@;
            enumerate(
                denominators,
                choices,
                angles,
                Ghost(limit),
                index + 1,
                max_terms,
                &next_product,
                terms,
                &next_angle,
                out,
            );
            proof {
                assert(next_product.value() == gmul(g, contribution(term.coefficient as int, term.denominator as int)));
                assert(next_angle@ == a0 + term.coefficient * unit_angle(term.denominator as int));
                assert forall|i: int| orig.len() <= i < out@.len() implies extends(#[trigger] out@[i], prefix, g, a0) by {
                    if i < mid_out.len() {
                        assert(out@[i] == mid_out[i]);
                    } else {
                        lemma_extends_step(out@[i], prefix, term, g, a0);
                    }
                }
                assert forall|i: int| 0 <= i < orig.len() implies out@[i] == orig[i] by {
                    assert(out@[i] == mid_out[i]);
                }
                let sub = subtree(dens, limit, mt, prefix.push(term), (index + 1) as nat);
                assert(terms_of(out@) == mid + sub);
                let rest = children(dens, limit, mt, prefix, index as nat, (k + 1) as nat);
                assert((mid + sub) + rest =~= mid + (sub + rest));
            }
            terms.pop();
            proof {
                assert(terms@ =~= prefix);
                assert(terms_of(out@) + children(dens, limit, mt, prefix, index as nat, (k + 1) as nat)
                    =~= mid + children(dens, limit, mt, prefix, index as nat, k as nat));
            }
            k += 1;
        }
        proof {
            assert(children(dens, limit, mt, prefix, index as nat, k as nat) == children(
                dens,
                limit,
                mt,
                prefix,
                (index + 1) as nat,
                0,
            ));
        }
        index += 1;
    }
    proof {
        assert(children(dens, limit, mt, prefix, index as nat, 0) == Seq::<Seq<Term>>::empty());
        assert(terms_of(out@) =~= goal);
    }
}

// ---------------------------------------------------------------------------
// Matching the two halves
// ---------------------------------------------------------------------------

/// An angle in fixed point equals `pi/4` within the tolerance.
pub open spec fn angle_matches(angle: int) -> bool {
    abs(angle - fixed_pi_over_four()) <= ANGLE_TOLERANCE
}

/// A left and a right partial state that together make a formula: the
/// product of their Gaussian integers lies on the diagonal, they have between
/// one and `max_terms` terms together, and their angles sum to `pi/4`.
pub open spec fn pair_matches(left: Seq<Term>, right: Seq<Term>, max_terms: nat) -> bool {
    &&& direction(formula_product(right)) == target_direction(direction(formula_product(left)))
    &&& 0 < left.len() + right.len() <= max_terms
    &&& angle_matches(formula_angle(left) + formula_angle(right))
}

/// The formulas `left + right` for the matching `right` states, in their order.
pub open spec fn pairs_for(left: Seq<Term>, rights: Seq<Seq<Term>>, max_terms: nat) -> Seq<Seq<Term>>
    decreases rights.len(),
{
    if rights.len() == 0 {
        Seq::empty()
    } else {
        let rest = pairs_for(left, rights.drop_last(), max_terms);
        if pair_matches(left, rights.last(), max_terms) {
            rest.push(left + rights.last())
        } else {
            rest
        }
    }
}

/// The formulas of every left state in order, each with its matching right states.
pub open spec fn all_pairs(lefts: Seq<Seq<Term>>, rights: Seq<Seq<Term>>, max_terms: nat) -> Seq<
    Seq<Term>,
>
    decreases lefts.len(),
{
    if lefts.len() == 0 {
        Seq::empty()
    } else {
        all_pairs(lefts.drop_last(), rights, max_terms) + pairs_for(lefts.last(), rights, max_terms)
    }
}

/// The partial states over a list of denominators.
pub open spec fn states(dens: Seq<u64>, max_terms: nat, limit: nat) -> Seq<Seq<Term>> {
    subtree(dens, limit, max_terms, Seq::empty(), 0)
}

/// Every formula the exhaustive search reports, in order: the denominators
/// split in two halves, each half enumerated, each left state matched against
/// every right state.
pub open spec fn exact_formulas(dens: Seq<u64>, max_terms: nat, limit: nat) -> Seq<Seq<Term>> {
    let split = dens.len() / 2;
    all_pairs(
        states(dens.subrange(0, split as int), max_terms, limit),
        states(dens.subrange(split as int, dens.len() as int), max_terms, limit),
        max_terms,
    )
}

/// The states among `rs` whose direction is `key`, in order.
spec fn matching(rs: Seq<Seq<Term>>, key: (int, int)) -> Seq<Seq<Term>>
    decreases rs.len(),
{
    if rs.len() == 0 {
        Seq::empty()
    } else {
        let rest = matching(rs.drop_last(), key);
        if direction(formula_product(rs.last())) == key {
            rest.push(rs.last())
        } else {
            rest
        }
    }
}

proof fn lemma_matching_direction(rs: Seq<Seq<Term>>, key: (int, int))
    ensures
        forall|k: int|
            0 <= k < matching(rs, key).len() ==> direction(formula_product(#[trigger] matching(rs, key)[k]))
                == key,
    decreases rs.len(),
{
    if rs.len() > 0 {
        lemma_matching_direction(rs.drop_last(), key);
        let rest = matching(rs.drop_last(), key);
        if direction(formula_product(rs.last())) == key {
            assert forall|k: int| 0 <= k < rest.len() + 1 implies direction(
                formula_product(#[trigger] rest.push(rs.last())[k]),
            ) == key by {
                if k < rest.len() {
                    assert(rest.push(rs.last())[k] == rest[k]);
                }
            }
        }
    }
}

/// Only the states in the direction the left state asks for can match it.
proof fn lemma_pairs_for_matching(left: Seq<Term>, rs: Seq<Seq<Term>>, max_terms: nat)
    ensures
        pairs_for(left, rs, max_terms) == pairs_for(
            left,
            matching(rs, target_direction(direction(formula_product(left)))),
            max_terms,
        ),
    decreases rs.len(),
{
    let key = target_direction(direction(formula_product(left)));
    if rs.len() > 0 {
        lemma_pairs_for_matching(left, rs.drop_last(), max_terms);
        let m = matching(rs.drop_last(), key);
        if direction(formula_product(rs.last())) == key {
            assert(matching(rs, key) == m.push(rs.last()));
            assert(m.push(rs.last()).drop_last() =~= m);
        }
    }
}

spec fn key_less(a: (int, int), b: (int, int)) -> bool {
    a.0 < b.0 || (a.0 == b.0 && a.1 < b.1)
}

spec fn keys_sorted(keys: Seq<DirectionKey>) -> bool {
    forall|i: int, j: int|
        0 <= i < j < keys.len() ==> key_less(#[trigger] keys[i].value(), #[trigger] keys[j].value())
}

/// The term lists of the states at the given indices.
spec fn states_at(rs: Seq<Seq<Term>>, indices: Seq<usize>) -> Seq<Seq<Term>> {
    indices.map_values(|k: usize| rs[k as int])
}

/// `groups[j]` lists, in order, the indices of the first `count` states of
/// `all` that have direction `keys[j]`; the keys are sorted and every
/// direction among those states has one.
spec fn groups_ok(keys: Seq<DirectionKey>, groups: Seq<Vec<usize>>, all: Seq<Seq<Term>>, count: nat) -> bool {
    &&& count <= all.len()
    &&& keys.len() == groups.len()
    &&& keys_sorted(keys)
    &&& forall|j: int|
        0 <= j < groups.len() ==> states_at(all, (#[trigger] groups[j])@) == matching(
            all.take(count as int),
            keys[j].value(),
        )
    &&& forall|j: int, m: int|
        0 <= j < groups.len() && 0 <= m < groups[j]@.len() ==> (#[trigger] groups[j]@[m]) < count
    &&& forall|key: (int, int)|
        #![trigger matching(all.take(count as int), key)]
        matching(all.take(count as int), key).len() > 0 ==> exists|j: int|
            0 <= j < keys.len() && #[trigger] keys[j].value() == key
}

impl DirectionKey {
    fn less(&self, other: &Self) -> (r: bool)
        ensures
            r == key_less(self.value(), other.value()),
    {
        Int::less_than(&self.re, &other.re) || (Int::equal_to(&self.re, &other.re) && Int::less_than(
            &self.im,
            &other.im,
        ))
    }
}

/// Binary search among sorted keys: whether `key` is there, and where it is
/// or would be inserted.
fn find_key(keys: &Vec<DirectionKey>, key: &DirectionKey) -> (r: (bool, usize))
    requires
        keys_sorted(keys@),
    ensures
        r.1 <= keys@.len(),
        r.0 ==> r.1 < keys@.len() && keys@[r.1 as int].value() == key.value(),
        !r.0 ==> (forall|j: int| 0 <= j < r.1 ==> key_less(#[trigger] keys@[j].value(), key.value())),
        !r.0 ==> (forall|j: int|
            r.1 <= j < keys@.len() ==> key_less(key.value(), #[trigger] keys@[j].value())),
        !r.0 ==> (forall|j: int| 0 <= j < keys@.len() ==> #[trigger] keys@[j].value() != key.value()),
{
    let mut lo: usize = 0;
    let mut hi: usize = keys.len();
    while lo < hi
        invariant
            lo <= hi <= keys@.len(),
            keys_sorted(keys@),
            forall|j: int| 0 <= j < lo ==> key_less(#[trigger] keys@[j].value(), key.value()),
            forall|j: int| hi <= j < keys@.len() ==> key_less(key.value(), #[trigger] keys@[j].value()),
        decreases hi - lo,
    {
        let mid = lo + (hi - lo) / 2;
        if keys[mid].equals(key) {
            return (true, mid);
        }
        if keys[mid].less(key) {
            proof {
                assert forall|j: int| 0 <= j < mid + 1 implies key_less(
                    #[trigger] keys@[j].value(),
                    key.value(),
                ) by {
                    if j < mid {
                        assert(key_less(keys@[j].value(), keys@[mid as int].value()));
                    }
                }
            }
            lo = mid + 1;
        } else {
            proof {
                assert forall|j: int| mid <= j < keys@.len() implies key_less(
                    key.value(),
                    #[trigger] keys@[j].value(),
                ) by {
                    if j > mid {
                        assert(key_less(keys@[mid as int].value(), keys@[j].value()));
                    }
                }
            }
            hi = mid;
        }
    }
    (false, lo)
}

/// Groups the states by direction.
fn build_groups(rights: &Vec<Partial>) -> (r: (Vec<DirectionKey>, Vec<Vec<usize>>))
    requires
        all_consistent(rights@),
    ensures
        groups_ok(r.0@, r.1@, terms_of(rights@), rights@.len() as nat),
{
    let ghost all = terms_of(rights@);
    let mut keys: Vec<DirectionKey> = Vec::new();
    let mut groups: Vec<Vec<usize>> = Vec::new();
    let mut i: usize = 0;
    proof {
        assert forall|key: (int, int)| #[trigger] matching(all.take(0), key).len() == 0 by {
            assert(all.take(0).len() == 0);
        }
    }
    while i < rights.len()
        invariant
            i <= rights@.len(),
            all == terms_of(rights@),
            all_consistent(rights@),
            groups_ok(keys@, groups@, all, i as nat),
        decreases rights@.len() - i,
    {
        let partial = &rights[i];
        let ghost key = partial.direction.value();
        let ghost before = all.take(i as int);
        let ghost after = all.take(i + 1);
        proof {
            assert(partial.consistent());
            assert(after.drop_last() =~= before);
            assert(after.last() == all[i as int]);
            assert(all[i as int] == partial.terms@);
            assert(key == direction(formula_product(all[i as int])));
            assert forall|k: (int, int)| k != key implies #[trigger] matching(after, k) == matching(
                before,
                k,
            ) by {}
            assert(matching(after, key) == matching(before, key).push(all[i as int]));
        }
        let (found, pos) = find_key(&keys, &partial.direction);
        let ghost old_keys = keys@;
        let ghost old_groups = groups@;
        if found {
            let ghost g = groups@[pos as int]@;
            groups[pos].push(i);
            proof {
                assert(groups@[pos as int]@ == g.push(i));
                assert(states_at(all, g.push(i)) =~= states_at(all, g).push(all[i as int]));
                assert forall|j: int| 0 <= j < groups@.len() implies states_at(
                    all,
                    (#[trigger] groups@[j])@,
                ) == matching(after, keys@[j].value()) by {
                    if j != pos {
                        assert(groups@[j] == old_groups[j]);
                        if j < pos {
                            assert(key_less(keys@[j].value(), keys@[pos as int].value()));
                        } else {
                            assert(key_less(keys@[pos as int].value(), keys@[j].value()));
                        }
                    }
                }
                assert forall|j: int, m: int|
                    0 <= j < groups@.len() && 0 <= m < groups@[j]@.len() implies (
                    #[trigger] groups@[j]@[m]) < i + 1 by {
                    if j != pos {
                        assert(groups@[j] == old_groups[j]);
                    } else if m < g.len() {
                        assert(groups@[j]@[m] == g[m]);
                    }
                }
                assert forall|k: (int, int)| #[trigger]
                    matching(after, k).len() > 0 implies exists|j: int|
                    0 <= j < keys@.len() && #[trigger] keys@[j].value() == k by {
                    if k == key {
                        assert(keys@[pos as int].value() == k);
                    } else {
                        assert(matching(before, k).len() > 0);
                    }
                }
            }
        } else {
            proof {
                if matching(before, key).len() > 0 {
                    let j = choose|j: int| 0 <= j < old_keys.len() && #[trigger] old_keys[j].value() == key;
                    assert(old_keys[j].value() != key);
                }
                assert(matching(before, key).len() == 0);
            }
            keys.insert(pos, partial.direction.duplicate());
            let mut group: Vec<usize> = Vec::new();
            group.push(i);
            groups.insert(pos, group);
            proof {
                assert(keys@[pos as int].value() == key);
                assert forall|a: int, b: int| 0 <= a < b < keys@.len() implies key_less(
                    #[trigger] keys@[a].value(),
                    #[trigger] keys@[b].value(),
                ) by {
                    if a < pos && b < pos {
                        assert(keys@[a] == old_keys[a] && keys@[b] == old_keys[b]);
                    } else if a < pos && b == pos {
                        assert(keys@[a] == old_keys[a]);
                    } else if a < pos {
                        assert(keys@[a] == old_keys[a] && keys@[b] == old_keys[b - 1]);
                        assert(key_less(old_keys[a].value(), key));
                        assert(key_less(key, old_keys[b - 1].value()));
                    } else if a == pos {
                        assert(keys@[b] == old_keys[b - 1]);
                    } else {
                        assert(keys@[a] == old_keys[a - 1] && keys@[b] == old_keys[b - 1]);
                    }
                }
                assert(states_at(all, seq![i]) =~= seq![all[i as int]]);
                assert(matching(after, key) =~= seq![all[i as int]]);
                assert forall|j: int| 0 <= j < groups@.len() implies states_at(
                    all,
                    (#[trigger] groups@[j])@,
                ) == matching(after, keys@[j].value()) by {
                    if j < pos {
                        assert(groups@[j] == old_groups[j] && keys@[j] == old_keys[j]);
                        assert(key_less(old_keys[j].value(), key));
                    } else if j > pos {
                        assert(groups@[j] == old_groups[j - 1] && keys@[j] == old_keys[j - 1]);
                        assert(key_less(key, old_keys[j - 1].value()));
                    } else {
                        assert(groups@[j]@ =~= seq![i]);
                    }
                }
                assert forall|j: int, m: int|
                    0 <= j < groups@.len() && 0 <= m < groups@[j]@.len() implies (
                    #[trigger] groups@[j]@[m]) < i + 1 by {
                    if j < pos {
                        assert(groups@[j] == old_groups[j]);
                    } else if j > pos {
                        assert(groups@[j] == old_groups[j - 1]);
                    }
                }
                assert forall|k: (int, int)| #[trigger]
                    matching(after, k).len() > 0 implies exists|j: int|
                    0 <= j < keys@.len() && #[trigger] keys@[j].value() == k by {
                    if k == key {
                        assert(keys@[pos as int].value() == k);
                    } else {
                        assert(matching(before, k).len() > 0);
                        let j = choose|j: int| 0 <= j < old_keys.len() && #[trigger] old_keys[j].value() == k;
                        if j < pos {
                            assert(keys@[j] == old_keys[j]);
                        } else {
                            assert(keys@[j + 1] == old_keys[j]);
                        }
                    }
                }
            }
        }
        i += 1;
    }
    proof {
        assert(all.take(rights@.len() as int) =~= all);
    }
    (keys, groups)
}

/// `arctan(1/d)` in fixed point for every denominator.
fn unit_angles(denominators: &[u64], scale: &Int, pi_over_four: &Int) -> (r: Vec<Int>)
    requires
        scale@ == angle_scale(),
        pi_over_four@ == fixed_pi_over_four(),
    ensures
        angles_ok(denominators@, r@),
{
    let mut angles: Vec<Int> = Vec::new();
    let mut i: usize = 0;
    while i < denominators.len()
        invariant
            i <= denominators@.len(),
            angles@.len() == i,
            scale@ == angle_scale(),
            pi_over_four@ == fixed_pi_over_four(),
            forall|j: int| 0 <= j < i ==> (#[trigger] angles@[j])@ == unit_angle(denominators@[j] as int),
        decreases denominators@.len() - i,
    {
        let denominator = denominators[i];
        let angle = if denominator == 0 {
            Int::times(pi_over_four, &Int::from_u64(2))
        } else {
            fixed_arctan_reciprocal(denominator, scale)
        };
        angles.push(angle);
        i += 1;
    }
    angles
}

/// The list of every formula's terms.
pub open spec fn formulas_of(formulas: Seq<ExactFormula>) -> Seq<Seq<Term>> {
    formulas.map_values(|f: ExactFormula| f.formula@)
}

/// The number of partial states of the left half of the denominators.
pub open spec fn left_state_count(dens: Seq<u64>, max_terms: nat, limit: nat) -> nat {
    state_count_spec(dens.len() / 2, max_terms, limit)
}

/// The number of partial states of the right half of the denominators.
pub open spec fn right_state_count(dens: Seq<u64>, max_terms: nat, limit: nat) -> nat {
    state_count_spec((dens.len() - dens.len() / 2) as nat, max_terms, limit)
}

/// The refusal of a search with too many partial states.
pub open spec fn too_many_states_message(left: nat, right: nat) -> Seq<char> {
    "部分積が多すぎます（左"@ + decimal_text(left) + "、右"@ + decimal_text(right)
        + "）。範囲・最大項数・係数上限を小さくしてください"@
}

/// The closing note of a completed search.
pub open spec fn exact_note(found: nat) -> Seq<char> {
    "指定条件の全探索が完了し、"@ + decimal_text(found) + "件の公式を発見しました"@
}

/// What a search with at least one denominator and positive limits returns.
pub open spec fn exact_search_outcome(
    dens: Seq<u64>,
    max_terms: nat,
    limit: nat,
    r: Result<ExactSearchResult, String>,
) -> bool {
    let left = left_state_count(dens, max_terms, limit);
    let right = right_state_count(dens, max_terms, limit);
    if left > MAX_PARTIAL_STATES || right > MAX_PARTIAL_STATES {
        r matches Err(e) && e@ == too_many_states_message(left, right)
    } else {
        &&& r matches Ok(result)
        &&& result.denominators@ == dens
        &&& formulas_of(result.formulas@) == exact_formulas(dens, max_terms, limit)
        &&& result.exact == (result.formulas@.len() > 0)
        &&& result.total_states == left + right
        &&& result.total_states == states(dens.subrange(0, (dens.len() / 2) as int), max_terms, limit).len()
            + states(dens.subrange((dens.len() / 2) as int, dens.len() as int), max_terms, limit).len()
        &&& result.processed_states == result.total_states
        &&& result.note@ == exact_note(result.formulas@.len())
    }
}

fn report_event<P: ExactProgressSink>(
    progress: &mut ExactLog<P>,
    phase: &'static str,
    processed: u64,
    total: u64,
    formulas_found: usize,
    formula: Option<Vec<Term>>,
    message: String,
)
    ensures
        final(progress).events() == old(progress).events().push(
            (
                phase@,
                processed,
                total,
                formulas_found,
                match formula {
                    Some(f) => Some(f@),
                    None => None,
                },
                message@,
            ),
        ),
{
    progress.report(ExactProgress { phase, processed, total, formulas_found, formula, message });
}

/// Exhaustive search for the Machin-type formulas `sum c_j arctan(1/d_j) = pi/4`
/// with distinct denominators from `denominators`, at most `max_terms` terms
/// and coefficients `1..=coefficient_limit` in absolute value: the Gaussian
/// products of the two halves of the denominators are met in the middle.
pub fn search<P: ExactProgressSink>(
    denominators: Vec<u64>,
    max_terms: usize,
    coefficient_limit: u32,
    progress: &mut ExactLog<P>,
) -> (r: Result<ExactSearchResult, String>)
    ensures
        r is Err ==> final(progress).events() == old(progress).events(),
        r matches Ok(result) ==> final(progress).events().take(old(progress).events().len() as int) == old(
            progress,
        ).events() && exact_events_ok(
            final(progress).events().skip(old(progress).events().len() as int),
            result,
        ),
        denominators@.len() == 0 ==> (r matches Err(e) && e@ == "分母を1つ以上指定してください"@),
        denominators@.len() > 0 && (max_terms == 0 || coefficient_limit == 0) ==> (r matches Err(e)
            && e@ == "最大項数と係数上限は正の整数で指定してください"@),
        denominators@.len() > 0 && max_terms > 0 && coefficient_limit > 0 ==> exact_search_outcome(
            denominators@,
            max_terms as nat,
            coefficient_limit as nat,
            r,
        ),
{
    let ghost base = progress.events();
    if denominators.len() == 0 {
        return Err(fixed_text("分母を1つ以上指定してください"));
    }
    if max_terms == 0 || coefficient_limit == 0 {
        return Err(fixed_text("最大項数と係数上限は正の整数で指定してください"));
    }
    let ghost dens = denominators@;
    let ghost limit = coefficient_limit as nat;
    let ghost mt = max_terms as nat;
    let split = denominators.len() / 2;
    let (left_denominators, right_denominators) = denominators.as_slice().split_at(split);
    let left_count = state_count(left_denominators.len(), max_terms, coefficient_limit);
    let right_count = state_count(right_denominators.len(), max_terms, coefficient_limit);
    if left_count > MAX_PARTIAL_STATES || right_count > MAX_PARTIAL_STATES {
        let mut message = String::from_str("部分積が多すぎます（左");
        append_decimal(&mut message, left_count);
        message.append("、右");
        append_decimal(&mut message, right_count);
        message.append("）。範囲・最大項数・係数上限を小さくしてください");
        return Err(message);
    }
    let total = left_count + right_count;
    proof {
        lemma_state_count_exact(split as nat, mt, limit);
        lemma_state_count_exact((dens.len() - split) as nat, mt, limit);
        states_are_counted(dens.subrange(0, split as int), mt, limit);
        states_are_counted(dens.subrange(split as int, dens.len() as int), mt, limit);
    }
    let left_choices = contributions(left_denominators, coefficient_limit);
    let right_choices = contributions(right_denominators, coefficient_limit);
    proof {
        vstd::arithmetic::power2::lemma2_to64();
    }
    let scale = Int::shifted_left(&Int::from_u64(1), 64);
    let pi_over_four = Int::minus(
        &Int::times(&fixed_arctan_reciprocal(5, &scale), &Int::from_u64(4)),
        &fixed_arctan_reciprocal(239, &scale),
    );
    let left_angles = unit_angles(left_denominators, &scale, &pi_over_four);
    let right_angles = unit_angles(right_denominators, &scale, &pi_over_four);
    let mut processed: u64 = 0;
    report_event(
        progress,
        "generate",
        processed,
        total,
        0,
        None,
        fixed_text("右側の部分積を生成しています"),
    );
    let ghost mut ev: Seq<ExactEvent> = seq![progress.events().last()];
    proof {
        lemma_phases_differ();
        assert(progress.events() =~= base + ev);
        assert(ev.drop_last() =~= Seq::<ExactEvent>::empty());
        assert(ev[0].0 == "generate"@ && ev[0].1 == 0 && ev[0].2 == total);
        assert(formula_events(Seq::<ExactEvent>::empty()) == Seq::<ExactEvent>::empty());
        assert(formula_events(ev) == formula_events(ev.drop_last()));
        assert(formula_events(ev).len() == 0);
        assert(events_so_far(ev, total, Seq::empty()));
    }
    let mut rights: Vec<Partial> = Vec::new();
    let mut scratch: Vec<Term> = Vec::new();
    let unit = Gaussian::one();
    let origin = Int::zero();
    enumerate(
        right_denominators,
        &right_choices,
        &right_angles,
        Ghost(limit),
        0,
        max_terms,
        &unit,
        &mut scratch,
        &origin,
        &mut rights,
    );
    proof {
        assert(scratch@ =~= Seq::<Term>::empty());
        assert forall|i: int| 0 <= i < rights@.len() implies (#[trigger] rights@[i]).consistent() by {
            lemma_extends_empty(rights@[i]);
        }
        assert(terms_of(Seq::<Partial>::empty()) =~= Seq::<Seq<Term>>::empty());
        assert(terms_of(rights@).len() == rights@.len());
        assert(rights@.len() == right_count);
    }
    let mut k: usize = 0;
    while k < rights.len()
        invariant
            k <= rights@.len(),
            rights@.len() == right_count,
            right_count <= MAX_PARTIAL_STATES,
            processed == k,
            base == old(progress).events(),
            progress.events() == base + ev,
            events_so_far(ev, total, Seq::empty()),
        decreases rights@.len() - k,
    {
        processed = processed + 1;
        if processed % 1000 == 0 {
            report_event(
                progress,
                "generate",
                processed,
                total,
                0,
                None,
                fixed_text("右側の部分積を生成しています"),
            );
            proof {
                lemma_phases_differ();
                let e = progress.events().last();
                lemma_event_other(ev, e, total, Seq::empty());
                ev = ev.push(e);
                assert(progress.events() =~= base + ev);
            }
        }
        k += 1;
    }
    let (keys, groups) = build_groups(&rights);
    let mut lefts: Vec<Partial> = Vec::new();
    enumerate(
        left_denominators,
        &left_choices,
        &left_angles,
        Ghost(limit),
        0,
        max_terms,
        &unit,
        &mut scratch,
        &origin,
        &mut lefts,
    );
    let ghost all_rights = terms_of(rights@);
    let ghost all_lefts = terms_of(lefts@);
    proof {
        assert forall|i: int| 0 <= i < lefts@.len() implies (#[trigger] lefts@[i]).consistent() by {
            lemma_extends_empty(lefts@[i]);
        }
        assert(terms_of(lefts@).len() == lefts@.len());
        assert(lefts@.len() == left_count);
        assert(all_rights =~= states(dens.subrange(split as int, dens.len() as int), mt, limit));
        assert(all_lefts =~= states(dens.subrange(0, split as int), mt, limit));
        assert(all_lefts.take(0) =~= Seq::<Seq<Term>>::empty());
    }
    let tolerance = Int::from_u64(ANGLE_TOLERANCE);
    let mut formulas: Vec<ExactFormula> = Vec::new();
    let mut i: usize = 0;
    while i < lefts.len()
        invariant
            i <= lefts@.len(),
            all_lefts == terms_of(lefts@),
            all_rights == terms_of(rights@),
            all_consistent(lefts@),
            all_consistent(rights@),
            groups_ok(keys@, groups@, all_rights, rights@.len() as nat),
            mt == max_terms,
            pi_over_four@ == fixed_pi_over_four(),
            tolerance@ == ANGLE_TOLERANCE,
            formulas_of(formulas@) == all_pairs(all_lefts.take(i as int), all_rights, mt),
            lefts@.len() == left_count,
            rights@.len() == right_count,
            left_count <= MAX_PARTIAL_STATES,
            right_count <= MAX_PARTIAL_STATES,
            processed == right_count + i,
            base == old(progress).events(),
            progress.events() == base + ev,
            events_so_far(ev, total, formulas_of(formulas@)),
        decreases lefts@.len() - i,
    {
        let left = &lefts[i];
        let ghost lt = left.terms@;
        processed = processed + 1;
        let target = left.direction.target_after();
        let (found, pos) = find_key(&keys, &target);
        let ghost key = target_direction(direction(formula_product(lt)));
        let ghost done = formulas_of(formulas@);
        proof {
            assert(left.consistent());
            assert(all_lefts[i as int] == lt);
            assert(all_lefts.take(i + 1).drop_last() =~= all_lefts.take(i as int));
            assert(all_rights.take(rights@.len() as int) =~= all_rights);
            lemma_pairs_for_matching(lt, all_rights, mt);
        }
        if found {
            let group = &groups[pos];
            let ghost members = states_at(all_rights, group@);
            proof {
                assert(members == matching(all_rights, key));
                lemma_matching_direction(all_rights, key);
                assert(members.take(0) =~= Seq::<Seq<Term>>::empty());
            }
            let mut m: usize = 0;
            while m < group.len()
                invariant
                    m <= group@.len(),
                    pos < groups@.len(),
                    *group == groups@[pos as int],
                    members == states_at(all_rights, group@),
                    members == matching(all_rights, key),
                    forall|j: int| 0 <= j < members.len() ==> direction(formula_product(#[trigger] members[j])) == key,
                    forall|j: int| 0 <= j < group@.len() ==> (#[trigger] group@[j]) < rights@.len(),
                    all_rights == terms_of(rights@),
                    all_consistent(rights@),
                    left.consistent(),
                    lt == left.terms@,
                    key == target_direction(direction(formula_product(lt))),
                    mt == max_terms,
                    pi_over_four@ == fixed_pi_over_four(),
                    tolerance@ == ANGLE_TOLERANCE,
                    formulas_of(formulas@) == done + pairs_for(lt, members.take(m as int), mt),
                    base == old(progress).events(),
                    progress.events() == base + ev,
                    events_so_far(ev, total, formulas_of(formulas@)),
                decreases group@.len() - m,
            {
                let right = &rights[group[m]];
                let ghost rt = right.terms@;
                proof {
                    assert(right.consistent());
                    assert(members[m as int] == rt);
                    assert(members.take(m + 1).drop_last() =~= members.take(m as int));
                    assert(members.take(m + 1).last() == rt);
                }
                let left_len = left.terms.len();
                let right_len = right.terms.len();
                let support_ok = (left_len > 0 || right_len > 0) && left_len <= max_terms
                    && right_len <= max_terms - left_len;
                let sum = Int::plus(&left.angle, &right.angle);
                let difference = Int::minus(&sum, &pi_over_four);
                let close = !Int::less_than(&tolerance, &difference.absolute());
                if support_ok && close {
                    let mut formula = left.terms.clone();
                    let mut tail = right.terms.clone();
                    proof {
                        assert(formula@ =~= lt);
                        assert(tail@ =~= rt);
                    }
                    formula.append(&mut tail);
                    let reported = formula.clone();
                    proof {
                        assert(reported@ =~= formula@);
                    }
                    let ghost before = formulas@;
                    formulas.push(ExactFormula { formula });
                    proof {
                        assert(formulas_of(formulas@) =~= formulas_of(before).push(lt + rt));
                    }
                    let message = number_text("", formulas.len() as u64, "件目の公式を発見しました");
                    report_event(
                        progress,
                        "formula",
                        processed,
                        total,
                        formulas.len(),
                        Some(reported),
                        message,
                    );
                    proof {
                        let e = progress.events().last();
                        assert(formula@ == lt + rt);
                        lemma_event_formula(ev, e, total, formulas_of(before), lt + rt);
                        ev = ev.push(e);
                        assert(progress.events() =~= base + ev);
                    }
                }
                m += 1;
            }
            proof {
                assert(members.take(group@.len() as int) =~= members);
            }
        } else {
            proof {
                if matching(all_rights, key).len() > 0 {
                    assert(all_rights.take(rights@.len() as int) =~= all_rights);
                    let j = choose|j: int| 0 <= j < keys@.len() && #[trigger] keys@[j].value() == key;
                    assert(keys@[j].value() != target.value());
                }
                assert(matching(all_rights, key).len() == 0);
            }
        }
        if processed % 1000 == 0 {
            report_event(
                progress,
                "match",
                processed,
                total,
                formulas.len(),
                None,
                fixed_text("左右の部分積を照合しています"),
            );
            proof {
                lemma_phases_differ();
                let e = progress.events().last();
                lemma_event_other(ev, e, total, formulas_of(formulas@));
                ev = ev.push(e);
                assert(progress.events() =~= base + ev);
            }
        }
        i += 1;
    }
    proof {
        assert(all_lefts.take(lefts@.len() as int) =~= all_lefts);
    }
    let note = number_text("指定条件の全探索が完了し、", formulas.len() as u64, "件の公式を発見しました");
    report_event(
        progress,
        "complete",
        total,
        total,
        formulas.len(),
        None,
        fixed_text(note.as_str()),
    );
    proof {
        lemma_phases_differ();
        let e = progress.events().last();
        lemma_event_other(ev, e, total, formulas_of(formulas@));
        ev = ev.push(e);
        assert(progress.events() =~= base + ev);
        assert(progress.events().take(base.len() as int) =~= base);
        assert(progress.events().skip(base.len() as int) =~= ev);
    }
    let exact = formulas.len() > 0;
    Ok(
        ExactSearchResult {
            denominators,
            exact,
            formulas,
            processed_states: total,
            total_states: total,
            note,
        },
    )
}

// ---------------------------------------------------------------------------
// Every reported formula is exact
// ---------------------------------------------------------------------------

proof fn lemma_gconj_gmul(a: (int, int), b: (int, int))
    ensures
        gconj(gmul(a, b)) == gmul(gconj(a), gconj(b)),
{
    assert((-a.1) * (-b.1) == a.1 * b.1) by (nonlinear_arith);
    assert(a.0 * (-b.1) + (-a.1) * b.0 == -(a.0 * b.1 + a.1 * b.0)) by (nonlinear_arith);
}

proof fn lemma_gpow_gconj(b: (int, int), e: nat)
    ensures
        gpow(gconj(b), e) == gconj(gpow(b, e)),
    decreases e,
{
    if e > 0 {
        lemma_gpow_gconj(b, (e - 1) as nat);
        lemma_gconj_gmul(gpow(b, (e - 1) as nat), b);
    }
}

/// The numerator-and-conjugated-denominator product of a formula is the
/// product of its terms' contributions.
proof fn lemma_quotient_is_product(terms: Seq<Term>)
    ensures
        formula_quotient(terms) == formula_product(terms),
    decreases terms.len(),
{
    if terms.len() > 0 {
        let rest = terms.drop_last();
        lemma_quotient_is_product(rest);
        let t = terms.last();
        let c = t.coefficient as int;
        let d = t.denominator as int;
        let p = positive_product(rest);
        let n = negative_product(rest);
        let x = gpow((d, 1), abs(c) as nat);
        assert(formula_product(terms) == gmul(formula_product(rest), contribution(c, d)));
        if c > 0 {
            assert(positive_product(terms) == gmul(p, x));
            assert(negative_product(terms) == n);
            assert(contribution(c, d) == x);
            lemma_gmul_assoc(p, x, gconj(n));
            lemma_gmul_comm(x, gconj(n));
            lemma_gmul_assoc(p, gconj(n), x);
            assert(formula_quotient(terms) == gmul(gmul(p, x), gconj(n)));
            assert(formula_quotient(rest) == gmul(p, gconj(n)));
        } else {
            assert(positive_product(terms) == p);
            assert(negative_product(terms) == gmul(n, x));
            lemma_gconj_gmul(n, x);
            lemma_gmul_assoc(p, gconj(n), gconj(x));
            lemma_gpow_gconj((d, 1), abs(c) as nat);
            assert(gconj((d, 1)) == (d, -1));
            assert(contribution(c, d) == gconj(x));
            assert(formula_quotient(terms) == gmul(p, gconj(gmul(n, x))));
            assert(formula_quotient(rest) == gmul(p, gconj(n)));
        }
    } else {
        assert(positive_product(terms) == (1int, 0int));
        assert(negative_product(terms) == (1int, 0int));
        assert(formula_product(terms) == (1int, 0int));
    }
}

/// The product of a concatenation is the product of the products.
pub(crate) proof fn lemma_product_concat(left: Seq<Term>, right: Seq<Term>)
    ensures
        formula_product(left + right) == gmul(formula_product(left), formula_product(right)),
    decreases right.len(),
{
    if right.len() == 0 {
        assert(left + right =~= left);
        lemma_gmul_one(formula_product(left));
    } else {
        let last = right.last();
        lemma_product_concat(left, right.drop_last());
        assert((left + right).drop_last() =~= left + right.drop_last());
        assert((left + right).last() == last);
        lemma_gmul_assoc(
            formula_product(left),
            formula_product(right.drop_last()),
            contribution(last.coefficient as int, last.denominator as int),
        );
    }
}

/// `tdiv(a, g) * g == a` when `g` divides `a`.
proof fn lemma_tdiv_exact(a: int, g: int)
    requires
        g > 0,
        abs(a) % g == 0,
    ensures
        tdiv(a, g) * g == a,
{
    lemma_fundamental_div_mod(abs(a), g);
    let q = abs(a) / g;
    assert(abs(a) == g * q);
    assert(q * g == g * q) by (nonlinear_arith);
    if a < 0 {
        assert(-q * g == -(q * g)) by (nonlinear_arith);
    }
}

/// The direction of a nonzero Gaussian integer times the gcd of its parts is
/// the integer itself; the direction of zero is zero.
pub(crate) proof fn lemma_direction_scale(z: (int, int))
    ensures
        gcd(abs(z.0) as nat, abs(z.1) as nat) == 0 ==> z == (0int, 0int) && direction(z) == z,
        gcd(abs(z.0) as nat, abs(z.1) as nat) > 0 ==> direction(z).0 * gcd(abs(z.0) as nat, abs(z.1) as nat) == z.0
            && direction(z).1 * gcd(abs(z.0) as nat, abs(z.1) as nat) == z.1,
{
    let g = gcd(abs(z.0) as nat, abs(z.1) as nat);
    lemma_gcd_divides(abs(z.0) as nat, abs(z.1) as nat);
    if g > 0 {
        lemma_tdiv_exact(z.0, g as int);
        lemma_tdiv_exact(z.1, g as int);
    }
}

/// When `b` points in the direction that the search asks of the partner of
/// `a`, the product `a * b` lies on the diagonal.
pub(crate) proof fn lemma_matching_product_diagonal(a: (int, int), b: (int, int))
    requires
        direction(b) == target_direction(direction(a)),
    ensures
        gmul(a, b).0 == gmul(a, b).1,
        a != (0int, 0int) && b != (0int, 0int) ==> gmul(a, b).0 > 0,
{
    let k = direction(a);
    let t = (k.0 + k.1, k.0 - k.1);
    let d = direction(t);
    let g = gcd(abs(a.0) as nat, abs(a.1) as nat);
    let h = gcd(abs(t.0) as nat, abs(t.1) as nat);
    let gb = gcd(abs(b.0) as nat, abs(b.1) as nat);
    lemma_direction_scale(a);
    lemma_direction_scale(t);
    lemma_direction_scale(b);
    if g == 0 {
        assert(gmul(a, b) == (0int, 0int));
    } else if gb == 0 {
        assert(a.0 * 0 == 0 && a.1 * 0 == 0) by (nonlinear_arith);
        assert(gmul(a, b) == (0int, 0int));
    } else if h == 0 {
        assert(b.0 == 0 * gb);
        assert(b.1 == 0 * gb);
        assert(a.0 * 0 == 0 && a.1 * 0 == 0) by (nonlinear_arith);
        assert(gmul(a, b) == (0int, 0int));
    } else {
        let p = gmul(a, b);
        let (a0, a1, b0, b1) = (a.0, a.1, b.0, b.1);
        let (k0, k1, d0, d1) = (k.0, k.1, d.0, d.1);
        let (gi, hi, gbi) = (g as int, h as int, gb as int);
        let big = gi * gbi;
        lemma_rearrange(k0, gi, d0, gbi);
        lemma_rearrange(k1, gi, d1, gbi);
        lemma_rearrange(k0, gi, d1, gbi);
        lemma_rearrange(k1, gi, d0, gbi);
        assert(p.0 == big * (k0 * d0) - big * (k1 * d1));
        assert(p.1 == big * (k0 * d1) + big * (k1 * d0));
        lemma_scaled_parts(big, hi, k0, k1, d0, d1);
        assert(hi * p.0 == big * (k0 * (k0 + k1) - k1 * (k0 - k1)));
        assert(hi * p.1 == big * (k0 * (k0 - k1) + k1 * (k0 + k1)));
        lemma_norm_parts(k0, k1);
        assert(p.0 == p.1) by (nonlinear_arith)
            requires
                hi * p.0 == hi * p.1,
                hi > 0,
        ;
        if k0 != 0 || k1 != 0 {
            assert(p.0 > 0) by (nonlinear_arith)
                requires
                    hi * p.0 == big * (k0 * k0 + k1 * k1),
                    big == gi * gbi,
                    gi > 0,
                    gbi > 0,
                    hi > 0,
                    k0 != 0 || k1 != 0,
            ;
        } else {
            assert(a.0 == 0 * gi && a.1 == 0 * gi);
        }
    }
}

proof fn lemma_rearrange(x: int, g: int, y: int, h: int)
    ensures
        (x * g) * (y * h) == (g * h) * (x * y),
{
    assert((x * g) * (y * h) == (g * h) * (x * y)) by (nonlinear_arith);
}

proof fn lemma_scaled_parts(big: int, h: int, k0: int, k1: int, d0: int, d1: int)
    ensures
        h * (big * (k0 * d0) - big * (k1 * d1)) == big * (k0 * (d0 * h) - k1 * (d1 * h)),
        h * (big * (k0 * d1) + big * (k1 * d0)) == big * (k0 * (d1 * h) + k1 * (d0 * h)),
{
    lemma_move_factor(big, h, k0, d0);
    lemma_move_factor(big, h, k1, d1);
    lemma_move_factor(big, h, k0, d1);
    lemma_move_factor(big, h, k1, d0);
    lemma_mul_is_distributive_sub(h, big * (k0 * d0), big * (k1 * d1));
    lemma_mul_is_distributive_sub(big, k0 * (d0 * h), k1 * (d1 * h));
    lemma_mul_is_distributive_add(h, big * (k0 * d1), big * (k1 * d0));
    lemma_mul_is_distributive_add(big, k0 * (d1 * h), k1 * (d0 * h));
}

proof fn lemma_move_factor(big: int, h: int, k: int, d: int)
    ensures
        h * (big * (k * d)) == big * (k * (d * h)),
{
    assert(h * (big * (k * d)) == big * (k * (d * h))) by (nonlinear_arith);
}

proof fn lemma_norm_parts(k0: int, k1: int)
    ensures
        k0 * (k0 + k1) - k1 * (k0 - k1) == k0 * k0 + k1 * k1,
        k0 * (k0 - k1) + k1 * (k0 + k1) == k0 * k0 + k1 * k1,
{
    assert(k0 * (k0 + k1) - k1 * (k0 - k1) == k0 * k0 + k1 * k1) by (nonlinear_arith);
    assert(k0 * (k0 - k1) + k1 * (k0 + k1) == k0 * k0 + k1 * k1) by (nonlinear_arith);
}

/// A matching left and right state make an exact formula.
proof fn lemma_pair_exact(left: Seq<Term>, right: Seq<Term>, max_terms: nat)
    requires
        pair_matches(left, right, max_terms),
    ensures
        is_exact_formula(left + right),
{
    lemma_product_concat(left, right);
    lemma_quotient_is_product(left + right);
    lemma_matching_product_diagonal(formula_product(left), formula_product(right));
}

proof fn lemma_pairs_for_exact(left: Seq<Term>, rights: Seq<Seq<Term>>, max_terms: nat)
    ensures
        forall|k: int|
            0 <= k < pairs_for(left, rights, max_terms).len() ==> is_exact_formula(
                #[trigger] pairs_for(left, rights, max_terms)[k],
            ),
    decreases rights.len(),
{
    if rights.len() > 0 {
        lemma_pairs_for_exact(left, rights.drop_last(), max_terms);
        let rest = pairs_for(left, rights.drop_last(), max_terms);
        if pair_matches(left, rights.last(), max_terms) {
            lemma_pair_exact(left, rights.last(), max_terms);
            assert(pairs_for(left, rights, max_terms) == rest.push(left + rights.last()));
            assert forall|k: int| 0 <= k < rest.len() + 1 implies is_exact_formula(
                #[trigger] rest.push(left + rights.last())[k],
            ) by {
                if k < rest.len() {
                    assert(rest.push(left + rights.last())[k] == rest[k]);
                }
            }
        } else {
            assert(pairs_for(left, rights, max_terms) == rest);
        }
    }
}

proof fn lemma_all_pairs_exact(lefts: Seq<Seq<Term>>, rights: Seq<Seq<Term>>, max_terms: nat)
    ensures
        forall|k: int|
            0 <= k < all_pairs(lefts, rights, max_terms).len() ==> is_exact_formula(
                #[trigger] all_pairs(lefts, rights, max_terms)[k],
            ),
    decreases lefts.len(),
{
    if lefts.len() > 0 {
        lemma_all_pairs_exact(lefts.drop_last(), rights, max_terms);
        lemma_pairs_for_exact(lefts.last(), rights, max_terms);
        let a = all_pairs(lefts.drop_last(), rights, max_terms);
        let b = pairs_for(lefts.last(), rights, max_terms);
        assert forall|k: int| 0 <= k < (a + b).len() implies is_exact_formula(#[trigger] (a + b)[k]) by {
            if k < a.len() {
                assert((a + b)[k] == a[k]);
            } else {
                assert((a + b)[k] == b[k - a.len()]);
            }
        }
    }
}

/// Every formula that the exhaustive search reports is exact:
/// `prod (d + i)^c` over its terms lies on the diagonal, so
/// `sum c * arctan(1/d)` is `pi/4` modulo `pi`.
pub proof fn exact_search_formulas_are_exact(dens: Seq<u64>, max_terms: nat, limit: nat, k: int)
    requires
        0 <= k < exact_formulas(dens, max_terms, limit).len(),
    ensures
        is_exact_formula(exact_formulas(dens, max_terms, limit)[k]),
{
    let split = dens.len() / 2;
    lemma_all_pairs_exact(
        states(dens.subrange(0, split as int), max_terms, limit),
        states(dens.subrange(split as int, dens.len() as int), max_terms, limit),
        max_terms,
    );
}

// ---------------------------------------------------------------------------
// The state count counts the states
// ---------------------------------------------------------------------------

/// `sum_{t <= r} C(m, t) * choices^t`: the term lists of at most `r` terms
/// over `m` denominators, each used at most once, with `choices` coefficients.
pub open spec fn state_sum(m: nat, choices: nat, r: nat) -> nat
    decreases r,
{
    let here = binomial(m, r) * pow(choices as int, r) as nat;
    if r == 0 {
        here
    } else {
        state_sum(m, choices, (r - 1) as nat) + here
    }
}

proof fn lemma_pow_nat(c: nat, e: nat)
    ensures
        pow(c as int, 0) == 1,
        pow(c as int, e) >= 0,
        pow(c as int, e + 1) == c * pow(c as int, e),
{
    reveal(pow);
    lemma_pow_nonnegative(c, e);
}

proof fn lemma_state_sum_empty(c: nat, r: nat)
    ensures
        state_sum(0, c, r) == 1,
    decreases r,
{
    if r > 0 {
        lemma_state_sum_empty(c, (r - 1) as nat);
        lemma_binomial_above(0, r);
    }
    lemma_pow_nat(c, r);
}

/// Pascal's rule for the sums: the first denominator is skipped or used.
proof fn lemma_state_sum_pascal(m: nat, c: nat, r: nat)
    ensures
        state_sum(m + 1, c, r + 1) == state_sum(m, c, r + 1) + c * state_sum(m, c, r),
    decreases r,
{
    lemma_pow_nat(c, r);
    lemma_pow_nat(c, r + 1);
    let p = pow(c as int, r + 1);
    let b = binomial(m, r);
    let b1 = binomial(m, r + 1);
    assert(binomial(m + 1, r + 1) == b + b1);
    if r == 0 {
        lemma_binomial_one(m + 1);
        lemma_binomial_one(m);
        assert(p == c * 1);
        assert(state_sum(m + 1, c, 0) == 1);
        assert(state_sum(m, c, 0) == 1);
        assert(state_sum(m + 1, c, 1) == 1 + (m + 1) * c);
        assert(state_sum(m, c, 1) == 1 + m * c);
        assert(state_sum(m, c, 0) == 1);
        assert(1 + (m + 1) * c == (1 + m * c) + c * 1) by (nonlinear_arith);
    } else {
        lemma_state_sum_pascal(m, c, (r - 1) as nat);
        let q = pow(c as int, r);
        assert(p == c * q);
        let f = state_sum(m, c, (r - 1) as nat);
        assert(state_sum(m, c, r) == f + b * q);
        assert((b + b1) * p == b1 * p + c * (b * q)) by (nonlinear_arith)
            requires
                p == c * q,
        ;
        assert(c * (f + b * q) == c * f + c * (b * q)) by (nonlinear_arith);
    }
}

/// Beyond `m` terms the sum grows no more.
proof fn lemma_state_sum_stable(m: nat, c: nat, r: nat)
    requires
        r >= m,
    ensures
        state_sum(m, c, r) == state_sum(m, c, m),
    decreases r,
{
    if r > m {
        lemma_state_sum_stable(m, c, (r - 1) as nat);
        lemma_binomial_above(m, r);
    }
}

/// The length of a subtree depends only on how many denominators remain and
/// how many more terms fit.
proof fn lemma_subtree_len(dens: Seq<u64>, limit: nat, max_terms: nat, prefix: Seq<Term>, start: nat)
    requires
        prefix.len() <= max_terms,
        start <= dens.len(),
    ensures
        subtree(dens, limit, max_terms, prefix, start).len() == state_sum(
            (dens.len() - start) as nat,
            2 * limit,
            (max_terms - prefix.len()) as nat,
        ),
    decreases dens.len() - start, 2 * limit + 1,
{
    let m = (dens.len() - start) as nat;
    let r = (max_terms - prefix.len()) as nat;
    if prefix.len() >= max_terms {
        assert(r == 0);
        assert(binomial(m, 0) == 1);
        lemma_pow_nat(2 * limit, 0);
        let b = binomial(m, 0);
        let p = pow((2 * limit) as int, 0) as nat;
        assert(b * p == 1) by (nonlinear_arith)
            requires
                b == 1,
                p == 1,
        ;
        assert(state_sum(m, 2 * limit, 0) == 1);
        assert(subtree(dens, limit, max_terms, prefix, start).len() == 1);
    } else {
        lemma_children_len(dens, limit, max_terms, prefix, start, 0);
        let rest = children(dens, limit, max_terms, prefix, start, 0);
        assert(subtree(dens, limit, max_terms, prefix, start).len() == 1 + rest.len());
        if start < dens.len() {
            lemma_state_sum_pascal((m - 1) as nat, 2 * limit, (r - 1) as nat);
            let a = state_sum((m - 1) as nat, 2 * limit, (r - 1) as nat);
            assert((2 * limit - 0) * a == (2 * limit) * a);
            assert(((m - 1) as nat + 1) == m);
            assert(((r - 1) as nat + 1) == r);
            assert(state_sum(m, 2 * limit, r) == state_sum((m - 1) as nat, 2 * limit, r) + 2 * limit * a);
            assert(rest.len() == (2 * limit) * a + state_sum((m - 1) as nat, 2 * limit, r) - 1);
        } else {
            lemma_state_sum_empty(2 * limit, r);
        }
    }
}

proof fn lemma_children_len(
    dens: Seq<u64>,
    limit: nat,
    max_terms: nat,
    prefix: Seq<Term>,
    index: nat,
    k: nat,
)
    requires
        prefix.len() < max_terms,
        index <= dens.len(),
        k <= 2 * limit,
    ensures
        children(dens, limit, max_terms, prefix, index, k).len() == (if index >= dens.len() {
            0
        } else {
            (2 * limit - k) * state_sum(
                (dens.len() - index - 1) as nat,
                2 * limit,
                (max_terms - prefix.len() - 1) as nat,
            ) + state_sum((dens.len() - index - 1) as nat, 2 * limit, (max_terms - prefix.len()) as nat)
                - 1
        }),
    decreases dens.len() - index, 2 * limit - k,
{
    let r = (max_terms - prefix.len()) as nat;
    if index < dens.len() {
        let m = (dens.len() - index - 1) as nat;
        let below = state_sum(m, 2 * limit, (r - 1) as nat);
        if k >= 2 * limit {
            lemma_children_len(dens, limit, max_terms, prefix, index + 1, 0);
            if index + 1 < dens.len() {
                lemma_state_sum_pascal((m - 1) as nat, 2 * limit, (r - 1) as nat);
            } else {
                lemma_state_sum_empty(2 * limit, r);
            }
            assert((2 * limit - k) * below == 0) by (nonlinear_arith)
                requires
                    k == 2 * limit,
            ;
        } else {
            let term = Term { coefficient: choice_coefficient(k) as i64, denominator: dens[index as int] };
            lemma_subtree_len(dens, limit, max_terms, prefix.push(term), index + 1);
            lemma_children_len(dens, limit, max_terms, prefix, index, k + 1);
            assert((2 * limit - k) * below == below + (2 * limit - (k + 1)) * below) by (nonlinear_arith)
                requires
                    k < 2 * limit,
            ;
        }
    }
}

/// The search enumerates exactly `sum_{t <= max_terms} C(n, t) * (2 * limit)^t`
/// partial states over `n` denominators.
pub proof fn states_are_counted(dens: Seq<u64>, max_terms: nat, limit: nat)
    ensures
        states(dens, max_terms, limit).len() == state_sum(dens.len(), 2 * limit, max_terms),
{
    lemma_subtree_len(dens, limit, max_terms, Seq::empty(), 0);
}

proof fn lemma_binomial_positive(n: nat, k: nat)
    requires
        k <= n,
    ensures
        binomial(n, k) >= 1,
    decreases n,
{
    if k > 0 {
        lemma_binomial_positive((n - 1) as nat, (k - 1) as nat);
    }
}

proof fn lemma_state_sum_term(m: nat, c: nat, r: nat, s: nat)
    requires
        s <= r,
    ensures
        state_sum(m, c, r) >= binomial(m, s) * pow(c as int, s),
    decreases r,
{
    lemma_pow_nat(c, s);
    lemma_pow_nat(c, r);
    if s < r {
        lemma_state_sum_term(m, c, (r - 1) as nat, s);
    }
}

proof fn lemma_pow_base_at_least_two(c: nat, e: nat)
    requires
        c >= 2,
    ensures
        pow(c as int, e) >= pow(2, e),
    decreases e,
{
    lemma_pow_nat(c, 0);
    lemma_pow_nat(2, 0);
    if e > 0 {
        lemma_pow_base_at_least_two(c, (e - 1) as nat);
        lemma_pow_nat(c, (e - 1) as nat);
        lemma_pow_nat(2, (e - 1) as nat);
        let a = pow(c as int, (e - 1) as nat);
        let b = pow(2, (e - 1) as nat);
        assert(c * a >= 2 * b) by (nonlinear_arith)
            requires
                c >= 2,
                a >= b,
                b >= 0,
        ;
    }
}

proof fn lemma_count_upto_bounded(n: nat, c: nat, t: nat)
    ensures
        count_upto(n, c, t) <= u128::MAX,
    decreases t,
{
    if t > 0 {
        lemma_count_upto_bounded(n, c, (t - 1) as nat);
    }
}

proof fn lemma_count_upto_grows(n: nat, c: nat, s: nat, t: nat)
    requires
        s <= t,
    ensures
        count_upto(n, c, s) <= count_upto(n, c, t),
    decreases t,
{
    if s < t {
        lemma_count_upto_grows(n, c, s, (t - 1) as nat);
    }
}

/// The saturating count agrees with the sum until it saturates.
proof fn lemma_count_upto_exact(n: nat, c: nat, t: nat)
    requires
        c >= 2,
        t <= n,
    ensures
        count_upto(n, c, t) == (if state_sum(n, c, t) > u128::MAX {
            u128::MAX as nat
        } else {
            state_sum(n, c, t)
        }),
    decreases t,
{
    lemma_count_upto_bounded(n, c, t);
    if t > u32::MAX {
        let s: nat = 128;
        lemma_count_upto_exact(n, c, s);
        lemma_binomial_positive(n, s);
        lemma_pow_base_at_least_two(c, s);
        vstd::arithmetic::power::lemma_pow_adds(2, 64, 64);
        vstd::arithmetic::power2::lemma2_to64();
        vstd::arithmetic::power::lemma_pow_positive(2, 64);
        assert(pow(2, 64) == 0x10000000000000000);
        assert(pow(2, 128) == pow(2, 64) * pow(2, 64));
        assert(0x10000000000000000int * 0x10000000000000000int > u128::MAX);
        assert(pow(2, 128) > u128::MAX);
        lemma_pow_nat(c, s);
        let b = binomial(n, s);
        let p = pow(c as int, s);
        assert(b * p >= p) by (nonlinear_arith)
            requires
                b >= 1,
                p >= 0,
        ;
        lemma_state_sum_term(n, c, s, s);
        lemma_state_sum_term(n, c, t, s);
        lemma_count_upto_grows(n, c, s, t);
    } else {
        let b = binomial(n, t);
        let p = pow(c as int, t);
        lemma_pow_nat(c, t);
        lemma_binomial_positive(n, t);
        assert((t as u32) as nat == t);
        let sp = sat_pow(c, t);
        assert(sat_mul(b, sp) == (if b * p > u128::MAX {
            u128::MAX as int
        } else {
            b * p
        })) by {
            if p > u128::MAX {
                assert(b * p >= p) by (nonlinear_arith)
                    requires
                        b >= 1,
                        p >= 0,
                ;
                assert(b * u128::MAX >= u128::MAX) by (nonlinear_arith)
                    requires
                        b >= 1,
                ;
            }
        }
        if t > 0 {
            lemma_count_upto_exact(n, c, (t - 1) as nat);
        }
    }
}

/// The clamped count of the states is the number of states the search
/// enumerates, clamped to `u64::MAX`.
proof fn lemma_state_count_exact(n: nat, max_terms: nat, limit: nat)
    requires
        limit >= 1,
    ensures
        state_count_spec(n, max_terms, limit) == (if state_sum(n, 2 * limit, max_terms) > u64::MAX {
            u64::MAX as nat
        } else {
            state_sum(n, 2 * limit, max_terms)
        }),
{
    let t = if max_terms < n {
        max_terms
    } else {
        n
    };
    lemma_count_upto_exact(n, 2 * limit, t);
    if max_terms >= n {
        lemma_state_sum_stable(n, 2 * limit, max_terms);
    }
}

} // verus!
