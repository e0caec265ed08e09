//! Fixed-point PSLQ integer-relation detection.
//!
//! This follows the Ferguson-Bailey-Arno PSLQ reduction, using big integers
//! scaled by `2^precision_bits`. Integer arithmetic keeps the matrix
//! transformations deterministic and avoids binary floating-point limits.
use crate::bignum::{abs, bit_length, shl, shr, tdiv, Int};
use vstd::arithmetic::div_mod::{
    lemma_div_multiples_vanish_fancy, lemma_fundamental_div_mod, lemma_mod_multiples_basic,
};
use vstd::arithmetic::mul::{
    lemma_mul_is_associative, lemma_mul_is_commutative, lemma_mul_is_distributive_add,
};
use vstd::arithmetic::power2::{lemma_pow2_adds, lemma_pow2_pos, pow2};
use vstd::prelude::*;

verus! {

#[derive(Clone, Copy, Debug)]
pub struct PslqConfig {
    pub precision_bits: usize,
    pub target_bits: usize,
    pub max_coefficient: i64,
    pub max_iterations: usize,
}

#[derive(Clone, Debug)]
pub struct PslqRelation {
    pub coefficients: Vec<i64>,
    pub iterations: usize,
    pub residual_bits: usize,
}

/// Receives `(iteration, residual_bits)` while the search runs.
pub trait RelationProgress {
    fn report(&mut self, iteration: usize, residual_bits: usize);
}

/// A progress receiver together with the log of the reports handed to it.
pub struct ReportLog<P> {
    pub sink: P,
    pub(crate) log: Ghost<Seq<(usize, usize)>>,
}

impl<P> ReportLog<P> {
    /// The `(iteration, residual_bits)` reports handed to the sink so far.
    pub closed spec fn reports(&self) -> Seq<(usize, usize)> {
        self.log@
    }

    /// The receiver that the reports are handed to.
    pub closed spec fn receiver(&self) -> P {
        self.sink
    }

    pub fn new(sink: P) -> (r: Self)
        ensures
            r.reports() == Seq::<(usize, usize)>::empty(),
            r.receiver() == sink,
    {
        ReportLog { sink, log: Ghost(Seq::empty()) }
    }
}

impl<P: RelationProgress> ReportLog<P> {
    /// Hands the report to the sink and records it.
    pub fn report(&mut self, iteration: usize, residual_bits: usize)
        ensures
            final(self).reports() == old(self).reports().push((iteration, residual_bits)),
    {
        self.log = Ghost(self.log@.push((iteration, residual_bits)));
        self.sink.report(iteration, residual_bits);
    }
}

/// A progress receiver that ignores every report.
pub struct Silent;

impl RelationProgress for Silent {
    fn report(&mut self, iteration: usize, residual_bits: usize) {
    }
}

// ---------------------------------------------------------------------------
// Specifications
// ---------------------------------------------------------------------------

pub open spec fn int_values(s: Seq<Int>) -> Seq<int> {
    s.map_values(|x: Int| x@)
}

pub open spec fn i64_values(s: Seq<i64>) -> Seq<int> {
    s.map_values(|x: i64| x as int)
}

/// `sum (x_k * x_k) >> p`, each square shifted before it is added.
pub open spec fn square_sum(x: Seq<int>, p: nat) -> int
    decreases x.len(),
{
    if x.len() == 0 {
        0
    } else {
        square_sum(x.drop_last(), p) + shr(x.last() * x.last(), p)
    }
}

pub open spec fn is_floor_sqrt(r: int, x: int) -> bool {
    r >= 0 && r * r <= x && x < (r + 1) * (r + 1)
}

/// The truncated square root of a non-negative `x`.
pub open spec fn floor_sqrt(x: int) -> int {
    choose|r: int| is_floor_sqrt(r, x)
}

/// Fixed-point square root: `sqrt(v * 2^p)` truncated, or 0 when that is negative.
pub open spec fn fixed_sqrt(v: int, p: nat) -> int {
    if shl(v, p) < 0 {
        0
    } else {
        floor_sqrt(shl(v, p))
    }
}

/// Rounds `v` to the nearest multiple of `2^p` (halves round up).
pub open spec fn round_fixed_spec(v: int, p: nat) -> int {
    if p == 0 {
        v
    } else {
        shl(shr(v + pow2((p - 1) as nat), p), p)
    }
}

/// The fixed-point norm of the input vector.
pub open spec fn input_norm(x: Seq<int>, p: nat) -> int {
    fixed_sqrt(square_sum(x, p), p)
}

/// The input vector scaled to unit norm in fixed point: `(x_k << p) / norm`.
pub open spec fn normalized_input(x: Seq<int>, p: nat) -> Seq<int> {
    Seq::new(x.len(), |k: int| tdiv(shl(x[k], p), input_norm(x, p)))
}

/// `sum_{j < k} c_j * y_j`.
pub open spec fn dot_upto(c: Seq<int>, y: Seq<int>, k: nat) -> int
    decreases k,
{
    if k == 0 {
        0
    } else {
        dot_upto(c, y, (k - 1) as nat) + c[k - 1] * y[k - 1]
    }
}

pub open spec fn dot(c: Seq<int>, y: Seq<int>) -> int {
    dot_upto(c, y, c.len())
}

/// `p.saturating_sub(bits(|error|))`, or `p` for a zero error.
pub open spec fn residual_bits_of(error: int, p: usize) -> usize {
    if error == 0 {
        p
    } else {
        let bits = ((bit_length(abs(error) as nat) as u64) as usize);
        if bits >= p {
            0
        } else {
            (p - bits) as usize
        }
    }
}

/// What a returned relation guarantees: integer coefficients within the bound,
/// not all zero, whose combination of the normalized inputs is below the
/// tolerance `2^(precision - target)`.
pub open spec fn is_found_relation(x: Seq<int>, config: PslqConfig, rel: PslqRelation) -> bool {
    let p = config.precision_bits as nat;
    let c = i64_values(rel.coefficients@);
    let residual = dot(c, normalized_input(x, p));
    &&& rel.coefficients@.len() == x.len()
    &&& 1 <= rel.iterations <= config.max_iterations
    &&& abs(residual) < pow2((config.precision_bits - config.target_bits) as nat)
    &&& exists|j: int| 0 <= j < c.len() && c[j] != 0
    &&& forall|j: int|
        0 <= j < c.len() ==> abs(#[trigger] c[j]) <= abs(config.max_coefficient as int)
    &&& rel.residual_bits == residual_bits_of(residual, config.precision_bits)
}

// ---------------------------------------------------------------------------
// The algorithm, step by step
// ---------------------------------------------------------------------------

/// The values of a matrix of big integers, row by row.
pub open spec fn mat(m: Seq<Vec<Int>>) -> Seq<Seq<int>> {
    m.map_values(|row: Vec<Int>| int_values(row@))
}

/// The state that PSLQ works on: the vector `y` and the matrices `H`, `A`, `B`.
pub type PslqState = (Seq<int>, Seq<Seq<int>>, Seq<Seq<int>>, Seq<Seq<int>>);

/// The values of the working vectors and matrices.
pub open spec fn state_of(y: Seq<Int>, h: Seq<Vec<Int>>, a: Seq<Vec<Int>>, b: Seq<Vec<Int>>) -> PslqState {
    (int_values(y), mat(h), mat(a), mat(b))
}

/// One size-reduction step of row `i` against column `j < i`: with
/// `t = round(H[i][j] / H[j][j])` (nothing when `H[j][j]` is 0),
/// `y[j] += t * y[i]`, row `i` of `H` (up to column `j`) and of `A` lose `t`
/// times row `j`, and column `j` of `B` gains `t` times column `i`, every
/// product taken in fixed point.
pub open spec fn reduce_entry_state(s: PslqState, i: int, j: int, p: nat) -> PslqState {
    let (y, h, a, b) = s;
    if h[j][j] == 0 {
        s
    } else {
        let t = round_fixed_spec(tdiv(shl(h[i][j], p), h[j][j]), p);
        (
            y.update(j, y[j] + shr(t * y[i], p)),
            h.update(
                i,
                Seq::new(
                    h[i].len(),
                    |k: int|
                        if k <= j {
                            h[i][k] - shr(t * h[j][k], p)
                        } else {
                            h[i][k]
                        },
                ),
            ),
            a.update(i, Seq::new(a[i].len(), |k: int| a[i][k] - shr(t * a[j][k], p))),
            Seq::new(b.len(), |k: int| b[k].update(j, b[k][j] + shr(t * b[k][i], p))),
        )
    }
}

/// Reduces row `i` against columns `count - 1` down to 0.
pub open spec fn reduce_columns_state(s: PslqState, i: int, count: nat, p: nat) -> PslqState
    decreases count,
{
    if count == 0 {
        s
    } else {
        reduce_columns_state(reduce_entry_state(s, i, count - 1, p), i, (count - 1) as nat, p)
    }
}

/// The last column that row `i` is reduced against: `min(i - 1, column_limit - 1)`.
pub open spec fn reduce_upper(i: int, column_limit: int) -> int {
    let limit = if column_limit >= 1 {
        column_limit - 1
    } else {
        0
    };
    if i - 1 < limit {
        i - 1
    } else {
        limit
    }
}

/// Size-reduces rows `i..n` in order.
pub open spec fn reduce_rows_state(s: PslqState, i: int, n: int, column_limit: int, p: nat) -> PslqState
    decreases n - i,
{
    if i >= n {
        s
    } else {
        reduce_rows_state(
            reduce_columns_state(s, i, (reduce_upper(i, column_limit) + 1) as nat, p),
            i + 1,
            n,
            column_limit,
            p,
        )
    }
}

/// `s` with entries `m` and `m + 1` exchanged.
pub open spec fn swap_seq<A>(s: Seq<A>, m: int) -> Seq<A> {
    s.update(m, s[m + 1]).update(m + 1, s[m])
}

/// Entries `m`, `m + 1` of `y`, rows `m`, `m + 1` of `H` and `A`, columns
/// `m`, `m + 1` of `B` exchanged.
pub open spec fn exchange_state(s: PslqState, m: int) -> PslqState {
    let (y, h, a, b) = s;
    (swap_seq(y, m), swap_seq(h, m), swap_seq(a, m), Seq::new(b.len(), |r: int| swap_seq(b[r], m)))
}

/// `g^e`.
pub open spec fn int_pow(g: int, e: nat) -> int
    decreases e,
{
    if e == 0 {
        1
    } else {
        int_pow(g, (e - 1) as nat) * g
    }
}

/// The pivot row: the first `i < end` with the largest score
/// `(gamma^(i+1) * |H[i][i]|) >> (p * i)` (scores start from -1).
pub open spec fn pivot_from(h: Seq<Seq<int>>, gamma: int, p: nat, i: nat, end: nat, m: nat, largest: int) -> nat
    decreases end - i,
{
    if i >= end {
        m
    } else {
        let score = shr(int_pow(gamma, i + 1) * abs(h[i as int][i as int]), p * i);
        if largest < score {
            pivot_from(h, gamma, p, i + 1, end, i, score)
        } else {
            pivot_from(h, gamma, p, i + 1, end, m, largest)
        }
    }
}

/// The fixed-point rotation of columns `m` and `m + 1` of rows `m..` of `H`,
/// or `None` when its norm `t0` is 0.
pub open spec fn rotate_h(h: Seq<Seq<int>>, m: int, p: nat) -> Option<Seq<Seq<int>>> {
    let squares = h[m][m] * h[m][m] + h[m][m + 1] * h[m][m + 1];
    let t0 = fixed_sqrt(abs(shr(squares, p)), p);
    if t0 == 0 {
        None
    } else {
        let t1 = tdiv(shl(h[m][m], p), t0);
        let t2 = tdiv(shl(h[m][m + 1], p), t0);
        Some(
            Seq::new(
                h.len(),
                |r: int|
                    if r >= m {
                        h[r].update(m, shr(t1 * h[r][m] + t2 * h[r][m + 1], p)).update(
                            m + 1,
                            shr(-t2 * h[r][m] + t1 * h[r][m + 1], p),
                        )
                    } else {
                        h[r]
                    },
            ),
        )
    }
}

/// The coefficient read from `B[q][i]`: `round(B[q][i]) >> p`.
pub open spec fn column_entry(b: Seq<Seq<int>>, q: int, i: int, p: nat) -> int {
    shr(round_fixed_spec(b[q][i], p), p)
}

/// Every coefficient of column `i` fits in an `i64`.
pub open spec fn column_fits(b: Seq<Seq<int>>, i: int, n: nat, p: nat) -> bool {
    forall|q: int| 0 <= q < n ==> i64::MIN <= #[trigger] column_entry(b, q, i, p) <= i64::MAX
}

/// The coefficients of column `i`.
pub open spec fn column_coefficients(b: Seq<Seq<int>>, i: int, n: nat, p: nat) -> Seq<i64> {
    Seq::new(n, |q: int| column_entry(b, q, i, p) as i64)
}

/// The largest magnitude among the coefficients (0 for none).
pub open spec fn max_magnitude(c: Seq<i64>) -> int
    decreases c.len(),
{
    if c.len() == 0 {
        0
    } else {
        let rest = max_magnitude(c.drop_last());
        if abs(c.last() as int) > rest {
            abs(c.last() as int)
        } else {
            rest
        }
    }
}

/// The first column `i..n` whose `|y[i]|` is below the tolerance and whose
/// coefficients fit and have a largest magnitude in `1..=max_coefficient`:
/// its coefficients and `|y[i]|`.
pub open spec fn found_from(s: PslqState, i: nat, n: nat, p: nat, tolerance: int, max_coefficient: int) -> Option<
    (Seq<i64>, int),
>
    decreases n - i,
{
    if i >= n {
        None
    } else {
        let error = abs(s.0[i as int]);
        let c = column_coefficients(s.3, i as int, n, p);
        if error < tolerance && column_fits(s.3, i as int, n, p) && 0 < max_magnitude(c) <= max_coefficient {
            Some((c, error))
        } else {
            found_from(s, i + 1, n, p, tolerance, max_coefficient)
        }
    }
}

/// `n - 3`, or 0 below 3.
pub open spec fn rotation_bound(n: nat) -> int {
    if n >= 3 {
        n - 3
    } else {
        0
    }
}

/// The PSLQ iterations from `iteration` on: pivot, exchange, rotate (only up
/// to row `n - 3`; a zero rotation ends the search), reduce, and look for a
/// relation among the columns of `B`. The result is the relation, the number
/// of iterations, and `|y[i]|`.
pub open spec fn pslq_iterate(
    s: PslqState,
    n: nat,
    p: nat,
    gamma: int,
    tolerance: int,
    max_coefficient: int,
    iteration: nat,
    max_iterations: nat,
) -> Option<(Seq<i64>, nat, int)>
    decreases max_iterations - iteration,
{
    if iteration >= max_iterations {
        None
    } else {
        let m = pivot_from(s.1, gamma, p, 0, (n - 1) as nat, 0, -1);
        let s1 = exchange_state(s, m as int);
        let rotated = if m <= rotation_bound(n) {
            rotate_h(s1.1, m as int, p)
        } else {
            Some(s1.1)
        };
        match rotated {
            None => None,
            Some(h2) => {
                let s3 = reduce_rows_state((s1.0, h2, s1.2, s1.3), m as int + 1, n as int, m as int + 2, p);
                match found_from(s3, 0, n, p, tolerance, max_coefficient) {
                    Some((c, error)) => Some((c, iteration + 1, error)),
                    None => pslq_iterate(
                        s3,
                        n,
                        p,
                        gamma,
                        tolerance,
                        max_coefficient,
                        iteration + 1,
                        max_iterations,
                    ),
                }
            },
        }
    }
}

/// The iteration of the last progress report of the iterations from
/// `iteration` on, `last` being the one before: a report comes with the
/// relation, and after every 25th iteration without one.
pub open spec fn pslq_iterate_last(
    s: PslqState,
    n: nat,
    p: nat,
    gamma: int,
    tolerance: int,
    max_coefficient: int,
    iteration: nat,
    max_iterations: nat,
    last: nat,
) -> nat
    decreases max_iterations - iteration,
{
    if iteration >= max_iterations {
        last
    } else {
        let m = pivot_from(s.1, gamma, p, 0, (n - 1) as nat, 0, -1);
        let s1 = exchange_state(s, m as int);
        let rotated = if m <= rotation_bound(n) {
            rotate_h(s1.1, m as int, p)
        } else {
            Some(s1.1)
        };
        match rotated {
            None => last,
            Some(h2) => {
                let s3 = reduce_rows_state((s1.0, h2, s1.2, s1.3), m as int + 1, n as int, m as int + 2, p);
                match found_from(s3, 0, n, p, tolerance, max_coefficient) {
                    Some(_) => iteration + 1,
                    None => pslq_iterate_last(
                        s3,
                        n,
                        p,
                        gamma,
                        tolerance,
                        max_coefficient,
                        iteration + 1,
                        max_iterations,
                        if (iteration + 1) % 25 == 0 {
                            iteration + 1
                        } else {
                            last
                        },
                    ),
                }
            },
        }
    }
}

/// `one` on the diagonal, zero elsewhere.
pub open spec fn scaled_identity(n: nat, one: int) -> Seq<Seq<int>> {
    Seq::new(n, |r: int| Seq::new(n, |c: int| if r == c { one } else { 0 }))
}

/// The partial norms `s[k]` of the input scaled by the norm.
pub open spec fn scaled_norms(x: Seq<int>, p: nat) -> Seq<int> {
    Seq::new(
        x.len(),
        |k: int|
            tdiv(
                shl(fixed_sqrt(square_sum(x.subrange(k, x.len() as int), p), p), p),
                input_norm(x, p),
            ),
    )
}

/// The initial lower-trapezoidal `H` from the scaled partial norms `s` and `y`.
pub open spec fn initial_h_spec(n: nat, p: nat, s: Seq<int>, y: Seq<int>) -> Seq<Seq<int>> {
    Seq::new(
        n,
        |i: int|
            Seq::new(
                n,
                |j: int|
                    if i == j {
                        if i + 1 < n && s[i] != 0 {
                            tdiv(shl(s[i + 1], p), s[i])
                        } else {
                            0
                        }
                    } else if j < i {
                        if s[j] * s[j + 1] != 0 {
                            tdiv(shl(-y[i] * y[j], p), s[j] * s[j + 1])
                        } else {
                            0
                        }
                    } else {
                        0
                    },
            ),
    )
}

/// What PSLQ returns on `x`: `None` for fewer than two values, a precision
/// below 53 bits or a target not below it, a zero value or a zero norm;
/// otherwise the iterations from the reduced initial state. A relation comes
/// with its iteration count and its residual bits.
/// The inputs that PSLQ refuses before its first iteration: fewer than two
/// values, a precision below 53 bits or not above the target, a zero value,
/// or a zero norm at the working precision.
pub open spec fn no_relation_search(x: Seq<int>, config: PslqConfig) -> bool {
    ||| x.len() < 2
    ||| config.precision_bits < 53
    ||| config.target_bits >= config.precision_bits
    ||| exists|k: int| 0 <= k < x.len() && #[trigger] x[k] == 0
    ||| input_norm(x, config.precision_bits as nat) == 0
}

pub open spec fn pslq_outcome(x: Seq<int>, config: PslqConfig) -> Option<(Seq<i64>, nat, usize)> {
    let n = x.len();
    let p = config.precision_bits as nat;
    if n < 2 || config.precision_bits < 53 || config.target_bits >= config.precision_bits {
        None
    } else if exists|k: int| 0 <= k < n && #[trigger] x[k] == 0 {
        None
    } else if input_norm(x, p) == 0 {
        None
    } else {
        let y0 = normalized_input(x, p);
        let h = initial_h_spec(n, p, scaled_norms(x, p), y0);
        let one = pow2(p) as int;
        let start = reduce_rows_state(
            (y0, h, scaled_identity(n, one), scaled_identity(n, one)),
            1,
            n as int,
            n - 1,
            p,
        );
        let gamma = fixed_sqrt(tdiv(shl(4, p), 3), p);
        match pslq_iterate(
            start,
            n,
            p,
            gamma,
            pow2((config.precision_bits - config.target_bits) as nat) as int,
            abs(config.max_coefficient as int),
            0,
            config.max_iterations as nat,
        ) {
            None => None,
            Some((c, iterations, error)) => Some((c, iterations, residual_bits_of(error, config.precision_bits))),
        }
    }
}

/// The state PSLQ starts its iterations from on `x`: the normalized input,
/// the initial `H`, identity `A` and `B`, with the rows reduced once.
pub open spec fn pslq_start(x: Seq<int>, p: nat) -> PslqState {
    let n = x.len();
    let y0 = normalized_input(x, p);
    let one = pow2(p) as int;
    reduce_rows_state(
        (y0, initial_h_spec(n, p, scaled_norms(x, p), y0), scaled_identity(n, one), scaled_identity(n, one)),
        1,
        n as int,
        n - 1,
        p,
    )
}

/// The state after `k` more iterations (pivot, exchange, rotate, reduce),
/// regardless of any relation test; `None` once a rotation is impossible.
pub open spec fn pslq_states(s: PslqState, n: nat, p: nat, gamma: int, k: nat) -> Option<PslqState>
    decreases k,
{
    if k == 0 {
        Some(s)
    } else {
        let m = pivot_from(s.1, gamma, p, 0, (n - 1) as nat, 0, -1);
        let s1 = exchange_state(s, m as int);
        let rotated = if m <= rotation_bound(n) {
            rotate_h(s1.1, m as int, p)
        } else {
            Some(s1.1)
        };
        match rotated {
            None => None,
            Some(h2) => pslq_states(
                reduce_rows_state((s1.0, h2, s1.2, s1.3), m as int + 1, n as int, m as int + 2, p),
                n,
                p,
                gamma,
                (k - 1) as nat,
            ),
        }
    }
}

/// Column `i` of the state carries a relation the caller accepts: `|y[i]|`
/// is below the tolerance, and the coefficients read from column `i` of `B`
/// fit in `i64`, are not all zero, and are at most `bound` in magnitude.
pub open spec fn acceptable_column(s: PslqState, i: int, n: nat, p: nat, tolerance: int, bound: int) -> bool {
    let c = column_coefficients(s.3, i, n, p);
    &&& 0 <= i < n
    &&& abs(s.0[i]) < tolerance
    &&& column_fits(s.3, i, n, p)
    &&& exists|q: int| 0 <= q < n && #[trigger] c[q] != 0
    &&& forall|q: int| 0 <= q < n ==> abs(#[trigger] c[q] as int) <= bound
}

proof fn lemma_max_magnitude_bounds(c: Seq<i64>, bound: int)
    requires
        forall|q: int| 0 <= q < c.len() ==> abs(#[trigger] c[q] as int) <= bound,
    ensures
        max_magnitude(c) <= bound || c.len() == 0,
        (exists|q: int| 0 <= q < c.len() && #[trigger] c[q] != 0) ==> max_magnitude(c) > 0,
        max_magnitude(c) >= 0,
    decreases c.len(),
{
    if c.len() > 0 {
        let d = c.drop_last();
        assert forall|q: int| 0 <= q < d.len() implies abs(#[trigger] d[q] as int) <= bound by {
            assert(d[q] == c[q]);
        }
        lemma_max_magnitude_bounds(d, bound);
        assert(abs(c.last() as int) <= bound);
        if exists|q: int| 0 <= q < c.len() && #[trigger] c[q] != 0 {
            let q = choose|q: int| 0 <= q < c.len() && #[trigger] c[q] != 0;
            if q < d.len() {
                assert(d[q] == c[q]);
            }
        }
    }
}

proof fn lemma_found_from_reaches(s: PslqState, start: nat, i: int, n: nat, p: nat, tolerance: int, bound: int)
    requires
        start <= i,
        acceptable_column(s, i, n, p, tolerance, bound),
    ensures
        found_from(s, start, n, p, tolerance, bound) is Some,
    decreases n - start,
{
    if start < i {
        let here = found_from(s, start, n, p, tolerance, bound);
        lemma_found_from_reaches(s, start + 1, i, n, p, tolerance, bound);
    } else {
        let c = column_coefficients(s.3, i, n, p);
        assert forall|q: int| 0 <= q < c.len() implies abs(#[trigger] c[q] as int) <= bound by {}
        let q = choose|q: int| 0 <= q < n && #[trigger] c[q] != 0;
        assert(c.len() == n);
        lemma_max_magnitude_bounds(c, bound);
    }
}

proof fn lemma_iterate_reaches(
    s: PslqState,
    n: nat,
    p: nat,
    gamma: int,
    tolerance: int,
    bound: int,
    iteration: nat,
    max_iterations: nat,
    k: nat,
    t: PslqState,
    i: int,
)
    requires
        iteration + k < max_iterations,
        pslq_states(s, n, p, gamma, k + 1) == Some(t),
        acceptable_column(t, i, n, p, tolerance, bound),
    ensures
        pslq_iterate(s, n, p, gamma, tolerance, bound, iteration, max_iterations) matches Some((_, it, _))
            && it <= iteration + k + 1,
    decreases k,
{
    let m = pivot_from(s.1, gamma, p, 0, (n - 1) as nat, 0, -1);
    let s1 = exchange_state(s, m as int);
    let rotated = if m <= rotation_bound(n) {
        rotate_h(s1.1, m as int, p)
    } else {
        Some(s1.1)
    };
    let h2 = rotated->Some_0;
    let s3 = reduce_rows_state((s1.0, h2, s1.2, s1.3), m as int + 1, n as int, m as int + 2, p);
    assert(pslq_states(s, n, p, gamma, k + 1) == pslq_states(s3, n, p, gamma, k));
    if found_from(s3, 0, n, p, tolerance, bound) is None {
        if k == 0 {
            assert(t == s3);
            lemma_found_from_reaches(s3, 0, i, n, p, tolerance, bound);
        } else {
            lemma_iterate_reaches(s3, n, p, gamma, tolerance, bound, iteration + 1, max_iterations, (k - 1) as nat, t, i);
        }
    }
}

/// PSLQ finds a relation whenever its iterations reach one the caller
/// accepts: if, within the iteration limit, the state after `k + 1`
/// iterations has a column whose `|y|` is below the tolerance and whose
/// coefficients are nonzero and at most `|max_coefficient|` in magnitude,
/// the outcome is a relation found after at most `k + 1` iterations.
pub proof fn pslq_finds_every_accepted_column(x: Seq<int>, config: PslqConfig, k: nat, t: PslqState, i: int)
    requires
        !no_relation_search(x, config),
        k < config.max_iterations,
        pslq_states(
            pslq_start(x, config.precision_bits as nat),
            x.len(),
            config.precision_bits as nat,
            fixed_sqrt(tdiv(shl(4, config.precision_bits as nat), 3), config.precision_bits as nat),
            k + 1,
        ) == Some(t),
        acceptable_column(
            t,
            i,
            x.len(),
            config.precision_bits as nat,
            pow2((config.precision_bits - config.target_bits) as nat) as int,
            abs(config.max_coefficient as int),
        ),
    ensures
        pslq_outcome(x, config) matches Some((_, iterations, _)) && iterations <= k + 1,
{
    let p = config.precision_bits as nat;
    lemma_iterate_reaches(
        pslq_start(x, p),
        x.len(),
        p,
        fixed_sqrt(tdiv(shl(4, p), 3), p),
        pow2((config.precision_bits - config.target_bits) as nat) as int,
        abs(config.max_coefficient as int),
        0,
        config.max_iterations as nat,
        k,
        t,
        i,
    );
}

/// The iteration of the last progress report of PSLQ on `x`: 0 when it
/// reports only its start (or, refusing the input, nothing).
pub open spec fn pslq_last_report(x: Seq<int>, config: PslqConfig) -> nat {
    let n = x.len();
    let p = config.precision_bits as nat;
    if n < 2 || config.precision_bits < 53 || config.target_bits >= config.precision_bits {
        0
    } else if exists|k: int| 0 <= k < n && #[trigger] x[k] == 0 {
        0
    } else if input_norm(x, p) == 0 {
        0
    } else {
        let y0 = normalized_input(x, p);
        let h = initial_h_spec(n, p, scaled_norms(x, p), y0);
        let one = pow2(p) as int;
        let start = reduce_rows_state(
            (y0, h, scaled_identity(n, one), scaled_identity(n, one)),
            1,
            n as int,
            n - 1,
            p,
        );
        pslq_iterate_last(
            start,
            n,
            p,
            fixed_sqrt(tdiv(shl(4, p), 3), p),
            pow2((config.precision_bits - config.target_bits) as nat) as int,
            abs(config.max_coefficient as int),
            0,
            config.max_iterations as nat,
            0,
        )
    }
}

/// The smallest magnitude among the entries of a nonempty sequence.
pub open spec fn min_abs(y: Seq<int>) -> int
    decreases y.len(),
{
    if y.len() <= 1 {
        abs(y[0])
    } else if abs(y.last()) < min_abs(y.drop_last()) {
        abs(y.last())
    } else {
        min_abs(y.drop_last())
    }
}

/// The progress reports of the iterations from `iteration` on: the one that
/// finds a relation reports its iteration count and residual bits; without
/// one, every 25th iteration reports its count and the residual bits of the
/// smallest entry of `y`.
pub open spec fn pslq_iterate_reports(
    s: PslqState,
    n: nat,
    p: nat,
    gamma: int,
    tolerance: int,
    max_coefficient: int,
    iteration: nat,
    max_iterations: nat,
) -> Seq<(usize, usize)>
    decreases max_iterations - iteration,
{
    if iteration >= max_iterations {
        Seq::empty()
    } else {
        let m = pivot_from(s.1, gamma, p, 0, (n - 1) as nat, 0, -1);
        let s1 = exchange_state(s, m as int);
        let rotated = if m <= rotation_bound(n) {
            rotate_h(s1.1, m as int, p)
        } else {
            Some(s1.1)
        };
        match rotated {
            None => Seq::empty(),
            Some(h2) => {
                let s3 = reduce_rows_state((s1.0, h2, s1.2, s1.3), m as int + 1, n as int, m as int + 2, p);
                match found_from(s3, 0, n, p, tolerance, max_coefficient) {
                    Some((_, error)) => seq![((iteration + 1) as usize, residual_bits_of(error, p as usize))],
                    None => {
                        let rest = pslq_iterate_reports(
                            s3,
                            n,
                            p,
                            gamma,
                            tolerance,
                            max_coefficient,
                            iteration + 1,
                            max_iterations,
                        );
                        if (iteration + 1) % 25 == 0 {
                            seq![((iteration + 1) as usize, residual_bits_of(min_abs(s3.0), p as usize))] + rest
                        } else {
                            rest
                        }
                    },
                }
            },
        }
    }
}

/// The `(iteration, residual_bits)` reports of PSLQ on `x`, in order: none
/// when it refuses the input, else `(0, 0)` first and then those of the
/// iterations.
pub open spec fn pslq_reports(x: Seq<int>, config: PslqConfig) -> Seq<(usize, usize)> {
    let n = x.len();
    let p = config.precision_bits as nat;
    if no_relation_search(x, config) {
        Seq::empty()
    } else {
        let y0 = normalized_input(x, p);
        let h = initial_h_spec(n, p, scaled_norms(x, p), y0);
        let one = pow2(p) as int;
        let start = reduce_rows_state(
            (y0, h, scaled_identity(n, one), scaled_identity(n, one)),
            1,
            n as int,
            n - 1,
            p,
        );
        seq![(0usize, 0usize)] + pslq_iterate_reports(
            start,
            n,
            p,
            fixed_sqrt(tdiv(shl(4, p), 3), p),
            pow2((config.precision_bits - config.target_bits) as nat) as int,
            abs(config.max_coefficient as int),
            0,
            config.max_iterations as nat,
        )
    }
}

// ---------------------------------------------------------------------------
// Matrix state
// ---------------------------------------------------------------------------

pub open spec fn is_square(m: Seq<Vec<Int>>, n: nat) -> bool {
    &&& m.len() == n
    &&& forall|r: int| 0 <= r < n ==> (#[trigger] m[r]).len() == n
}

/// `y` has `n` entries and `H`, `A`, `B` are `n` by `n`.
pub open spec fn shapes_ok(n: nat, y: Seq<Int>, h: Seq<Vec<Int>>, a: Seq<Vec<Int>>, b: Seq<Vec<Int>>) -> bool {
    &&& y.len() == n
    &&& is_square(h, n)
    &&& is_square(a, n)
    &&& is_square(b, n)
}

pub open spec fn entry(m: Seq<Vec<Int>>, r: int, c: int) -> int {
    m[r]@[c]@
}

/// `sum_{r < k} y0_r * B[r][c]`.
pub open spec fn column_dot(y0: Seq<int>, b: Seq<Vec<Int>>, c: int, k: nat) -> int
    decreases k,
{
    if k == 0 {
        0
    } else {
        column_dot(y0, b, c, (k - 1) as nat) + y0[k - 1] * entry(b, k - 1, c)
    }
}

/// The PSLQ invariant kept exactly: `B` is an integer matrix scaled by `2^p`
/// and `y * 2^p == y0 * B`.
pub open spec fn state_ok(
    n: nat,
    p: nat,
    y0: Seq<int>,
    y: Seq<Int>,
    h: Seq<Vec<Int>>,
    a: Seq<Vec<Int>>,
    b: Seq<Vec<Int>>,
) -> bool {
    &&& y0.len() == n
    &&& y.len() == n
    &&& is_square(h, n)
    &&& is_square(a, n)
    &&& is_square(b, n)
    &&& forall|r: int, c: int| 0 <= r < n && 0 <= c < n ==> #[trigger] entry(b, r, c) % (pow2(p) as int) == 0
    &&& forall|c: int| 0 <= c < n ==> (#[trigger] y[c])@ * pow2(p) == column_dot(y0, b, c, n)
}

proof fn lemma_column_combination(
    y0: Seq<int>,
    b: Seq<Vec<Int>>,
    b2: Seq<Vec<Int>>,
    c_new: int,
    c_old: int,
    c_other: int,
    f: int,
    k: nat,
)
    requires
        forall|r: int|
            0 <= r < k ==> #[trigger] entry(b2, r, c_new) == entry(b, r, c_old) + f * entry(b, r, c_other),
    ensures
        column_dot(y0, b2, c_new, k) == column_dot(y0, b, c_old, k) + f * column_dot(y0, b, c_other, k),
    decreases k,
{
    if k > 0 {
        let r = k - 1;
        lemma_column_combination(y0, b, b2, c_new, c_old, c_other, f, (k - 1) as nat);
        let u = entry(b, r, c_old);
        let v = entry(b, r, c_other);
        assert(entry(b2, r, c_new) == u + f * v);
        lemma_mul_is_distributive_add(y0[r], u, f * v);
        lemma_mul_is_associative(y0[r], f, v);
        lemma_mul_is_commutative(y0[r], f);
        lemma_mul_is_associative(f, y0[r], v);
        lemma_mul_is_distributive_add(
            f,
            column_dot(y0, b, c_other, (k - 1) as nat),
            y0[r] * v,
        );
    }
}

proof fn lemma_column_same(y0: Seq<int>, b: Seq<Vec<Int>>, b2: Seq<Vec<Int>>, c_new: int, c_old: int, k: nat)
    requires
        forall|r: int| 0 <= r < k ==> #[trigger] entry(b2, r, c_new) == entry(b, r, c_old),
    ensures
        column_dot(y0, b2, c_new, k) == column_dot(y0, b, c_old, k),
    decreases k,
{
    if k > 0 {
        lemma_column_same(y0, b, b2, c_new, c_old, (k - 1) as nat);
    }
}

/// A column of exact multiples of `2^p` gives `y0 . column == 2^p * (y0 . c)`.
proof fn lemma_column_scaled(y0: Seq<int>, b: Seq<Vec<Int>>, col: int, c: Seq<int>, p: nat, k: nat)
    requires
        k <= c.len(),
        forall|r: int| 0 <= r < k ==> #[trigger] entry(b, r, col) == c[r] * pow2(p),
    ensures
        column_dot(y0, b, col, k) == dot_upto(c, y0, k) * pow2(p),
    decreases k,
{
    if k > 0 {
        let r = k - 1;
        lemma_column_scaled(y0, b, col, c, p, (k - 1) as nat);
        lemma_mul_is_associative(y0[r], c[r], pow2(p) as int);
        lemma_mul_is_commutative(y0[r], c[r]);
        lemma_mul_is_commutative(c[r] * y0[r], pow2(p) as int);
        lemma_mul_is_commutative(dot_upto(c, y0, (k - 1) as nat), pow2(p) as int);
        lemma_mul_is_distributive_add(
            pow2(p) as int,
            dot_upto(c, y0, (k - 1) as nat),
            c[r] * y0[r],
        );
        lemma_mul_is_commutative(dot_upto(c, y0, k), pow2(p) as int);
    }
}

/// `(w * 2^p * v) >> p == w * v`.
proof fn lemma_shift_exact(w: int, v: int, p: nat)
    ensures
        shr(w * pow2(p) * v, p) == w * v,
        shr(w * pow2(p), p) == w,
{
    lemma_pow2_pos(p);
    let d = pow2(p) as int;
    lemma_mul_is_associative(w, d, v);
    lemma_mul_is_commutative(d, v);
    lemma_mul_is_associative(w, v, d);
    lemma_mul_is_commutative(w * v, d);
    lemma_div_multiples_vanish_fancy(w * v, 0, d);
    lemma_mul_is_commutative(w, d);
    lemma_div_multiples_vanish_fancy(w, 0, d);
}

/// Rounding a multiple of `2^p` (with `p >= 1`) leaves it unchanged.
proof fn lemma_round_multiple(w: int, p: nat)
    requires
        p >= 1,
    ensures
        round_fixed_spec(w * pow2(p), p) == w * pow2(p),
{
    lemma_pow2_pos(p);
    lemma_pow2_adds((p - 1) as nat, 1);
    assert(pow2(1) == 2) by {
        vstd::arithmetic::power2::lemma2_to64();
    }
    let d = pow2(p) as int;
    let half = pow2((p - 1) as nat) as int;
    assert(0 <= half < d);
    lemma_mul_is_commutative(w, d);
    lemma_div_multiples_vanish_fancy(w, half, d);
}

proof fn lemma_floor_sqrt_unique(r1: int, r2: int, x: int)
    requires
        is_floor_sqrt(r1, x),
        is_floor_sqrt(r2, x),
    ensures
        r1 == r2,
{
    if r1 < r2 {
        assert((r1 + 1) * (r1 + 1) <= r2 * r2) by (nonlinear_arith)
            requires
                0 <= r1 + 1 <= r2,
        ;
    } else if r2 < r1 {
        assert((r2 + 1) * (r2 + 1) <= r1 * r1) by (nonlinear_arith)
            requires
                0 <= r2 + 1 <= r1,
        ;
    }
}

// ---------------------------------------------------------------------------
// Fixed-point helpers
// ---------------------------------------------------------------------------

fn sqrt_fixed(value: &Int, precision: usize) -> (r: Int)
    ensures
        r@ == fixed_sqrt(value@, precision as nat),
{
    let shifted = Int::shifted_left(value, precision);
    if shifted.is_negative() {
        Int::zero()
    } else {
        let root = Int::floor_sqrt(&shifted);
        proof {
            assert(is_floor_sqrt(root@, shifted@));
            lemma_floor_sqrt_unique(root@, floor_sqrt(shifted@), shifted@);
        }
        root
    }
}

fn round_fixed(value: &Int, precision: usize) -> (r: Int)
    ensures
        r@ == round_fixed_spec(value@, precision as nat),
{
    if precision == 0 {
        return value.clone();
    }
    let half = Int::shifted_left(&Int::from_u64(1), precision - 1);
    proof {
        vstd::arithmetic::mul::lemma_mul_basics(pow2((precision - 1) as nat) as int);
    }
    let rounded = Int::shifted_right(&Int::plus(value, &half), precision);
    Int::shifted_left(&rounded, precision)
}

fn identity_matrix(n: usize, one: &Int) -> (m: Vec<Vec<Int>>)
    ensures
        is_square(m@, n as nat),
        forall|r: int, c: int|
            0 <= r < n && 0 <= c < n ==> #[trigger] entry(m@, r, c) == (if r == c {
                one@
            } else {
                0
            }),
{
    let mut m: Vec<Vec<Int>> = Vec::new();
    let mut i: usize = 0;
    while i < n
        invariant
            i <= n,
            m@.len() == i,
            forall|r: int| 0 <= r < i ==> (#[trigger] m@[r]).len() == n,
            forall|r: int, c: int|
                0 <= r < i && 0 <= c < n ==> #[trigger] entry(m@, r, c) == (if r == c {
                    one@
                } else {
                    0
                }),
        decreases n - i,
    {
        let mut row: Vec<Int> = Vec::new();
        let mut j: usize = 0;
        while j < n
            invariant
                j <= n,
                i < n,
                row@.len() == j,
                forall|c: int| 0 <= c < j ==> (#[trigger] row@[c])@ == (if i == c {
                    one@
                } else {
                    0
                }),
            decreases n - j,
        {
            if i == j {
                row.push(one.clone());
            } else {
                row.push(Int::zero());
            }
            j += 1;
        }
        let ghost old_m = m@;
        let ghost rv = row@;
        m.push(row);
        assert forall|r: int, c: int| 0 <= r < i + 1 && 0 <= c < n implies #[trigger] entry(m@, r, c) == (if r == c {
            one@
        } else {
            0
        }) by {
            if r < i {
                assert(m@[r] == old_m[r]);
                assert(entry(m@, r, c) == entry(old_m, r, c));
            } else {
                assert(m@[r]@ == rv);
                assert(rv[c]@ == (if i == c {
                    one@
                } else {
                    0
                }));
            }
        }
        i += 1;
    }
    m
}

fn residual_bits(error: &Int, precision: usize) -> (r: usize)
    ensures
        r == residual_bits_of(error@, precision),
{
    if error.is_zero() {
        return precision;
    }
    let bits = Int::bits(&error.absolute()) as usize;
    precision.saturating_sub(bits)
}

/// `e1 + w * e2` is a multiple of `d` when `e1` and `e2` are.
proof fn lemma_multiple_combination(e1: int, e2: int, w: int, d: int)
    requires
        d > 0,
        e1 % d == 0,
        e2 % d == 0,
    ensures
        (e1 + w * e2) % d == 0,
        e1 + w * e2 == (e1 / d + w * (e2 / d)) * d,
{
    lemma_fundamental_div_mod(e1, d);
    lemma_fundamental_div_mod(e2, d);
    let q1 = e1 / d;
    let q2 = e2 / d;
    lemma_mul_is_commutative(d, q1);
    lemma_mul_is_commutative(d, q2);
    lemma_mul_is_associative(w, q2, d);
    vstd::arithmetic::mul::lemma_mul_is_distributive_add_other_way(d, q1, w * q2);
    lemma_mod_multiples_basic(q1 + w * q2, d);
}

/// `y_new * 2^p` where `y_new = y_j + w * y_i` and both `y`s satisfy the invariant.
proof fn lemma_scaled_update(yj: int, yi: int, w: int, d: int)
    ensures
        (yj + w * yi) * d == yj * d + w * (yi * d),
{
    vstd::arithmetic::mul::lemma_mul_is_distributive_add_other_way(d, yj, w * yi);
    lemma_mul_is_associative(w, yi, d);
}

/// One size-reduction step: row `i` of `H` and `A`, column `j` of `B` and
/// entry `j` of `y` are combined with row/column/entry `i` (resp. `j`) by the
/// rounded multiple `t = round(H[i][j] / H[j][j])`.
fn reduce_entry(
    i: usize,
    j: usize,
    n: usize,
    precision: usize,
    y: &mut Vec<Int>,
    h: &mut Vec<Vec<Int>>,
    a: &mut Vec<Vec<Int>>,
    b: &mut Vec<Vec<Int>>,
    Ghost(y0): Ghost<Seq<int>>,
)
    requires
        shapes_ok(n as nat, old(y)@, old(h)@, old(a)@, old(b)@),
        j < i < n,
    ensures
        shapes_ok(n as nat, final(y)@, final(h)@, final(a)@, final(b)@),
        state_ok(n as nat, precision as nat, y0, old(y)@, old(h)@, old(a)@, old(b)@) ==> state_ok(
            n as nat,
            precision as nat,
            y0,
            final(y)@,
            final(h)@,
            final(a)@,
            final(b)@,
        ),
        state_of(final(y)@, final(h)@, final(a)@, final(b)@) == reduce_entry_state(
            state_of(old(y)@, old(h)@, old(a)@, old(b)@),
            i as int,
            j as int,
            precision as nat,
        ),
{
    let ghost p = precision as nat;
    let ghost d = pow2(p) as int;
    let ghost y_start = y@;
    let ghost h0 = h@;
    let ghost a0 = a@;
    let ghost b_start = b@;
    let ghost s0 = state_of(y@, h@, a@, b@);
    let ghost ok = state_ok(n as nat, p, y0, y@, h@, a@, b@);
    proof {
        lemma_pow2_pos(p);
        assert(s0.1[j as int][j as int] == entry(h0, j as int, j as int));
        assert(s0.1[i as int][j as int] == entry(h0, i as int, j as int));
    }
    if h[j][j].is_zero() {
        return;
    }
    let quotient = Int::quotient(&Int::shifted_left(&h[i][j], precision), &h[j][j]);
    let t = round_fixed(&quotient, precision);
    let ghost w = if p == 0 {
        quotient@
    } else {
        shr(quotient@ + pow2((p - 1) as nat), p)
    };
    proof {
        if p == 0 {
            vstd::arithmetic::power2::lemma2_to64();
            assert(d == 1);
            assert(t@ == round_fixed_spec(quotient@, 0));
            assert(t@ == quotient@);
            assert(w * 1 == w);
        } else {
            assert(t@ == shl(shr(quotient@ + pow2((p - 1) as nat), p), p));
            assert(shl(w, p) == w * pow2(p));
        }
    }
    assert(t@ == w * d);
    let delta_y = Int::shifted_right(&Int::times(&t, &y[i]), precision);
    proof {
        lemma_shift_exact(w, y@[i as int]@, p);
    }
    let updated = Int::plus(&y[j], &delta_y);
    let ghost y_before = y@;
    y[j] = updated;
    let mut k: usize = 0;
    while k <= j
        invariant
            k <= j + 1,
            j < i < n,
            is_square(h@, n as nat),
            is_square(h0, n as nat),
            p == precision as nat,
            forall|r: int, c: int|
                0 <= r < n && 0 <= c < n ==> #[trigger] entry(h@, r, c) == (if r == i && c < k {
                    entry(h0, i as int, c) - shr(t@ * entry(h0, j as int, c), p)
                } else {
                    entry(h0, r, c)
                }),
        decreases j + 1 - k,
    {
        assert(entry(h@, j as int, k as int) == entry(h0, j as int, k as int));
        assert(entry(h@, i as int, k as int) == entry(h0, i as int, k as int));
        let delta = Int::shifted_right(&Int::times(&t, &h[j][k]), precision);
        let value = Int::minus(&h[i][k], &delta);
        let ghost before = h@;
        h[i][k] = value;
        assert forall|r: int, c: int| 0 <= r < n && 0 <= c < n implies #[trigger] entry(h@, r, c) == (if r == i
            && c < k + 1 {
            entry(h0, i as int, c) - shr(t@ * entry(h0, j as int, c), p)
        } else {
            entry(h0, r, c)
        }) by {
            assert(entry(before, r, c) == (if r == i && c < k {
                entry(h0, i as int, c) - shr(t@ * entry(h0, j as int, c), p)
            } else {
                entry(h0, r, c)
            }));
            if r != i {
                assert(h@[r] == before[r]);
            }
        }
        k += 1;
    }
    let ghost b0 = b@;
    let mut k: usize = 0;
    while k < n
        invariant
            k <= n,
            j < i < n,
            p == precision as nat,
            d == pow2(p),
            d > 0,
            t@ == w * d,
            is_square(a@, n as nat),
            is_square(a0, n as nat),
            is_square(b@, n as nat),
            is_square(b0, n as nat),
            forall|r: int, c: int|
                0 <= r < n && 0 <= c < n ==> #[trigger] entry(a@, r, c) == (if r == i && c < k {
                    entry(a0, i as int, c) - shr(t@ * entry(a0, j as int, c), p)
                } else {
                    entry(a0, r, c)
                }),
            ok ==> forall|r: int, c: int|
                0 <= r < n && 0 <= c < n ==> #[trigger] entry(b0, r, c) % d == 0,
            forall|r: int| 0 <= r < k ==> #[trigger] entry(b@, r, j as int) == entry(b0, r, j as int) + w * entry(b0, r, i as int),
            forall|r: int, c: int|
                k <= r < n && 0 <= c < n ==> #[trigger] entry(b@, r, c) == entry(b0, r, c),
            forall|r: int, c: int|
                0 <= r < n && 0 <= c < n && c != j ==> #[trigger] entry(b@, r, c) == entry(b0, r, c),
        decreases n - k,
    {
        assert(entry(a@, j as int, k as int) == entry(a0, j as int, k as int));
        assert(entry(a@, i as int, k as int) == entry(a0, i as int, k as int));
        let delta_a = Int::shifted_right(&Int::times(&t, &a[j][k]), precision);
        let value_a = Int::minus(&a[i][k], &delta_a);
        let ghost a_before = a@;
        a[i][k] = value_a;
        assert forall|r: int, c: int| 0 <= r < n && 0 <= c < n implies #[trigger] entry(a@, r, c) == (if r == i
            && c < k + 1 {
            entry(a0, i as int, c) - shr(t@ * entry(a0, j as int, c), p)
        } else {
            entry(a0, r, c)
        }) by {
            assert(entry(a_before, r, c) == (if r == i && c < k {
                entry(a0, i as int, c) - shr(t@ * entry(a0, j as int, c), p)
            } else {
                entry(a0, r, c)
            }));
            if r != i {
                assert(a@[r] == a_before[r]);
            }
        }
        assert(entry(b@, k as int, i as int) == entry(b0, k as int, i as int));
        assert(entry(b@, k as int, j as int) == entry(b0, k as int, j as int));
        let product_b = Int::times(&t, &b[k][i]);
        assert(product_b@ == t@ * entry(b@, k as int, i as int));
        let delta_b = Int::shifted_right(&product_b, precision);
        assert(delta_b@ == shr(product_b@, p));
        proof {
            lemma_shift_exact(w, entry(b0, k as int, i as int), p);
        }
        let value_b = Int::plus(&b[k][j], &delta_b);
        assert(t@ * entry(b0, k as int, i as int) == w * pow2(p) * entry(b0, k as int, i as int));
        assert(delta_b@ == shr(t@ * entry(b0, k as int, i as int), p));
        assert(delta_b@ == w * entry(b0, k as int, i as int));
        let ghost b_before = b@;
        b[k][j] = value_b;
        assert forall|r: int, c: int|
            0 <= r < n && 0 <= c < n && c != j implies #[trigger] entry(b@, r, c) == entry(b0, r, c) by {
            assert(entry(b_before, r, c) == entry(b0, r, c));
            if r != k {
                assert(b@[r] == b_before[r]);
            }
        }
        assert forall|r: int| 0 <= r < k + 1 implies #[trigger] entry(b@, r, j as int) == entry(b0, r, j as int) + w * entry(b0, r, i as int) by {
            if r < k {
                assert(b@[r] == b_before[r]);
                assert(entry(b_before, r, j as int) == entry(b0, r, j as int) + w * entry(b0, r, i as int));
            } else {
                assert(entry(b@, r, j as int) == value_b@);
                assert(delta_b@ == w * entry(b0, k as int, i as int));
            }
        }
        assert forall|r: int, c: int|
            k + 1 <= r < n && 0 <= c < n implies #[trigger] entry(b@, r, c) == entry(b0, r, c) by {
            assert(b@[r] == b_before[r]);
            assert(entry(b_before, r, c) == entry(b0, r, c));
        }
        k += 1;
    }
    proof {
        if ok {
            assert forall|r: int, c: int| 0 <= r < n && 0 <= c < n implies #[trigger] entry(b@, r, c) % d == 0 by {
                if c == j {
                    lemma_multiple_combination(entry(b0, r, j as int), entry(b0, r, i as int), w, d);
                } else {
                    assert(entry(b0, r, c) % d == 0);
                }
            }
            lemma_column_combination(y0, b0, b@, j as int, j as int, i as int, w, n as nat);
            assert forall|c: int| 0 <= c < n implies (#[trigger] y@[c])@ * pow2(p) == column_dot(y0, b@, c, n as nat) by {
                if c == j {
                    assert(y_before[c]@ * d == column_dot(y0, b0, c, n as nat));
                    assert(y_before[i as int]@ * d == column_dot(y0, b0, i as int, n as nat));
                    lemma_scaled_update(y_before[c]@, y_before[i as int]@, w, d);
                } else {
                    assert(y_before[c]@ * d == column_dot(y0, b0, c, n as nat));
                    lemma_column_same(y0, b0, b@, c, c, n as nat);
                }
            }
        }
        // the values of the new state
        let e = reduce_entry_state(s0, i as int, j as int, p);
        assert(t@ == round_fixed_spec(tdiv(shl(s0.1[i as int][j as int], p), s0.1[j as int][j as int]), p));
        assert(int_values(y@) =~= e.0) by {
            assert(s0.0[i as int] == y_start[i as int]@);
            assert(s0.0[j as int] == y_start[j as int]@);
        }
        assert forall|r: int| 0 <= r < n implies #[trigger] mat(h@)[r] == e.1[r] by {
            assert forall|c: int| 0 <= c < n implies #[trigger] mat(h@)[r][c] == e.1[r][c] by {
                assert(mat(h@)[r][c] == entry(h@, r, c));
                assert(s0.1[r][c] == entry(h0, r, c));
                assert(s0.1[j as int][c] == entry(h0, j as int, c));
                assert(s0.1[i as int][c] == entry(h0, i as int, c));
            }
            assert(mat(h@)[r] =~= e.1[r]);
        }
        assert(mat(h@) =~= e.1);
        assert forall|r: int| 0 <= r < n implies #[trigger] mat(a@)[r] == e.2[r] by {
            assert forall|c: int| 0 <= c < n implies #[trigger] mat(a@)[r][c] == e.2[r][c] by {
                assert(mat(a@)[r][c] == entry(a@, r, c));
                assert(s0.2[r][c] == entry(a0, r, c));
                assert(s0.2[j as int][c] == entry(a0, j as int, c));
                assert(s0.2[i as int][c] == entry(a0, i as int, c));
            }
            assert(mat(a@)[r] =~= e.2[r]);
        }
        assert(mat(a@) =~= e.2);
        assert forall|r: int| 0 <= r < n implies #[trigger] mat(b@)[r] == e.3[r] by {
            assert forall|c: int| 0 <= c < n implies #[trigger] mat(b@)[r][c] == e.3[r][c] by {
                assert(mat(b@)[r][c] == entry(b@, r, c));
                assert(s0.3[r][c] == entry(b0, r, c));
                assert(s0.3[r][i as int] == entry(b0, r, i as int));
                assert(s0.3[r][j as int] == entry(b0, r, j as int));
                lemma_shift_exact(w, entry(b0, r, i as int), p);
                assert(t@ * entry(b0, r, i as int) == w * pow2(p) * entry(b0, r, i as int));
            }
            assert(mat(b@)[r] =~= e.3[r]);
        }
        assert(mat(b@) =~= e.3);
    }
}

/// Size-reduces rows `start..n` of `H` against the earlier columns, keeping the
/// exact invariant.
fn reduce_rows(
    start: usize,
    n: usize,
    column_limit: usize,
    precision: usize,
    y: &mut Vec<Int>,
    h: &mut Vec<Vec<Int>>,
    a: &mut Vec<Vec<Int>>,
    b: &mut Vec<Vec<Int>>,
    Ghost(y0): Ghost<Seq<int>>,
)
    requires
        shapes_ok(n as nat, old(y)@, old(h)@, old(a)@, old(b)@),
        start >= 1,
    ensures
        shapes_ok(n as nat, final(y)@, final(h)@, final(a)@, final(b)@),
        state_ok(n as nat, precision as nat, y0, old(y)@, old(h)@, old(a)@, old(b)@) ==> state_ok(
            n as nat,
            precision as nat,
            y0,
            final(y)@,
            final(h)@,
            final(a)@,
            final(b)@,
        ),
        state_of(final(y)@, final(h)@, final(a)@, final(b)@) == reduce_rows_state(
            state_of(old(y)@, old(h)@, old(a)@, old(b)@),
            start as int,
            n as int,
            column_limit as int,
            precision as nat,
        ),
{
    let ghost goal = reduce_rows_state(
        state_of(y@, h@, a@, b@),
        start as int,
        n as int,
        column_limit as int,
        precision as nat,
    );
    let ghost ok = state_ok(n as nat, precision as nat, y0, y@, h@, a@, b@);
    let mut i = start;
    while i < n
        invariant
            shapes_ok(n as nat, y@, h@, a@, b@),
            ok ==> state_ok(n as nat, precision as nat, y0, y@, h@, a@, b@),
            i >= 1,
            goal == reduce_rows_state(
                state_of(y@, h@, a@, b@),
                i as int,
                n as int,
                column_limit as int,
                precision as nat,
            ),
        decreases n - i,
    {
        let limit = column_limit.saturating_sub(1);
        let upper = if i - 1 < limit {
            i - 1
        } else {
            limit
        };
        assert(upper == reduce_upper(i as int, column_limit as int));
        let ghost row_start = state_of(y@, h@, a@, b@);
        let ghost row_goal = reduce_columns_state(row_start, i as int, (upper + 1) as nat, precision as nat);
        let mut column = upper + 1;
        while column > 0
            invariant
                shapes_ok(n as nat, y@, h@, a@, b@),
                ok ==> state_ok(n as nat, precision as nat, y0, y@, h@, a@, b@),
                column <= upper + 1,
                upper < i < n,
                row_goal == reduce_columns_state(
                    state_of(y@, h@, a@, b@),
                    i as int,
                    column as nat,
                    precision as nat,
                ),
            decreases column,
        {
            column -= 1;
            reduce_entry(i, column, n, precision, y, h, a, b, Ghost(y0));
        }
        i += 1;
    }
}

fn exchange<T>(v: &mut Vec<T>, i: usize, j: usize, spare: T)
    requires
        i < old(v).len(),
        j < old(v).len(),
        i != j,
    ensures
        final(v)@ == old(v)@.update(i as int, old(v)@[j as int]).update(j as int, old(v)@[i as int]),
{
    let mut held = spare;
    std::mem::swap(&mut held, &mut v[i]);
    std::mem::swap(&mut held, &mut v[j]);
    std::mem::swap(&mut held, &mut v[i]);
}

/// Exchanges entries `m` and `m + 1` of `y`, rows `m` and `m + 1` of `H` and
/// `A`, and columns `m` and `m + 1` of `B`.
fn exchange_step(
    m: usize,
    n: usize,
    precision: usize,
    y: &mut Vec<Int>,
    h: &mut Vec<Vec<Int>>,
    a: &mut Vec<Vec<Int>>,
    b: &mut Vec<Vec<Int>>,
    Ghost(y0): Ghost<Seq<int>>,
)
    requires
        state_ok(n as nat, precision as nat, y0, old(y)@, old(h)@, old(a)@, old(b)@),
        m + 1 < n,
    ensures
        state_ok(n as nat, precision as nat, y0, final(y)@, final(h)@, final(a)@, final(b)@),
        state_of(final(y)@, final(h)@, final(a)@, final(b)@) == exchange_state(
            state_of(old(y)@, old(h)@, old(a)@, old(b)@),
            m as int,
        ),
{
    let ghost p = precision as nat;
    let ghost y_before = y@;
    let ghost h_before = h@;
    let ghost a_before = a@;
    let ghost b0 = b@;
    exchange(y, m, m + 1, Int::zero());
    exchange(h, m, m + 1, Vec::new());
    exchange(a, m, m + 1, Vec::new());
    let mut r: usize = 0;
    while r < n
        invariant
            r <= n,
            m + 1 < n,
            is_square(b@, n as nat),
            is_square(b0, n as nat),
            forall|q: int| 0 <= q < r ==> (#[trigger] b@[q])@ == b0[q]@.update(m as int, b0[q]@[m + 1]).update(m + 1, b0[q]@[m as int]),
            forall|q: int| r <= q < n ==> #[trigger] b@[q] == b0[q],
        decreases n - r,
    {
        let ghost b_before = b@;
        exchange(&mut b[r], m, m + 1, Int::zero());
        assert forall|q: int| 0 <= q < r + 1 implies (#[trigger] b@[q])@ == b0[q]@.update(m as int, b0[q]@[m + 1]).update(m + 1, b0[q]@[m as int]) by {
            if q < r {
                assert(b@[q] == b_before[q]);
            }
        }
        assert forall|q: int| r + 1 <= q < n implies #[trigger] b@[q] == b0[q] by {
            assert(b@[q] == b_before[q]);
        }
        r += 1;
    }
    proof {
        assert forall|q: int, c: int| 0 <= q < n && 0 <= c < n implies #[trigger] entry(b@, q, c) == entry(b0, q, if c == m {
            m + 1
        } else if c == m + 1 {
            m as int
        } else {
            c
        }) by {
            assert(b@[q]@ == b0[q]@.update(m as int, b0[q]@[m + 1]).update(m + 1, b0[q]@[m as int]));
        }
        assert forall|q: int, c: int| 0 <= q < n && 0 <= c < n implies #[trigger] entry(b@, q, c) % (pow2(p) as int) == 0 by {
            let c0 = if c == m {
                m + 1
            } else if c == m + 1 {
                m as int
            } else {
                c
            };
            assert(entry(b@, q, c) == entry(b0, q, c0));
            assert(entry(b0, q, c0) % (pow2(p) as int) == 0);
        }
        assert forall|c: int| 0 <= c < n implies (#[trigger] y@[c])@ * pow2(p) == column_dot(y0, b@, c, n as nat) by {
            let c0 = if c == m {
                m + 1
            } else if c == m + 1 {
                m as int
            } else {
                c
            };
            assert forall|q: int| 0 <= q < n implies #[trigger] entry(b@, q, c) == entry(b0, q, c0) by {
                assert(entry(b@, q, c) == entry(b0, q, c0));
            }
            lemma_column_same(y0, b0, b@, c, c0, n as nat);
            assert(y@[c] == y_before[c0]);
            assert(y_before[c0]@ * pow2(p) == column_dot(y0, b0, c0, n as nat));
        }
        let e = exchange_state(state_of(y_before, h_before, a_before, b0), m as int);
        assert(int_values(y@) =~= e.0);
        assert(mat(h@) =~= e.1);
        assert(mat(a@) =~= e.2);
        assert forall|r: int| 0 <= r < n implies #[trigger] mat(b@)[r] == e.3[r] by {
            assert(mat(b@)[r] =~= swap_seq(mat(b0)[r], m as int));
        }
        assert(mat(b@) =~= e.3);
    }
}

/// Rotates columns `m` and `m + 1` of `H` to restore its lower-trapezoidal
/// shape; `false` when the rotation is degenerate.
fn rotate_columns(h: &mut Vec<Vec<Int>>, m: usize, n: usize, precision: usize) -> (ok: bool)
    requires
        is_square(old(h)@, n as nat),
        m + 1 < n,
    ensures
        is_square(final(h)@, n as nat),
        ok == rotate_h(mat(old(h)@), m as int, precision as nat) is Some,
        ok ==> rotate_h(mat(old(h)@), m as int, precision as nat) == Some(mat(final(h)@)),
        !ok ==> final(h)@ == old(h)@,
{
    let ghost h0 = h@;
    let ghost p = precision as nat;
    let squares = Int::plus(&Int::times(&h[m][m], &h[m][m]), &Int::times(&h[m][m + 1], &h[m][m + 1]));
    let sum = Int::shifted_right(&squares, precision).absolute();
    let t0 = sqrt_fixed(&sum, precision);
    assert(mat(h0)[m as int][m as int] == h0[m as int]@[m as int]@);
    assert(mat(h0)[m as int][m + 1] == h0[m as int]@[m + 1]@);
    if t0.is_zero() {
        return false;
    }
    let t1 = Int::quotient(&Int::shifted_left(&h[m][m], precision), &t0);
    let t2 = Int::quotient(&Int::shifted_left(&h[m][m + 1], precision), &t0);
    let minus_t2 = t2.negated();
    let mut row = m;
    while row < n
        invariant
            is_square(h@, n as nat),
            is_square(h0, n as nat),
            m <= row <= n,
            m + 1 < n,
            p == precision as nat,
            forall|r: int, c: int|
                0 <= r < n && 0 <= c < n ==> #[trigger] entry(h@, r, c) == (if m <= r < row && c == m {
                    shr(t1@ * entry(h0, r, m as int) + t2@ * entry(h0, r, m + 1), p)
                } else if m <= r < row && c == m + 1 {
                    shr(minus_t2@ * entry(h0, r, m as int) + t1@ * entry(h0, r, m + 1), p)
                } else {
                    entry(h0, r, c)
                }),
        decreases n - row,
    {
        let t3 = h[row][m].clone();
        let t4 = h[row][m + 1].clone();
        assert(entry(h@, row as int, m as int) == entry(h0, row as int, m as int));
        assert(entry(h@, row as int, m + 1) == entry(h0, row as int, m + 1));
        assert(t3@ == entry(h0, row as int, m as int));
        assert(t4@ == entry(h0, row as int, m + 1));
        let first = Int::shifted_right(&Int::plus(&Int::times(&t1, &t3), &Int::times(&t2, &t4)), precision);
        let second = Int::shifted_right(&Int::plus(&Int::times(&minus_t2, &t3), &Int::times(&t1, &t4)), precision);
        let ghost before = h@;
        h[row][m] = first;
        let ghost middle = h@;
        h[row][m + 1] = second;
        assert forall|r: int, c: int| 0 <= r < n && 0 <= c < n implies #[trigger] entry(h@, r, c) == (if m <= r
            < row + 1 && c == m {
            shr(t1@ * entry(h0, r, m as int) + t2@ * entry(h0, r, m + 1), p)
        } else if m <= r < row + 1 && c == m + 1 {
            shr(minus_t2@ * entry(h0, r, m as int) + t1@ * entry(h0, r, m + 1), p)
        } else {
            entry(h0, r, c)
        }) by {
            if r != row {
                assert(h@[r] == before[r]);
                assert(entry(h@, r, c) == entry(before, r, c));
            } else {
                assert(entry(before, r, c) == entry(h0, r, c));
                assert(h@[r]@ == before[r]@.update(m as int, first).update(m + 1, second));
            }
        }
        row += 1;
    }
    proof {
        let rotated = rotate_h(mat(h0), m as int, p);
        assert(rotated is Some);
        let expected = rotated->Some_0;
        assert forall|r: int| 0 <= r < n implies #[trigger] mat(h@)[r] == expected[r] by {
            assert forall|c: int| 0 <= c < n implies #[trigger] mat(h@)[r][c] == expected[r][c] by {
                assert(mat(h@)[r][c] == entry(h@, r, c));
                assert(mat(h0)[r][c] == entry(h0, r, c));
                assert(mat(h0)[r][m as int] == entry(h0, r, m as int));
                assert(mat(h0)[r][m + 1] == entry(h0, r, m + 1));
            }
            assert(mat(h@)[r] =~= expected[r]);
        }
        assert(mat(h@) =~= expected);
    }
    true
}

/// Picks the row `m` maximizing `gamma^(i+1) * |H[i][i]|`.
fn select_pivot(h: &Vec<Vec<Int>>, gamma: &Int, n: usize, precision: usize) -> (m: usize)
    requires
        is_square(h@, n as nat),
        n >= 2,
        precision * n <= usize::MAX,
    ensures
        m + 1 < n,
        m == pivot_from(mat(h@), gamma@, precision as nat, 0, (n - 1) as nat, 0, -1),
{
    let mut m: usize = 0;
    let mut largest = Int::from_i64(-1);
    let mut gamma_power = gamma.clone();
    let mut i: usize = 0;
    let ghost goal = pivot_from(mat(h@), gamma@, precision as nat, 0, (n - 1) as nat, 0, -1);
    assert(int_pow(gamma@, 1) == int_pow(gamma@, 0) * gamma@);
    while i < n - 1
        invariant
            is_square(h@, n as nat),
            n >= 2,
            precision * n <= usize::MAX,
            i <= n - 1,
            m + 1 < n,
            gamma_power@ == int_pow(gamma@, (i + 1) as nat),
            goal == pivot_from(mat(h@), gamma@, precision as nat, i as nat, (n - 1) as nat, m as nat, largest@),
        decreases n - 1 - i,
    {
        assert(precision * i <= precision * n) by (nonlinear_arith)
            requires
                i < n,
        ;
        let score = Int::shifted_right(&Int::times(&gamma_power, &h[i][i].absolute()), precision * i);
        assert(mat(h@)[i as int][i as int] == h@[i as int]@[i as int]@);
        assert((precision * i) as nat == (precision as nat) * (i as nat));
        if Int::less_than(&largest, &score) {
            largest = score;
            m = i;
        }
        gamma_power = Int::times(&gamma_power, gamma);
        i += 1;
    }
    m
}

fn unsigned_abs(v: i64) -> (r: u64)
    ensures
        r as int == abs(v as int),
{
    if v >= 0 {
        v as u64
    } else {
        ((-(v + 1)) as u64) + 1
    }
}

/// Reads column `i` of `B` as integer coefficients `round(B[j][i]) >> p`, or
/// `None` when one does not fit in an `i64`.
fn extract_column(b: &Vec<Vec<Int>>, i: usize, n: usize, precision: usize) -> (r: Option<Vec<i64>>)
    requires
        is_square(b@, n as nat),
        i < n,
        precision >= 1,
        forall|q: int| 0 <= q < n ==> #[trigger] entry(b@, q, i as int) % (pow2(precision as nat) as int) == 0,
    ensures
        r is Some <==> column_fits(mat(b@), i as int, n as nat, precision as nat),
        r matches Some(c) ==> c@ == column_coefficients(mat(b@), i as int, n as nat, precision as nat),
        r matches Some(c) ==> c@.len() == n && forall|q: int|
            0 <= q < n ==> #[trigger] entry(b@, q, i as int) == (c@[q] as int) * pow2(precision as nat),
{
    let ghost p = precision as nat;
    let ghost d = pow2(p) as int;
    proof {
        lemma_pow2_pos(p);
    }
    let mut coefficients: Vec<i64> = Vec::new();
    let mut j: usize = 0;
    while j < n
        invariant
            is_square(b@, n as nat),
            i < n,
            j <= n,
            p == precision as nat,
            d == pow2(p),
            d > 0,
            p >= 1,
            coefficients@.len() == j,
            forall|q: int| 0 <= q < n ==> #[trigger] entry(b@, q, i as int) % d == 0,
            forall|q: int| 0 <= q < j ==> #[trigger] entry(b@, q, i as int) == (coefficients@[q] as int) * d,
            forall|q: int|
                0 <= q < j ==> i64::MIN <= #[trigger] column_entry(mat(b@), q, i as int, p) <= i64::MAX
                    && coefficients@[q] as int == column_entry(mat(b@), q, i as int, p),
        decreases n - j,
    {
        let ghost e = entry(b@, j as int, i as int);
        assert(mat(b@)[j as int][i as int] == e);
        let ghost w = e / d;
        proof {
            lemma_fundamental_div_mod(e, d);
            lemma_mul_is_commutative(d, w);
            lemma_round_multiple(w, p);
            lemma_shift_exact(w, 0, p);
        }
        let rounded = Int::shifted_right(&round_fixed(&b[j][i], precision), precision);
        assert(rounded@ == w);
        assert(rounded@ == column_entry(mat(b@), j as int, i as int, p));
        match Int::to_i64(&rounded) {
            Some(value) => {
                coefficients.push(value);
            },
            None => {
                return None;
            },
        }
        j += 1;
    }
    assert(coefficients@ =~= column_coefficients(mat(b@), i as int, n as nat, precision as nat));
    Some(coefficients)
}

/// `s[k] = sqrt_fixed(sum_{j >= k} (x_j * x_j) >> p)`.
fn tail_norms(input: &[Int], precision: usize) -> (s: Vec<Int>)
    ensures
        s@.len() == input@.len(),
        forall|k: int|
            0 <= k < input@.len() ==> (#[trigger] s@[k])@ == fixed_sqrt(
                square_sum(int_values(input@).subrange(k, input@.len() as int), precision as nat),
                precision as nat,
            ),
{
    let n = input.len();
    let ghost x = int_values(input@);
    let mut s: Vec<Int> = Vec::new();
    let mut k: usize = 0;
    while k < n
        invariant
            n == input@.len(),
            x == int_values(input@),
            k <= n,
            s@.len() == k,
            forall|q: int|
                0 <= q < k ==> (#[trigger] s@[q])@ == fixed_sqrt(
                    square_sum(x.subrange(q, n as int), precision as nat),
                    precision as nat,
                ),
        decreases n - k,
    {
        let mut sum = Int::zero();
        let mut j = k;
        assert(x.subrange(k as int, k as int) =~= Seq::<int>::empty());
        while j < n
            invariant
                n == input@.len(),
                x == int_values(input@),
                k <= j <= n,
                sum@ == square_sum(x.subrange(k as int, j as int), precision as nat),
            decreases n - j,
        {
            let square = Int::shifted_right(&Int::times(&input[j], &input[j]), precision);
            proof {
                let next = x.subrange(k as int, j + 1);
                assert(next.drop_last() =~= x.subrange(k as int, j as int));
                assert(next.last() == input@[j as int]@);
            }
            sum = Int::plus(&sum, &square);
            j += 1;
        }
        s.push(sqrt_fixed(&sum, precision));
        k += 1;
    }
    s
}

fn zero_matrix(n: usize) -> (m: Vec<Vec<Int>>)
    ensures
        is_square(m@, n as nat),
        forall|r: int, c: int| 0 <= r < n && 0 <= c < n ==> #[trigger] entry(m@, r, c) == 0,
{
    let mut m: Vec<Vec<Int>> = Vec::new();
    let mut i: usize = 0;
    while i < n
        invariant
            i <= n,
            m@.len() == i,
            forall|r: int| 0 <= r < i ==> (#[trigger] m@[r]).len() == n,
            forall|r: int, c: int| 0 <= r < i && 0 <= c < n ==> #[trigger] entry(m@, r, c) == 0,
        decreases n - i,
    {
        let mut row: Vec<Int> = Vec::new();
        let mut j: usize = 0;
        while j < n
            invariant
                j <= n,
                row@.len() == j,
                forall|c: int| 0 <= c < j ==> (#[trigger] row@[c])@ == 0,
            decreases n - j,
        {
            row.push(Int::zero());
            j += 1;
        }
        let ghost before = m@;
        let ghost rv = row@;
        m.push(row);
        assert forall|r: int, c: int| 0 <= r < i + 1 && 0 <= c < n implies #[trigger] entry(m@, r, c) == 0 by {
            if r < i {
                assert(m@[r] == before[r]);
                assert(entry(before, r, c) == 0);
            } else {
                assert(m@[r]@ == rv);
                assert(rv[c]@ == 0);
            }
        }
        i += 1;
    }
    m
}

/// The initial lower-trapezoidal matrix `H` built from the partial norms `s`
/// and the normalized vector `y`.
fn initial_h(n: usize, precision: usize, s: &Vec<Int>, y: &Vec<Int>) -> (h: Vec<Vec<Int>>)
    requires
        s@.len() == n,
        y@.len() == n,
    ensures
        is_square(h@, n as nat),
        mat(h@) == initial_h_spec(n as nat, precision as nat, int_values(s@), int_values(y@)),
{
    let ghost p = precision as nat;
    let ghost sv = int_values(s@);
    let ghost yv = int_values(y@);
    let ghost expected = initial_h_spec(n as nat, p, sv, yv);
    let mut h = zero_matrix(n);
    let mut i: usize = 0;
    while i < n
        invariant
            is_square(h@, n as nat),
            s@.len() == n,
            y@.len() == n,
            i <= n,
            p == precision as nat,
            sv == int_values(s@),
            yv == int_values(y@),
            expected == initial_h_spec(n as nat, p, sv, yv),
            forall|r: int, c: int| 0 <= r < i && 0 <= c < n ==> #[trigger] entry(h@, r, c) == expected[r][c],
            forall|r: int, c: int| i <= r < n && 0 <= c < n ==> #[trigger] entry(h@, r, c) == 0,
        decreases n - i,
    {
        let ghost row_start = h@;
        if i + 1 < n && !s[i].is_zero() {
            let value = Int::quotient(&Int::shifted_left(&s[i + 1], precision), &s[i]);
            h[i][i] = value;
        }
        assert forall|r: int, c: int| 0 <= r < n && 0 <= c < n && r != i implies #[trigger] entry(h@, r, c)
            == entry(row_start, r, c) by {
            assert(h@[r] == row_start[r]);
        }
        assert(entry(h@, i as int, i as int) == expected[i as int][i as int]);
        assert forall|c: int| 0 <= c < n && c != i implies #[trigger] entry(h@, i as int, c) == entry(
            row_start,
            i as int,
            c,
        ) by {}
        let mut j: usize = 0;
        while j < i
            invariant
                is_square(h@, n as nat),
                s@.len() == n,
                y@.len() == n,
                j <= i < n,
                p == precision as nat,
                sv == int_values(s@),
                yv == int_values(y@),
                expected == initial_h_spec(n as nat, p, sv, yv),
                forall|r: int, c: int| 0 <= r < i && 0 <= c < n ==> #[trigger] entry(h@, r, c) == expected[r][c],
                forall|r: int, c: int| i < r < n && 0 <= c < n ==> #[trigger] entry(h@, r, c) == 0,
                forall|c: int| 0 <= c < j ==> #[trigger] entry(h@, i as int, c) == expected[i as int][c],
                entry(h@, i as int, i as int) == expected[i as int][i as int],
                forall|c: int| j <= c < n && c != i ==> #[trigger] entry(h@, i as int, c) == 0,
            decreases i - j,
        {
            let denominator = Int::times(&s[j], &s[j + 1]);
            let ghost before = h@;
            if !denominator.is_zero() {
                let numerator = Int::shifted_left(&Int::times(&y[i].negated(), &y[j]), precision);
                let value = Int::quotient(&numerator, &denominator);
                h[i][j] = value;
            }
            assert(entry(h@, i as int, j as int) == expected[i as int][j as int]);
            assert forall|r: int, c: int| 0 <= r < n && 0 <= c < n && r != i implies #[trigger] entry(h@, r, c)
                == entry(before, r, c) by {
                assert(h@[r] == before[r]);
            }
            assert forall|c: int| 0 <= c < n && c != j implies #[trigger] entry(h@, i as int, c) == entry(
                before,
                i as int,
                c,
            ) by {}
            j += 1;
        }
        i += 1;
    }
    proof {
        assert forall|r: int| 0 <= r < n implies #[trigger] mat(h@)[r] == expected[r] by {
            assert forall|c: int| 0 <= c < n implies #[trigger] mat(h@)[r][c] == expected[r][c] by {
                assert(mat(h@)[r][c] == entry(h@, r, c));
            }
            assert(mat(h@)[r] =~= expected[r]);
        }
        assert(mat(h@) =~= expected);
    }
    h
}

proof fn lemma_identity_column(y0: Seq<int>, b: Seq<Vec<Int>>, one: int, c: int, k: nat)
    requires
        0 <= c,
        k <= y0.len(),
        forall|r: int| 0 <= r < k ==> #[trigger] entry(b, r, c) == (if r == c {
            one
        } else {
            0
        }),
    ensures
        column_dot(y0, b, c, k) == (if c < k {
            y0[c] * one
        } else {
            0
        }),
    decreases k,
{
    if k > 0 {
        lemma_identity_column(y0, b, one, c, (k - 1) as nat);
        assert(entry(b, k - 1, c) == (if k - 1 == c {
            one
        } else {
            0
        }));
    }
}

/// Finds one integer relation among equally-scaled, nonzero fixed-point values.
pub fn find_relation(input: &[Int], config: &PslqConfig) -> (r: Option<PslqRelation>)
    requires
        !no_relation_search(int_values(input@), *config) ==> config.precision_bits * input@.len()
            <= usize::MAX,
    ensures
        (input@.len() < 2 || config.precision_bits < 53 || config.target_bits
            >= config.precision_bits || exists|k: int| 0 <= k < input@.len() && (#[trigger] input@[k])@ == 0)
            ==> r is None,
        r matches Some(rel) ==> is_found_relation(int_values(input@), *config, rel),
        match r {
            Some(rel) => pslq_outcome(int_values(input@), *config) == Some(
                (rel.coefficients@, rel.iterations as nat, rel.residual_bits),
            ),
            None => pslq_outcome(int_values(input@), *config) is None,
        },
{
    let mut silent = ReportLog::new(Silent);
    find_relation_with_progress(input, config, &mut silent)
}

/// PSLQ on `input`, with the iteration of its last progress report.
pub(crate) fn run_relation_search<P: RelationProgress>(
    input: &[Int],
    config: &PslqConfig,
    progress: &mut ReportLog<P>,
) -> (r: (Option<PslqRelation>, usize))
    requires
        !no_relation_search(int_values(input@), *config) ==> config.precision_bits * input@.len()
            <= usize::MAX,
    ensures
        (input@.len() < 2 || config.precision_bits < 53 || config.target_bits
            >= config.precision_bits || exists|k: int| 0 <= k < input@.len() && (#[trigger] input@[k])@ == 0)
            ==> r.0 is None,
        r.0 matches Some(rel) ==> is_found_relation(int_values(input@), *config, rel),
        r.1 == pslq_last_report(int_values(input@), *config),
        no_relation_search(int_values(input@), *config) ==> *final(progress) == *old(progress),
        final(progress).reports() == old(progress).reports() + pslq_reports(int_values(input@), *config),
        match r.0 {
            Some(rel) => pslq_outcome(int_values(input@), *config) == Some(
                (rel.coefficients@, rel.iterations as nat, rel.residual_bits),
            ),
            None => pslq_outcome(int_values(input@), *config) is None,
        },
{
    let ghost base = progress.reports();
    let mut last_report: usize = 0;
    let n = input.len();
    let precision = config.precision_bits;
    if n < 2 || precision < 53 || config.target_bits >= precision {
        assert(base + Seq::<(usize, usize)>::empty() =~= base);
        return (None, last_report);
    }
    let ghost x = int_values(input@);
    let ghost p = precision as nat;
    let mut index: usize = 0;
    while index < n
        invariant
            n == input@.len(),
            index <= n,
            last_report == 0,
            forall|k: int| 0 <= k < index ==> (#[trigger] input@[k])@ != 0,
        decreases n - index,
    {
        if input[index].is_zero() {
            proof {
                let x = int_values(input@);
                assert(x[index as int] == 0);
            }
            return (None, last_report);
        }
        index += 1;
    }
    proof {
        assert forall|k: int| 0 <= k < n implies #[trigger] x[k] != 0 by {
            assert(x[k] == input@[k]@);
        }
    }
    let one = Int::shifted_left(&Int::from_u64(1), precision);
    let tolerance = Int::shifted_left(&Int::from_u64(1), precision - config.target_bits);
    proof {
        vstd::arithmetic::mul::lemma_mul_basics(pow2(p) as int);
        vstd::arithmetic::mul::lemma_mul_basics(pow2((precision - config.target_bits) as nat) as int);
        lemma_pow2_pos(p);
    }
    let mut a = identity_matrix(n, &one);
    let mut b = identity_matrix(n, &one);
    let mut s = tail_norms(input, precision);
    let norm = s[0].clone();
    proof {
        assert(x.subrange(0, n as int) =~= x);
    }
    if norm.is_zero() {
        return (None, last_report);
    }
    let ghost y0 = normalized_input(x, p);
    let mut y: Vec<Int> = Vec::new();
    let mut k: usize = 0;
    while k < n
        invariant
            n == input@.len(),
            x == int_values(input@),
            y0 == normalized_input(x, p),
            p == precision as nat,
            norm@ == input_norm(x, p),
            norm@ != 0,
            k <= n,
            s@.len() == n,
            y@.len() == k,
            forall|q: int| 0 <= q < k ==> (#[trigger] y@[q])@ == y0[q],
            forall|q: int| 0 <= q < k ==> (#[trigger] s@[q])@ == scaled_norms(x, p)[q],
            forall|q: int|
                k <= q < n ==> (#[trigger] s@[q])@ == fixed_sqrt(
                    square_sum(x.subrange(q, n as int), p),
                    p,
                ),
        decreases n - k,
    {
        let value = Int::quotient(&Int::shifted_left(&input[k], precision), &norm);
        y.push(value);
        let scaled = Int::quotient(&Int::shifted_left(&s[k], precision), &norm);
        let ghost s_before = s@;
        s[k] = scaled;
        assert forall|q: int| k + 1 <= q < n implies (#[trigger] s@[q])@ == fixed_sqrt(
            square_sum(x.subrange(q, n as int), p),
            p,
        ) by {
            assert(s@[q] == s_before[q]);
        }
        assert forall|q: int| 0 <= q < k + 1 implies (#[trigger] s@[q])@ == scaled_norms(x, p)[q] by {
            if q < k {
                assert(s@[q] == s_before[q]);
            }
        }
        k += 1;
    }
    let mut h = initial_h(n, precision, &s, &y);
    proof {
        assert(int_values(y@) =~= y0);
        assert(int_values(s@) =~= scaled_norms(x, p));
        let one_v = pow2(p) as int;
        assert(one@ == one_v);
        assert forall|r: int| 0 <= r < n implies #[trigger] mat(a@)[r] == scaled_identity(n as nat, one_v)[r] by {
            assert forall|c: int| 0 <= c < n implies #[trigger] mat(a@)[r][c] == scaled_identity(n as nat, one_v)[r][c] by {
                assert(mat(a@)[r][c] == entry(a@, r, c));
            }
            assert(mat(a@)[r] =~= scaled_identity(n as nat, one_v)[r]);
        }
        assert(mat(a@) =~= scaled_identity(n as nat, one_v));
        assert forall|r: int| 0 <= r < n implies #[trigger] mat(b@)[r] == scaled_identity(n as nat, one_v)[r] by {
            assert forall|c: int| 0 <= c < n implies #[trigger] mat(b@)[r][c] == scaled_identity(n as nat, one_v)[r][c] by {
                assert(mat(b@)[r][c] == entry(b@, r, c));
            }
            assert(mat(b@) [r] =~= scaled_identity(n as nat, one_v)[r]);
        }
        assert(mat(b@) =~= scaled_identity(n as nat, one_v));
    }
    proof {
        assert forall|r: int, c: int| 0 <= r < n && 0 <= c < n implies #[trigger] entry(b@, r, c) % (pow2(p) as int) == 0 by {
            lemma_mod_multiples_basic(1, pow2(p) as int);
            lemma_mod_multiples_basic(0, pow2(p) as int);
            if r == c {
                assert(entry(b@, r, c) == 1 * pow2(p));
            } else {
                assert(entry(b@, r, c) == 0 * pow2(p));
            }
        }
        assert forall|c: int| 0 <= c < n implies (#[trigger] y@[c])@ * pow2(p) == column_dot(y0, b@, c, n as nat) by {
            lemma_identity_column(y0, b@, one@, c, n as nat);
            lemma_mul_is_commutative(y0[c], pow2(p) as int);
        }
    }
    let ghost initial = state_of(y@, h@, a@, b@);
    reduce_rows(1, n, n - 1, precision, &mut y, &mut h, &mut a, &mut b, Ghost(y0));
    let gamma_argument = Int::quotient(
        &Int::shifted_left(&Int::from_u64(4), precision),
        &Int::from_u64(3),
    );
    let gamma = sqrt_fixed(&gamma_argument, precision);
    let max_coefficient = unsigned_abs(config.max_coefficient);
    let ghost outcome = pslq_iterate(
        state_of(y@, h@, a@, b@),
        n as nat,
        p,
        gamma@,
        tolerance@,
        max_coefficient as int,
        0,
        config.max_iterations as nat,
    );
    proof {
        assert(initial == (y0, initial_h_spec(n as nat, p, scaled_norms(x, p), y0), scaled_identity(
            n as nat,
            pow2(p) as int,
        ), scaled_identity(n as nat, pow2(p) as int)));
        assert(gamma@ == fixed_sqrt(tdiv(shl(4, p), 3), p));
        assert(outcome == pslq_iterate(
            reduce_rows_state(initial, 1, n as int, n - 1, p),
            n as nat,
            p,
            fixed_sqrt(tdiv(shl(4, p), 3), p),
            pow2((config.precision_bits - config.target_bits) as nat) as int,
            abs(config.max_coefficient as int),
            0,
            config.max_iterations as nat,
        ));
        assert(!(exists|k: int| 0 <= k < x.len() && #[trigger] x[k] == 0));
        assert(input_norm(x, p) != 0);
        assert(x.len() == n);
        assert(pslq_outcome(x, *config) == (match outcome {
            None => None,
            Some((c, iterations, error)) => Some((c, iterations, residual_bits_of(error, config.precision_bits))),
        }));
        assert(pslq_last_report(x, *config) == pslq_iterate_last(
            state_of(y@, h@, a@, b@),
            n as nat,
            p,
            gamma@,
            tolerance@,
            max_coefficient as int,
            0,
            config.max_iterations as nat,
            0,
        ));
        assert(!no_relation_search(x, *config));
        assert(pslq_reports(x, *config) == seq![(0usize, 0usize)] + pslq_iterate_reports(
            state_of(y@, h@, a@, b@),
            n as nat,
            p,
            gamma@,
            tolerance@,
            max_coefficient as int,
            0,
            config.max_iterations as nat,
        ));
    }
    progress.report(0, 0);
    let ghost mut emitted: Seq<(usize, usize)> = seq![(0usize, 0usize)];
    assert(progress.reports() =~= base + emitted);
    let mut iteration: usize = 0;
    while iteration < config.max_iterations
        invariant
            base == old(progress).reports(),
            progress.reports() == base + emitted,
            pslq_reports(x, *config) == emitted + pslq_iterate_reports(
                state_of(y@, h@, a@, b@),
                n as nat,
                p,
                gamma@,
                tolerance@,
                max_coefficient as int,
                iteration as nat,
                config.max_iterations as nat,
            ),
            state_ok(n as nat, p, y0, y@, h@, a@, b@),
            n == input@.len(),
            n >= 2,
            p == precision as nat,
            precision == config.precision_bits,
            precision >= 53,
            config.target_bits < precision,
            precision * n <= usize::MAX,
            x == int_values(input@),
            y0 == normalized_input(x, p),
            tolerance@ == pow2((precision - config.target_bits) as nat),
            max_coefficient as int == abs(config.max_coefficient as int),
            iteration <= config.max_iterations,
            forall|k: int| 0 <= k < n ==> (#[trigger] input@[k])@ != 0,
            !no_relation_search(x, *config),
            pslq_outcome(x, *config) == (match outcome {
                None => None,
                Some((c, iterations, error)) => Some((c, iterations, residual_bits_of(error, config.precision_bits))),
            }),
            outcome == pslq_iterate(
                state_of(y@, h@, a@, b@),
                n as nat,
                p,
                gamma@,
                tolerance@,
                max_coefficient as int,
                iteration as nat,
                config.max_iterations as nat,
            ),
            pslq_last_report(x, *config) == pslq_iterate_last(
                state_of(y@, h@, a@, b@),
                n as nat,
                p,
                gamma@,
                tolerance@,
                max_coefficient as int,
                iteration as nat,
                config.max_iterations as nat,
                last_report as nat,
            ),
        decreases config.max_iterations - iteration,
    {
        let ghost current = state_of(y@, h@, a@, b@);
        let m = select_pivot(&h, &gamma, n, precision);
        exchange_step(m, n, precision, &mut y, &mut h, &mut a, &mut b, Ghost(y0));
        let ghost s1 = state_of(y@, h@, a@, b@);
        assert(m as nat <= rotation_bound(n as nat) <==> m <= n.saturating_sub(3));
        if m <= n.saturating_sub(3) {
            if !rotate_columns(&mut h, m, n, precision) {
                proof {
                    assert(m == pivot_from(current.1, gamma@, p, 0, (n - 1) as nat, 0, -1));
                    assert(s1 == exchange_state(current, m as int));
                    assert(rotate_h(s1.1, m as int, p) is None);
                    assert(outcome is None);
                    assert(emitted + Seq::<(usize, usize)>::empty() =~= emitted);
                }
                return (None, last_report);
            }
        }
        let ghost s2 = state_of(y@, h@, a@, b@);
        reduce_rows(m + 1, n, m + 2, precision, &mut y, &mut h, &mut a, &mut b, Ghost(y0));
        let ghost s3 = state_of(y@, h@, a@, b@);
        proof {
            assert(s2 == (s1.0, s2.1, s1.2, s1.3));
        }
        let mut best_error: Option<Int> = None;
        let mut i: usize = 0;
        while i < n
            invariant
                base == old(progress).reports(),
                progress.reports() == base + emitted,
                pslq_reports(x, *config) == emitted + pslq_iterate_reports(
                    current,
                    n as nat,
                    p,
                    gamma@,
                    tolerance@,
                    max_coefficient as int,
                    iteration as nat,
                    config.max_iterations as nat,
                ),
                s3.0.len() == n,
                i > 0 ==> (best_error matches Some(best) && best@ == min_abs(s3.0.take(i as int))),
                i == 0 ==> best_error is None,
                state_ok(n as nat, p, y0, y@, h@, a@, b@),
                s3 == state_of(y@, h@, a@, b@),
                n == input@.len(),
                p == precision as nat,
                precision == config.precision_bits,
                precision >= 53,
                config.target_bits < precision,
                x == int_values(input@),
                y0 == normalized_input(x, p),
                tolerance@ == pow2((precision - config.target_bits) as nat),
                max_coefficient as int == abs(config.max_coefficient as int),
                iteration < config.max_iterations,
                n >= 2,
                i <= n,
                forall|k: int| 0 <= k < n ==> (#[trigger] input@[k])@ != 0,
                pslq_outcome(x, *config) == (match outcome {
                    None => None,
                    Some((c, iterations, error)) => Some((c, iterations, residual_bits_of(error, config.precision_bits))),
                }),
                outcome == pslq_iterate(
                    current,
                    n as nat,
                    p,
                    gamma@,
                    tolerance@,
                    max_coefficient as int,
                    iteration as nat,
                    config.max_iterations as nat,
                ),
                pslq_last_report(x, *config) == pslq_iterate_last(
                    current,
                    n as nat,
                    p,
                    gamma@,
                    tolerance@,
                    max_coefficient as int,
                    iteration as nat,
                    config.max_iterations as nat,
                    last_report as nat,
                ),
                m == pivot_from(current.1, gamma@, p, 0, (n - 1) as nat, 0, -1),
                s1 == exchange_state(current, m as int),
                (if m as nat <= rotation_bound(n as nat) {
                    rotate_h(s1.1, m as int, p)
                } else {
                    Some(s1.1)
                }) == Some(s2.1),
                s2 == (s1.0, s2.1, s1.2, s1.3),
                s3 == reduce_rows_state(s2, m as int + 1, n as int, m as int + 2, p),
                found_from(s3, 0, n as nat, p, tolerance@, max_coefficient as int) == found_from(
                    s3,
                    i as nat,
                    n as nat,
                    p,
                    tolerance@,
                    max_coefficient as int,
                ),
            decreases n - i,
        {
            let error = y[i].absolute();
            assert(error@ == abs(s3.0[i as int]));
            let replace = match &best_error {
                Some(best) => Int::less_than(&error, best),
                None => true,
            };
            if replace {
                best_error = Some(error.clone());
            }
            proof {
                assert(s3.0.take(i + 1).drop_last() =~= s3.0.take(i as int));
                assert(s3.0.take(i + 1).last() == s3.0[i as int]);
                if i == 0 {
                    assert(s3.0.take(1)[0] == s3.0[0]);
                    assert(min_abs(s3.0.take(1)) == abs(s3.0[0]));
                } else {
                    let before = min_abs(s3.0.take(i as int));
                    assert(min_abs(s3.0.take(i + 1)) == (if abs(s3.0[i as int]) < before {
                        abs(s3.0[i as int])
                    } else {
                        before
                    }));
                }
                assert(best_error matches Some(best) && best@ == min_abs(s3.0.take(i + 1)));
            }
            if Int::less_than(&error, &tolerance) {
                if let Some(coefficients) = extract_column(&b, i, n, precision) {
                    let mut largest: u64 = 0;
                    let mut j: usize = 0;
                    assert(coefficients@.take(0) =~= Seq::<i64>::empty());
                    while j < n
                        invariant
                            coefficients@.len() == n,
                            j <= n,
                            forall|q: int| 0 <= q < j ==> abs(#[trigger] coefficients@[q] as int) <= largest,
                            largest == 0 || exists|q: int| 0 <= q < j && abs(#[trigger] coefficients@[q] as int) == largest,
                            largest as int == max_magnitude(coefficients@.take(j as int)),
                        decreases n - j,
                    {
                        let size = unsigned_abs(coefficients[j]);
                        assert(coefficients@.take(j + 1).drop_last() =~= coefficients@.take(j as int));
                        if size > largest {
                            largest = size;
                        }
                        j += 1;
                    }
                    assert(coefficients@.take(n as int) =~= coefficients@);
                    if largest <= max_coefficient && largest > 0 {
                        let bits = residual_bits(&error, precision);
                        progress.report(iteration + 1, bits);
                        let ghost c = i64_values(coefficients@);
                        proof {
                            assert forall|q: int| 0 <= q < n implies #[trigger] entry(b@, q, i as int) == c[q] * pow2(p) by {
                                assert(entry(b@, q, i as int) == (coefficients@[q] as int) * pow2(p));
                            }
                            lemma_column_scaled(y0, b@, i as int, c, p, n as nat);
                            assert(y@[i as int]@ * pow2(p) == column_dot(y0, b@, i as int, n as nat));
                            lemma_pow2_pos(p);
                            assert(y@[i as int]@ == dot_upto(c, y0, n as nat)) by (nonlinear_arith)
                                requires
                                    y@[i as int]@ * pow2(p) == dot_upto(c, y0, n as nat) * pow2(p),
                                    pow2(p) > 0,
                            ;
                            let q = choose|q: int| 0 <= q < n && abs(coefficients@[q] as int) == largest;
                            assert(c[q] != 0);
                            assert forall|q: int| 0 <= q < c.len() implies abs(#[trigger] c[q]) <= abs(config.max_coefficient as int) by {
                                assert(abs(coefficients@[q] as int) <= largest);
                            }
                            let residual = dot(c, normalized_input(x, p));
                            assert(residual == y@[i as int]@);
                            assert(error@ == abs(residual));
                            assert(bits == residual_bits_of(residual, precision));
                            assert(abs(residual) < pow2((precision - config.target_bits) as nat));
                            assert(c.len() == n);
                            assert(found_from(s3, i as nat, n as nat, p, tolerance@, max_coefficient as int) == Some(
                                (coefficients@, error@),
                            ));
                            assert(residual_bits_of(error@, precision) == bits) by {
                                assert(residual_bits_of(abs(residual), precision) == residual_bits_of(residual, precision));
                            }
                            assert(is_found_relation(
                                x,
                                *config,
                                PslqRelation { coefficients, iterations: (iteration + 1) as usize, residual_bits: bits },
                            )) by {
                                let found = PslqRelation { coefficients, iterations: (iteration + 1) as usize, residual_bits: bits };
                                assert(i64_values(found.coefficients@) == c);
                                assert(c[q] != 0);
                                assert(found.residual_bits == residual_bits_of(residual, config.precision_bits));
                            }
                        }
                        proof {
                            assert(pslq_iterate_reports(
                                current,
                                n as nat,
                                p,
                                gamma@,
                                tolerance@,
                                max_coefficient as int,
                                iteration as nat,
                                config.max_iterations as nat,
                            ) == seq![((iteration + 1) as usize, bits)]) by {}
                            assert(base + emitted.push(((iteration + 1) as usize, bits)) =~= base + (emitted
                                + seq![((iteration + 1) as usize, bits)])) by {}
                        }
                        return (Some(PslqRelation {
                            coefficients,
                            iterations: iteration + 1,
                            residual_bits: bits,
                        }), iteration + 1);
                    }
                }
            }
            i += 1;
        }
        proof {
            assert(s3.0.take(n as int) =~= s3.0);
            assert(found_from(s3, 0, n as nat, p, tolerance@, max_coefficient as int) is None);
        }
        if (iteration + 1) % 25 == 0 {
            let bits = match &best_error {
                Some(error) => residual_bits(error, precision),
                None => 0,
            };
            progress.report(iteration + 1, bits);
            proof {
                assert(bits == residual_bits_of(min_abs(s3.0), p as usize));
                assert(emitted + pslq_iterate_reports(
                    current,
                    n as nat,
                    p,
                    gamma@,
                    tolerance@,
                    max_coefficient as int,
                    iteration as nat,
                    config.max_iterations as nat,
                ) =~= emitted.push(((iteration + 1) as usize, bits)) + pslq_iterate_reports(
                    s3,
                    n as nat,
                    p,
                    gamma@,
                    tolerance@,
                    max_coefficient as int,
                    (iteration + 1) as nat,
                    config.max_iterations as nat,
                ));
                emitted = emitted.push(((iteration + 1) as usize, bits));
                assert(progress.reports() =~= base + emitted);
            }
            last_report = iteration + 1;
        }
        iteration += 1;
    }
    (None, last_report)
}

/// Finds one relation and periodically reports `(iteration, residual_bits)`.
pub fn find_relation_with_progress<P: RelationProgress>(
    input: &[Int],
    config: &PslqConfig,
    progress: &mut ReportLog<P>,
) -> (r: Option<PslqRelation>)
    requires
        !no_relation_search(int_values(input@), *config) ==> config.precision_bits * input@.len()
            <= usize::MAX,
    ensures
        (input@.len() < 2 || config.precision_bits < 53 || config.target_bits
            >= config.precision_bits || exists|k: int| 0 <= k < input@.len() && (#[trigger] input@[k])@ == 0)
            ==> r is None,
        r matches Some(rel) ==> is_found_relation(int_values(input@), *config, rel),
        no_relation_search(int_values(input@), *config) ==> *final(progress) == *old(progress),
        final(progress).reports() == old(progress).reports() + pslq_reports(int_values(input@), *config),
        match r {
            Some(rel) => pslq_outcome(int_values(input@), *config) == Some(
                (rel.coefficients@, rel.iterations as nat, rel.residual_bits),
            ),
            None => pslq_outcome(int_values(input@), *config) is None,
        },
{
    run_relation_search(input, config, progress).0
}

} // verus!
