//! Deflating PSLQ search for Machin-type formulas `pi/4 = sum c_j arctan(1/d_j)`.
use crate::bignum::{bit_length, Int};
use crate::formula::{
    divided_relation, exact_pi_over_four, fixed_arctan, fixed_arctan_reciprocal, formula_coefficients_fit,
    formula_from_coefficients, is_exact_formula, lemma_divided_nonzero, lemma_normalization_fits,
    leading_sign, normalize_relation, normalized_relation, relation_formula, relation_formula_fits,
    relation_to_formula, Term,
};
use crate::parse::{decimal_text, fixed_text, number_text};
use crate::pslq::{
    i64_values, int_values, pslq_last_report, pslq_outcome, run_relation_search, PslqConfig,
    RelationProgress, ReportLog,
};
use vstd::arithmetic::power::pow;
use vstd::arithmetic::power2::pow2;
use vstd::prelude::*;
use vstd::string::StringExecFns;

verus! {

#[derive(Clone, Debug)]
pub struct DeflationStep {
    pub relation: Vec<i64>,
    pub removed_denominator: u64,
    pub reason: &'static str,
}

#[derive(Clone, Debug)]
pub struct FormulaMatch {
    pub stage: usize,
    pub relation: Vec<i64>,
    pub formula: Vec<Term>,
    pub iterations: usize,
    pub residual_bits: usize,
}

#[derive(Debug)]
pub struct SearchProgress {
    pub phase: &'static str,
    pub stage: usize,
    pub iteration: usize,
    pub max_iterations: usize,
    pub residual_bits: usize,
    pub active_dimensions: usize,
    pub removed_denominator: Option<u64>,
    pub formulas_found: usize,
    pub formula: Option<Vec<Term>>,
    pub message: String,
}

#[derive(Debug)]
pub struct SearchResult {
    pub denominators: Vec<u64>,
    pub active_denominators: Vec<u64>,
    pub relation: Option<Vec<i64>>,
    pub formula: Option<Vec<Term>>,
    pub exact: bool,
    pub precision_digits: usize,
    pub iterations: usize,
    pub residual_bits: usize,
    pub deflations: Vec<DeflationStep>,
    pub formulas: Vec<FormulaMatch>,
    pub note: String,
}

/// Receives the progress events of a search.
pub trait SearchProgressSink {
    fn report(&mut self, event: SearchProgress);
}

impl<'a, S: SearchProgressSink> SearchProgressSink for &'a mut S {
    fn report(&mut self, event: SearchProgress) {
        (**self).report(event);
    }
}

/// Bits of precision a search with `digits` decimal digits aims for: the bit
/// length of `10^digits`, which is `ceil(digits * log2(10))`.
pub open spec fn target_bits_for(digits: nat) -> nat {
    bit_length(pow(10, digits) as nat)
}

/// The working precision: the target plus 64 guard bits.
pub open spec fn precision_bits_for(digits: nat) -> nat {
    target_bits_for(digits) + 64
}

/// The inputs on which the search runs PSLQ (and does not return an input error).
pub open spec fn valid_search_input(precision_digits: usize, max_coefficient: i64, max_iterations: usize) -> bool {
    20 <= precision_digits <= 2000 && max_coefficient > 0 && max_iterations > 0
}

/// The PSLQ settings of a search: the working precision, the target, and the
/// two limits.
pub open spec fn search_config(digits: nat, max_coefficient: i64, max_iterations: usize) -> PslqConfig {
    PslqConfig {
        precision_bits: precision_bits_for(digits) as usize,
        target_bits: target_bits_for(digits) as usize,
        max_coefficient,
        max_iterations,
    }
}

/// `pi/4` and `arctan(1/d)` for the active denominators, in fixed point at
/// scale `2^p`.
pub open spec fn stage_values(active: Seq<u64>, p: nat) -> Seq<int> {
    seq![4 * fixed_arctan(5, pow2(p) as int) - fixed_arctan(239, pow2(p) as int)] + active.map_values(
        |d: u64| fixed_arctan(d as int, pow2(p) as int),
    )
}

/// The normalized relation as `i64` entries.
pub open spec fn normalized_i64(c: Seq<i64>) -> Seq<i64> {
    normalized_relation(c).map_values(|v: int| v as i64)
}

/// The last position `j` in `1..k` with `r[j] != 0`, or -1.
pub open spec fn last_nonzero_from(r: Seq<i64>, k: int) -> int
    decreases k,
{
    if k <= 1 {
        -1
    } else if r[k - 1] != 0 {
        k - 1
    } else {
        last_nonzero_from(r, k - 1)
    }
}

/// A deflation step as plain values: relation, removed denominator, reason.
pub type DeflationView = (Seq<i64>, u64, Seq<char>);

/// A formula found as plain values: stage, relation, formula, iterations,
/// residual bits.
pub type FormulaView = (nat, Seq<i64>, Seq<Term>, nat, nat);

/// How a search ends: the active denominators, the deflations, the formulas,
/// the iterations, the residual bits, and the note.
pub type SearchRun = (Seq<u64>, Seq<DeflationView>, Seq<FormulaView>, nat, nat, Seq<char>);

pub open spec fn deflation_views(d: Seq<DeflationStep>) -> Seq<DeflationView> {
    d.map_values(|s: DeflationStep| (s.relation@, s.removed_denominator, s.reason@))
}

pub open spec fn formula_views(f: Seq<FormulaMatch>) -> Seq<FormulaView> {
    f.map_values(
        |m: FormulaMatch| (m.stage as nat, m.relation@, m.formula@, m.iterations as nat, m.residual_bits as nat),
    )
}

/// `a + b` saturated at `usize::MAX`.
pub open spec fn saturating_total(a: nat, b: nat) -> nat {
    if a + b > usize::MAX {
        usize::MAX as nat
    } else {
        a + b
    }
}

/// The note of a search whose last PSLQ run found no relation.
pub open spec fn exhausted_note(found: nat) -> Seq<char> {
    if found == 0 {
        "指定した範囲では整数関係が見つかりませんでした"@
    } else {
        decimal_text(found) + "件の公式を発見し、残りの基底では探索を終了しました"@
    }
}

/// The deflating search from the given stage on. Each stage runs PSLQ on
/// `pi/4` and the active arctangents; without a relation the search ends. A
/// relation is normalized; one without `pi/4` removes the denominator at its
/// last nonzero position; one with `pi/4` is solved for `pi/4`, and the
/// formula, when it is exact, is kept and the same position removed;
/// otherwise the search ends with a note saying why. The search ends too when
/// no denominator is left.
pub open spec fn deflation_run(
    active: Seq<u64>,
    deflations: Seq<DeflationView>,
    formulas: Seq<FormulaView>,
    stage: nat,
    total: nat,
    digits: nat,
    max_coefficient: i64,
    max_iterations: usize,
) -> SearchRun
    decreases active.len(),
{
    let config = search_config(digits, max_coefficient, max_iterations);
    let x = stage_values(active, config.precision_bits as nat);
    let total1 = saturating_total(total, pslq_last_report(x, config));
    match pslq_outcome(x, config) {
        None => (active, deflations, formulas, total1, 0, exhausted_note(formulas.len())),
        Some((c, iterations, bits)) => {
            let relation = normalized_i64(c);
            let last = last_nonzero_from(relation, relation.len() as int);
            let position = last - 1;
            if relation[0] == 0 {
                let removed = active[position];
                let rest = active.remove(position);
                let steps = deflations.push((relation, removed, "target_free_relation"@));
                if !(0 <= position < active.len()) || rest.len() == 0 {
                    (
                        rest,
                        steps,
                        formulas,
                        total1,
                        bits as nat,
                        "デフレーションによって基底が尽きるまでに"@ + decimal_text(formulas.len())
                            + "件の公式を発見しました"@,
                    )
                } else {
                    deflation_run(rest, steps, formulas, stage + 1, total1, digits, max_coefficient, max_iterations)
                }
            } else {
                match relation_formula(relation, active) {
                    None => (
                        active,
                        deflations,
                        formulas,
                        total1,
                        bits as nat,
                        "π/4について解いた関係の係数が整数になりませんでした"@,
                    ),
                    Some(f) => if !is_exact_formula(f) {
                        (active, deflations, formulas, total1, bits as nat, "数値的な関係がガウス整数による厳密検証に失敗しました"@)
                    } else {
                        let found = formulas.push((stage + 1, relation, f, iterations, bits as nat));
                        let removed = active[position];
                        let rest = active.remove(position);
                        let steps = deflations.push((relation, removed, "found_formula"@));
                        if !(0 <= position < active.len()) || rest.len() == 0 {
                            (
                                rest,
                                steps,
                                found,
                                total1,
                                bits as nat,
                                "基底が尽きるまでに"@ + decimal_text(found.len()) + "件の公式を発見しました"@,
                            )
                        } else {
                            deflation_run(rest, steps, found, stage + 1, total1, digits, max_coefficient, max_iterations)
                        }
                    },
                }
            }
        },
    }
}

/// The result is the one the deflating search spells out.
pub open spec fn search_run_matches(result: SearchResult, run: SearchRun) -> bool {
    &&& result.active_denominators@ == run.0
    &&& deflation_views(result.deflations@) == run.1
    &&& formula_views(result.formulas@) == run.2
    &&& result.iterations as nat == run.3
    &&& result.residual_bits as nat == run.4
    &&& result.note@ == run.5
}

/// The denominators that the deflations removed, in order.
pub open spec fn removed_denominators(d: Seq<DeflationStep>) -> Seq<u64> {
    d.map_values(|s: DeflationStep| s.removed_denominator)
}

/// Every entry of the relation is at most `m` in magnitude.
pub open spec fn relation_bounded(r: Seq<i64>, m: i64) -> bool {
    forall|j: int| 0 <= j < r.len() ==> crate::bignum::abs(#[trigger] r[j] as int) <= m
}

/// Every formula is exact, built from the searched denominators, found
/// within the iteration limit, with a relation within the coefficient limit
/// whose first entry is positive.
#[verifier::opaque]
pub open spec fn formulas_ok(denominators: Seq<u64>, max_coefficient: i64, max_iterations: usize, f: Seq<FormulaMatch>) -> bool {
    &&& forall|i: int| 0 <= i < f.len() ==> is_exact_formula(#[trigger] f[i].formula@)
    &&& forall|i: int, j: int|
        0 <= i < f.len() && 0 <= j < f[i].formula@.len() ==> denominators.contains(
            #[trigger] f[i].formula@[j].denominator,
        )
    &&& forall|i: int|
        0 <= i < f.len() ==> 1 <= (#[trigger] f[i]).iterations <= max_iterations && f[i].relation@.len()
            >= 1 && f[i].relation@[0] > 0 && relation_bounded(f[i].relation@, max_coefficient)
}

/// Every deflation removed a searched denominator, for one of the two
/// reasons, after a relation within the coefficient limit.
#[verifier::opaque]
pub open spec fn deflations_ok(denominators: Seq<u64>, max_coefficient: i64, d: Seq<DeflationStep>) -> bool {
    forall|i: int|
        0 <= i < d.len() ==> denominators.contains((#[trigger] d[i]).removed_denominator) && (d[i].reason@
            == "target_free_relation"@ || d[i].reason@ == "found_formula"@) && relation_bounded(
            d[i].relation@,
            max_coefficient,
        )
}

/// The removed denominators and the active ones are the searched ones,
/// rearranged.
pub open spec fn denominators_kept(denominators: Seq<u64>, d: Seq<DeflationStep>, active: Seq<u64>) -> bool {
    &&& d.len() + active.len() == denominators.len()
    &&& (removed_denominators(d) + active).to_multiset() == denominators.to_multiset()
}

/// The summary fields agree with the list of formulas, every formula and
/// deflation is as `formulas_ok` and `deflations_ok` say, and no denominator
/// is lost or added.
pub open spec fn search_result_ok(
    denominators: Seq<u64>,
    precision_digits: usize,
    max_coefficient: i64,
    max_iterations: usize,
    result: SearchResult,
) -> bool {
    &&& result.denominators@ == denominators
    &&& result.precision_digits == precision_digits
    &&& result.exact == (result.formulas@.len() > 0)
    &&& result.formulas@.len() > 0 ==> (result.relation matches Some(r) && r@
        == result.formulas@[0].relation@) && (result.formula matches Some(f) && f@
        == result.formulas@[0].formula@)
    &&& result.formulas@.len() == 0 ==> result.relation is None && result.formula is None
    &&& formulas_ok(denominators, max_coefficient, max_iterations, result.formulas@)
    &&& deflations_ok(denominators, max_coefficient, result.deflations@)
    &&& denominators_kept(denominators, result.deflations@, result.active_denominators@)
}

proof fn lemma_deflations_push(denominators: Seq<u64>, max_coefficient: i64, d: Seq<DeflationStep>, s: DeflationStep)
    requires
        deflations_ok(denominators, max_coefficient, d),
        denominators.contains(s.removed_denominator),
        s.reason@ == "target_free_relation"@ || s.reason@ == "found_formula"@,
        relation_bounded(s.relation@, max_coefficient),
    ensures
        deflations_ok(denominators, max_coefficient, d.push(s)),
{
    reveal(deflations_ok);
    assert forall|i: int| 0 <= i < d.len() implies d.push(s)[i] == d[i] by {}
    assert(d.push(s)[d.len() as int] == s);
}

proof fn lemma_formulas_push(
    denominators: Seq<u64>,
    max_coefficient: i64,
    max_iterations: usize,
    f: Seq<FormulaMatch>,
    m: FormulaMatch,
)
    requires
        formulas_ok(denominators, max_coefficient, max_iterations, f),
        is_exact_formula(m.formula@),
        forall|j: int| 0 <= j < m.formula@.len() ==> denominators.contains(#[trigger] m.formula@[j].denominator),
        1 <= m.iterations <= max_iterations,
        m.relation@.len() >= 1 && m.relation@[0] > 0,
        relation_bounded(m.relation@, max_coefficient),
    ensures
        formulas_ok(denominators, max_coefficient, max_iterations, f.push(m)),
{
    reveal(formulas_ok);
    let g = f.push(m);
    assert forall|i: int| 0 <= i < f.len() implies g[i] == f[i] by {}
    assert(g[f.len() as int] == m);
    assert forall|i: int, j: int|
        0 <= i < g.len() && 0 <= j < g[i].formula@.len() implies denominators.contains(
            #[trigger] g[i].formula@[j].denominator,
        ) by {
        if i < f.len() {
            assert(g[i] == f[i]);
        }
    }
}

proof fn lemma_kept_after_removal(denominators: Seq<u64>, d: Seq<DeflationStep>, active: Seq<u64>, s: DeflationStep, i: int)
    requires
        denominators_kept(denominators, d, active),
        0 <= i < active.len(),
        s.removed_denominator == active[i],
    ensures
        denominators_kept(denominators, d.push(s), active.remove(i)),
        denominators.contains(active[i]),
{
    broadcast use vstd::seq_lib::group_to_multiset_ensures;

    lemma_deflation_push(d, s);
    lemma_removal_permutes(removed_denominators(d), active, i);
    assert((removed_denominators(d) + active)[d.len() + i] == active[i]);
    assert((removed_denominators(d) + active).contains(active[i]));
    assert(denominators.to_multiset().count(active[i]) > 0);
}

/// Forwards PSLQ progress of one stage as `SearchProgress` events.
pub struct StageReporter<P> {
    sink: P,
    stage: usize,
    max_iterations: usize,
    active_dimensions: usize,
    formulas_found: usize,
    last_iteration: usize,
}

impl<P> StageReporter<P> {
    /// The iteration of the last report.
    pub closed spec fn recorded_iteration(&self) -> usize {
        self.last_iteration
    }

    /// The stage, iteration limit, dimension and formula count that each
    /// report carries.
    pub closed spec fn context(&self) -> (usize, usize, usize, usize) {
        (self.stage, self.max_iterations, self.active_dimensions, self.formulas_found)
    }
}

impl<P: SearchProgressSink> RelationProgress for StageReporter<P> {
    /// Records the iteration and forwards the event to the sink.
    fn report(&mut self, iteration: usize, residual_bits: usize)
        ensures
            final(self).recorded_iteration() == iteration,
            final(self).context() == old(self).context(),
    {
        self.last_iteration = iteration;
        let mut message = number_text("段階", self.stage as u64, ": PSLQ反復 ");
        crate::parse::append_decimal(&mut message, iteration as u64);
        message.append("/");
        crate::parse::append_decimal(&mut message, self.max_iterations as u64);
        self.sink.report(
            SearchProgress {
                phase: "pslq",
                stage: self.stage,
                iteration,
                max_iterations: self.max_iterations,
                residual_bits,
                active_dimensions: self.active_dimensions,
                removed_denominator: None,
                formulas_found: self.formulas_found,
                formula: None,
                message,
            },
        );
    }
}

fn copy_relation(v: &Vec<i64>) -> (r: Vec<i64>)
    ensures
        r@ == v@,
{
    let r = v.clone();
    assert(r@ =~= v@);
    r
}

fn copy_terms(v: &Vec<Term>) -> (r: Vec<Term>)
    ensures
        r@ == v@,
{
    let r = v.clone();
    assert(r@ =~= v@);
    r
}

fn copy_denominators(v: &Vec<u64>) -> (r: Vec<u64>)
    ensures
        r@ == v@,
{
    let r = v.clone();
    assert(r@ =~= v@);
    r
}

fn result(
    denominators: Vec<u64>,
    active_denominators: Vec<u64>,
    precision_digits: usize,
    iterations: usize,
    residual_bits: usize,
    deflations: Vec<DeflationStep>,
    formulas: Vec<FormulaMatch>,
    note: String,
) -> (r: SearchResult)
    ensures
        r.denominators == denominators,
        r.active_denominators == active_denominators,
        r.precision_digits == precision_digits,
        r.iterations == iterations,
        r.residual_bits == residual_bits,
        r.deflations == deflations,
        r.formulas == formulas,
        r.note == note,
        r.exact == (formulas@.len() > 0),
        formulas@.len() > 0 ==> (r.relation matches Some(x) && x@ == formulas@[0].relation@) && (
        r.formula matches Some(f) && f@ == formulas@[0].formula@),
        formulas@.len() == 0 ==> r.relation is None && r.formula is None,
{
    let relation = if formulas.len() > 0 {
        Some(copy_relation(&formulas[0].relation))
    } else {
        None
    };
    let formula = if formulas.len() > 0 {
        Some(copy_terms(&formulas[0].formula))
    } else {
        None
    };
    SearchResult {
        relation,
        formula,
        exact: formulas.len() > 0,
        denominators,
        active_denominators,
        precision_digits,
        iterations,
        residual_bits,
        deflations,
        formulas,
        note,
    }
}

/// `10^digits`.
pub(crate) fn power_of_ten(digits: usize) -> (r: Int)
    ensures
        r@ == pow(10, digits as nat),
{
    let ten = Int::from_u64(10);
    let mut value = Int::from_u64(1);
    let mut k: usize = 0;
    proof {
        vstd::arithmetic::power::lemma_pow0(10);
    }
    while k < digits
        invariant
            k <= digits,
            ten@ == 10,
            value@ == pow(10, k as nat),
        decreases digits - k,
    {
        value = Int::times(&value, &ten);
        proof {
            vstd::arithmetic::power::lemma_pow_adds(10, k as nat, 1);
            vstd::arithmetic::power::lemma_pow1(10);
        }
        k += 1;
    }
    value
}

/// The last nonzero position of `relation[1..]`, as an index into it.
fn last_nonzero_tail(relation: &Vec<i64>) -> (r: Option<usize>)
    requires
        relation@.len() >= 1,
    ensures
        r matches Some(k) ==> k + 1 < relation@.len() && relation@[k + 1] != 0 && k + 1
            == last_nonzero_from(relation@, relation@.len() as int),
        r is None ==> forall|j: int| 1 <= j < relation@.len() ==> relation@[j] == 0,
        r is None ==> last_nonzero_from(relation@, relation@.len() as int) == -1,
{
    let mut k = relation.len();
    while k > 1
        invariant
            1 <= k <= relation@.len(),
            forall|j: int| k <= j < relation@.len() ==> relation@[j] == 0,
            last_nonzero_from(relation@, relation@.len() as int) == last_nonzero_from(relation@, k as int),
        decreases k,
    {
        k -= 1;
        if relation[k] != 0 {
            return Some(k - 1);
        }
    }
    None
}

proof fn lemma_formula_of_zeros(coefficients: Seq<i64>, denominators: Seq<u64>, target: i64)
    requires
        forall|j: int| 0 <= j < coefficients.len() ==> coefficients[j] == 0,
    ensures
        formula_from_coefficients(coefficients, denominators, target) == Some(Seq::<Term>::empty()),
    decreases coefficients.len(),
{
    if coefficients.len() > 0 && denominators.len() > 0 {
        lemma_formula_of_zeros(coefficients.drop_first(), denominators.drop_first(), target);
    }
}

proof fn lemma_formula_denominators(coefficients: Seq<i64>, denominators: Seq<u64>, target: i64, terms: Seq<Term>)
    requires
        formula_from_coefficients(coefficients, denominators, target) == Some(terms),
    ensures
        forall|j: int| 0 <= j < terms.len() ==> denominators.contains(#[trigger] terms[j].denominator),
    decreases coefficients.len(),
{
    if coefficients.len() > 0 && denominators.len() > 0 {
        let rest = formula_from_coefficients(coefficients.drop_first(), denominators.drop_first(), target);
        if let Some(tail) = rest {
            lemma_formula_denominators(coefficients.drop_first(), denominators.drop_first(), target, tail);
            assert forall|j: int| 0 <= j < terms.len() implies denominators.contains(#[trigger] terms[j].denominator) by {
                if coefficients[0] != 0 {
                    if j == 0 {
                        assert(denominators[0] == terms[0].denominator);
                    } else {
                        assert(terms[j] == tail[j - 1]);
                        assert(denominators.drop_first().contains(tail[j - 1].denominator));
                        let k = choose|k: int| 0 <= k < denominators.drop_first().len() && denominators.drop_first()[k] == tail[j - 1].denominator;
                        assert(denominators[k + 1] == tail[j - 1].denominator);
                    }
                } else {
                    assert(terms[j] == tail[j]);
                    let k = choose|k: int| 0 <= k < denominators.drop_first().len() && denominators.drop_first()[k] == tail[j].denominator;
                    assert(denominators[k + 1] == tail[j].denominator);
                }
            }
        }
    }
}

proof fn lemma_empty_formula_not_exact()
    ensures
        !is_exact_formula(Seq::<Term>::empty()),
{
    assert(crate::formula::positive_product(Seq::<Term>::empty()) == (1int, 0int));
    assert(crate::formula::negative_product(Seq::<Term>::empty()) == (1int, 0int));
}

/// The run of the deflating search on the given denominators, from its
/// first stage.
pub open spec fn search_run(denominators: Seq<u64>, digits: nat, max_coefficient: i64, max_iterations: usize) -> SearchRun {
    deflation_run(denominators, Seq::empty(), Seq::empty(), 0, 0, digits, max_coefficient, max_iterations)
}

proof fn lemma_stage_values_remove(values: Seq<Int>, active: Seq<u64>, p: nat, i: int)
    requires
        int_values(values) == stage_values(active, p),
        0 <= i < active.len(),
    ensures
        int_values(values.remove(i + 1)) == stage_values(active.remove(i), p),
{
    let a = int_values(values);
    let b = stage_values(active, p);
    assert(a.len() == b.len());
    assert forall|j: int| 0 <= j < values.len() - 1 implies #[trigger] int_values(values.remove(i + 1))[j]
        == stage_values(active.remove(i), p)[j] by {
        assert(a[j] == b[j]);
        assert(a[j + 1] == b[j + 1]);
        if j >= 1 {
            if j - 1 < i {
                assert(active.remove(i)[j - 1] == active[j - 1]);
            } else {
                assert(active.remove(i)[j - 1] == active[j]);
            }
        }
    }
    assert(int_values(values.remove(i + 1)) =~= stage_values(active.remove(i), p));
}

proof fn lemma_removal_permutes(removed: Seq<u64>, active: Seq<u64>, i: int)
    requires
        0 <= i < active.len(),
    ensures
        (removed.push(active[i]) + active.remove(i)).to_multiset() == (removed + active).to_multiset(),
{
    broadcast use vstd::multiset::group_multiset_axioms;

    let a = active[i];
    vstd::seq_lib::lemma_multiset_commutative(removed.push(a), active.remove(i));
    vstd::seq_lib::lemma_multiset_commutative(removed, active);
    vstd::seq_lib::to_multiset_remove(active, i);
    vstd::seq_lib::to_multiset_build(removed, a);
    vstd::seq_lib::to_multiset_contains(active, a);
    assert(active.contains(a));
    assert((removed.push(a) + active.remove(i)).to_multiset() =~= (removed + active).to_multiset());
}

proof fn lemma_kept_contains(denominators: Seq<u64>, d: Seq<DeflationStep>, active: Seq<u64>, k: int)
    requires
        denominators_kept(denominators, d, active),
        0 <= k < active.len(),
    ensures
        denominators.contains(active[k]),
{
    broadcast use vstd::seq_lib::group_to_multiset_ensures;

    let all = removed_denominators(d) + active;
    assert(all[d.len() + k] == active[k]);
    assert(all.contains(active[k]));
    assert(denominators.to_multiset().count(active[k]) > 0);
}

proof fn lemma_deflation_push(d: Seq<DeflationStep>, s: DeflationStep)
    ensures
        deflation_views(d.push(s)) == deflation_views(d).push((s.relation@, s.removed_denominator, s.reason@)),
        removed_denominators(d.push(s)) == removed_denominators(d).push(s.removed_denominator),
{
    assert(deflation_views(d.push(s)) =~= deflation_views(d).push((s.relation@, s.removed_denominator, s.reason@)));
    assert(removed_denominators(d.push(s)) =~= removed_denominators(d).push(s.removed_denominator));
}

proof fn lemma_formula_push(f: Seq<FormulaMatch>, m: FormulaMatch)
    ensures
        formula_views(f.push(m)) == formula_views(f).push(
            (m.stage as nat, m.relation@, m.formula@, m.iterations as nat, m.residual_bits as nat),
        ),
{
    assert(formula_views(f.push(m)) =~= formula_views(f).push(
        (m.stage as nat, m.relation@, m.formula@, m.iterations as nat, m.residual_bits as nat),
    ));
}

/// Runs deflating PSLQ over `pi/4` and `arctan(1/d)` for the given
/// denominators: the result is the run that `search_run` spells out, and
/// every formula it lists is exact.
#[verifier::rlimit(100)]
#[verifier::spinoff_prover]
pub fn search<P: SearchProgressSink>(
    denominators: Vec<u64>,
    precision_digits: usize,
    max_coefficient: i64,
    max_iterations: usize,
    progress: &mut P,
) -> (r: Result<SearchResult, String>)
    requires
        valid_search_input(precision_digits, max_coefficient, max_iterations) ==> (forall|i: int|
            0 <= i < denominators@.len() ==> #[trigger] denominators@[i] > 0) && (denominators@.len()
            + 1) * precision_bits_for(precision_digits as nat) <= usize::MAX,
    ensures
        r is Err ==> *final(progress) == *old(progress),
        !(20 <= precision_digits <= 2000) ==> (r matches Err(e) && e@
            == "precision must be between 20 and 2000 digits"@),
        (20 <= precision_digits <= 2000) && (max_coefficient <= 0 || max_iterations == 0) ==> (
        r matches Err(e) && e@ == "coefficient and iteration limits must be positive"@),
        valid_search_input(precision_digits, max_coefficient, max_iterations) ==> (r matches Ok(
            result,
        ) && search_result_ok(denominators@, precision_digits, max_coefficient, max_iterations, result)
            && search_run_matches(
            result,
            search_run(denominators@, precision_digits as nat, max_coefficient, max_iterations),
        )),
{
    if precision_digits < 20 || precision_digits > 2000 {
        return Err(fixed_text("precision must be between 20 and 2000 digits"));
    }
    if max_coefficient <= 0 || max_iterations == 0 {
        return Err(fixed_text("coefficient and iteration limits must be positive"));
    }
    let ghost input = denominators@;
    let ghost digits = precision_digits as nat;
    let ghost goal = search_run(input, digits, max_coefficient, max_iterations);
    let mut active_denominators = copy_denominators(&denominators);
    let ten_power = power_of_ten(precision_digits);
    proof {
        assert(precision_bits_for(digits) <= usize::MAX) by (nonlinear_arith)
            requires
                (input.len() + 1) * precision_bits_for(digits) <= usize::MAX,
        ;
    }
    let bits = Int::bits(&ten_power);
    proof {
        vstd::arithmetic::power::lemma_pow_positive(10, digits);
        assert(bits as nat == target_bits_for(digits));
    }
    let target_bits = bits as usize;
    let precision_bits = target_bits + 64;
    assert(precision_bits == precision_bits_for(digits));
    let ghost p = precision_bits as nat;
    let scale = Int::shifted_left(&Int::from_u64(1), precision_bits);
    assert(scale@ == pow2(p) as int);
    let pi_over_four = Int::minus(
        &Int::times(&fixed_arctan_reciprocal(5, &scale), &Int::from_u64(4)),
        &fixed_arctan_reciprocal(239, &scale),
    );
    let mut values: Vec<Int> = Vec::new();
    values.push(pi_over_four);
    proof {
        assert(input.take(0) =~= Seq::<u64>::empty());
        assert(int_values(values@) =~= stage_values(input.take(0), p));
    }
    let mut k: usize = 0;
    while k < active_denominators.len()
        invariant
            active_denominators@ == input,
            forall|i: int| 0 <= i < input.len() ==> #[trigger] input[i] > 0,
            k <= input.len(),
            values@.len() == k + 1,
            scale@ == pow2(p) as int,
            int_values(values@) == stage_values(input.take(k as int), p),
        decreases input.len() - k,
    {
        let v = fixed_arctan_reciprocal(active_denominators[k], &scale);
        let ghost before = values@;
        values.push(v);
        proof {
            assert(input.take(k + 1) =~= input.take(k as int).push(input[k as int]));
            assert(int_values(values@) =~= stage_values(input.take(k + 1), p)) by {
                assert(int_values(before) == stage_values(input.take(k as int), p));
                assert forall|j: int| 0 <= j < values@.len() implies #[trigger] int_values(values@)[j]
                    == stage_values(input.take(k + 1), p)[j] by {
                    if j < before.len() {
                        assert(values@[j] == before[j]);
                        assert(int_values(before)[j] == stage_values(input.take(k as int), p)[j]);
                    }
                }
            }
        }
        k += 1;
    }
    proof {
        assert(input.take(input.len() as int) =~= input);
    }
    let config = PslqConfig { precision_bits, target_bits, max_coefficient, max_iterations };
    assert(config == search_config(digits, max_coefficient, max_iterations));
    let mut deflations: Vec<DeflationStep> = Vec::new();
    let mut formulas: Vec<FormulaMatch> = Vec::new();
    let mut total_iterations: usize = 0;
    let mut stage: usize = 0;
    proof {
        assert(input.len() + 1 <= usize::MAX) by (nonlinear_arith)
            requires
                (input.len() + 1) * config.precision_bits <= usize::MAX,
                config.precision_bits >= 1,
        ;
        assert(removed_denominators(deflations@) + active_denominators@ =~= input);
        reveal(deflations_ok);
        reveal(formulas_ok);
        assert(deflation_views(deflations@) =~= Seq::<DeflationView>::empty());
        assert(formula_views(formulas@) =~= Seq::<FormulaView>::empty());
    }
    let mut reporter = ReportLog::new(
        StageReporter {
            sink: progress,
            stage: 0,
            max_iterations,
            active_dimensions: 0,
            formulas_found: 0,
            last_iteration: 0,
        },
    );
    loop
        invariant
            input == denominators@,
            valid_search_input(precision_digits, max_coefficient, max_iterations),
            input.len() + 1 <= usize::MAX,
            values@.len() == active_denominators@.len() + 1,
            deflations@.len() + active_denominators@.len() == input.len(),
            stage + active_denominators@.len() == input.len(),
            (input.len() + 1) * config.precision_bits <= usize::MAX,
            config.precision_bits >= 53,
            config.target_bits < config.precision_bits,
            config == search_config(digits, max_coefficient, max_iterations),
            digits == precision_digits as nat,
            goal == search_run(input, digits, max_coefficient, max_iterations),
            p == config.precision_bits as nat,
            int_values(values@) == stage_values(active_denominators@, p),
            deflation_run(
                active_denominators@,
                deflation_views(deflations@),
                formula_views(formulas@),
                stage as nat,
                total_iterations as nat,
                digits,
                max_coefficient,
                max_iterations,
            ) == goal,
            denominators_kept(input, deflations@, active_denominators@),
            max_coefficient > 0,
            deflations_ok(input, max_coefficient, deflations@),
            formulas_ok(input, max_coefficient, max_iterations, formulas@),
        decreases active_denominators@.len(),
    {
        let ghost prior = stage as nat;
        let ghost views = (deflation_views(deflations@), formula_views(formulas@));
        stage += 1;
        reporter.sink.stage = stage;
        reporter.sink.active_dimensions = values.len();
        reporter.sink.formulas_found = formulas.len();
        reporter.sink.last_iteration = 0;
        let mut message = number_text("段階", stage as u64, ": ");
        crate::parse::append_decimal(&mut message, values.len() as u64);
        message.append("次元のPSLQを開始");
        reporter.sink.sink.report(
            SearchProgress {
                phase: "pslq",
                stage,
                iteration: 0,
                max_iterations,
                residual_bits: 0,
                active_dimensions: values.len(),
                removed_denominator: None,
                formulas_found: formulas.len(),
                formula: None,
                message,
            },
        );
        proof {
            assert(config.precision_bits * values@.len() <= (input.len() + 1) * config.precision_bits) by (nonlinear_arith)
                requires
                    values@.len() <= input.len() + 1,
            ;
        }
        let ghost x = int_values(values@);
        let ghost total_before = total_iterations as nat;
        assert(goal == deflation_run(
            active_denominators@,
            views.0,
            views.1,
            prior,
            total_before,
            digits,
            max_coefficient,
            max_iterations,
        ));
        let (found, stage_iterations) = run_relation_search(values.as_slice(), &config, &mut reporter);
        total_iterations = total_iterations.saturating_add(stage_iterations);
        assert(total_iterations as nat == saturating_total(total_before, pslq_last_report(x, config)));
        let found = match found {
            Some(found) => found,
            None => {
                let note = if formulas.len() == 0 {
                    fixed_text("指定した範囲では整数関係が見つかりませんでした")
                } else {
                    number_text("", formulas.len() as u64, "件の公式を発見し、残りの基底では探索を終了しました")
                };
                proof {
                    reveal_strlit("");
                    assert(""@ + decimal_text(formulas@.len()) =~= decimal_text(formulas@.len()));
                    assert(note@ == exhausted_note(formulas@.len()));
                    assert(pslq_outcome(x, config) is None);
                    assert(goal == (
                        active_denominators@,
                        views.0,
                        views.1,
                        total_iterations as nat,
                        0nat,
                        note@,
                    ));
                }
                reporter.sink.sink.report(
                    SearchProgress {
                        phase: "complete",
                        stage,
                        iteration: stage_iterations,
                        max_iterations,
                        residual_bits: 0,
                        active_dimensions: values.len(),
                        removed_denominator: None,
                        formulas_found: formulas.len(),
                        formula: None,
                        message: fixed_text(note.as_str()),
                    },
                );
                return Ok(
                    result(
                        denominators,
                        active_denominators,
                        precision_digits,
                        total_iterations,
                        0,
                        deflations,
                        formulas,
                        note,
                    ),
                );
            },
        };
        let ghost coefficients = found.coefficients@;
        proof {
            assert forall|i: int| 0 <= i < coefficients.len() implies #[trigger] coefficients[i] > i64::MIN by {
                assert(crate::bignum::abs(i64_values(coefficients)[i]) <= crate::bignum::abs(max_coefficient as int));
            }
            lemma_normalization_fits(coefficients);
            let j = choose|j: int| 0 <= j < i64_values(coefficients).len() && i64_values(coefficients)[j] != 0;
            lemma_divided_nonzero(coefficients, j);
        }
        let relation = normalize_relation(found.coefficients);
        proof {
            let j = choose|j: int| 0 <= j < i64_values(coefficients).len() && i64_values(coefficients)[j] != 0;
            assert(relation@.map_values(|v: i64| v as int).len() == relation@.len());
            assert(relation@.len() == coefficients.len());
            assert(divided_relation(coefficients)[j] != 0);
            assert(normalized_relation(coefficients)[j] != 0);
            assert(relation@.map_values(|v: i64| v as int)[j] == normalized_relation(coefficients)[j]);
            assert(relation@[j] != 0);
            assert forall|i: int| 0 <= i < relation@.len() implies crate::bignum::abs(#[trigger] relation@[i] as int)
                <= max_coefficient by {
                assert(relation@.map_values(|v: i64| v as int)[i] == normalized_relation(coefficients)[i]);
                let d = crate::formula::relation_divisor(coefficients);
                let v = coefficients[i] as int;
                assert(crate::bignum::abs(i64_values(coefficients)[i]) <= crate::bignum::abs(max_coefficient as int));
                assert(crate::bignum::abs(v) <= crate::bignum::abs(max_coefficient as int));
                assert(crate::bignum::abs(v) / d <= crate::bignum::abs(v)) by (nonlinear_arith)
                    requires
                        d >= 1,
                        crate::bignum::abs(v) >= 0,
                ;
            }
            assert forall|i: int| 0 <= i < relation@.len() implies #[trigger] normalized_i64(coefficients)[i]
                == relation@[i] by {
                assert(relation@.map_values(|v: i64| v as int)[i] == normalized_relation(coefficients)[i]);
            }
            assert(relation@ =~= normalized_i64(coefficients));
        }
        let ghost old_active = active_denominators@;
        let ghost old_deflations = deflations@;
        assert(pslq_outcome(x, config) == Some((coefficients, found.iterations as nat, found.residual_bits)));
        if relation[0] == 0 {
            let remove_index = match last_nonzero_tail(&relation) {
                Some(index) => index,
                None => {
                    proof {
                        let j = choose|j: int| 0 <= j < i64_values(coefficients).len() && i64_values(coefficients)[j] != 0;
                        assert(relation@[j] != 0);
                    }
                    return Err(fixed_text("PSLQ returned an invalid zero relation"));
                },
            };
            let removed_denominator = active_denominators.remove(remove_index);
            proof {
                lemma_stage_values_remove(values@, old_active, p, remove_index as int);
            }
            values.remove(remove_index + 1);
            let step = DeflationStep { relation, removed_denominator, reason: "target_free_relation" };
            proof {
                lemma_deflation_push(old_deflations, step);
                lemma_kept_after_removal(input, old_deflations, old_active, step, remove_index as int);
                lemma_deflations_push(input, max_coefficient, old_deflations, step);
            }
            deflations.push(step);
            reporter.sink.sink.report(
                SearchProgress {
                    phase: "deflation",
                    stage,
                    iteration: found.iterations,
                    max_iterations,
                    residual_bits: found.residual_bits,
                    active_dimensions: values.len(),
                    removed_denominator: Some(removed_denominator),
                    formulas_found: formulas.len(),
                    formula: None,
                    message: number_text("πを含まない関係を除去: 分母 ", removed_denominator, " を基底から外します"),
                },
            );
            proof {
                assert(remove_index + 1 == last_nonzero_from(relation@, relation@.len() as int));
                assert(active_denominators@ == old_active.remove(remove_index as int));
                assert(deflation_views(deflations@) == views.0.push(
                    (relation@, removed_denominator, "target_free_relation"@),
                ));
            }
            if active_denominators.len() == 0 {
                let note = number_text("デフレーションによって基底が尽きるまでに", formulas.len() as u64, "件の公式を発見しました");
                proof {
                    assert(goal == (
                        active_denominators@,
                        deflation_views(deflations@),
                        views.1,
                        total_iterations as nat,
                        found.residual_bits as nat,
                        note@,
                    ));
                }
                return Ok(
                    result(
                        denominators,
                        active_denominators,
                        precision_digits,
                        total_iterations,
                        found.residual_bits,
                        deflations,
                        formulas,
                        note,
                    ),
                );
            }
            continue;
        }
        proof {
            lemma_formula_fits_without_min(relation@.drop_first(), active_denominators@, relation@[0]);
        }
        let formula = relation_to_formula(relation.as_slice(), active_denominators.as_slice());
        proof {
            assert(relation@[0] != 0);
            assert(deflation_views(deflations@) == views.0);
            assert(formula_views(formulas@) == views.1);
        }
        let formula = match formula {
            None => {
                proof {
                    assert(goal == (
                        active_denominators@,
                        views.0,
                        views.1,
                        total_iterations as nat,
                        found.residual_bits as nat,
                        "π/4について解いた関係の係数が整数になりませんでした"@,
                    ));
                }
                return Ok(
                    result(
                        denominators,
                        active_denominators,
                        precision_digits,
                        total_iterations,
                        found.residual_bits,
                        deflations,
                        formulas,
                        fixed_text("π/4について解いた関係の係数が整数になりませんでした"),
                    ),
                );
            },
            Some(formula) => formula,
        };
        if !exact_pi_over_four(formula.as_slice()) {
            proof {
                assert(goal == (
                    active_denominators@,
                    views.0,
                    views.1,
                    total_iterations as nat,
                    found.residual_bits as nat,
                    "数値的な関係がガウス整数による厳密検証に失敗しました"@,
                ));
            }
            return Ok(
                result(
                    denominators,
                    active_denominators,
                    precision_digits,
                    total_iterations,
                    found.residual_bits,
                    deflations,
                    formulas,
                    fixed_text("数値的な関係がガウス整数による厳密検証に失敗しました"),
                ),
            );
        }
        proof {
            lemma_formula_denominators(relation@.drop_first(), active_denominators@, relation@[0], formula@);
            assert forall|j: int| 0 <= j < formula@.len() implies input.contains(#[trigger] formula@[j].denominator) by {
                assert(active_denominators@.contains(formula@[j].denominator));
                let k = choose|k: int| 0 <= k < active_denominators@.len() && active_denominators@[k] == formula@[j].denominator;
                lemma_kept_contains(input, deflations@, active_denominators@, k);
            }
        }
        proof {
            let q = divided_relation(coefficients);
            assert(relation@.map_values(|v: i64| v as int)[0] == normalized_relation(coefficients)[0]);
            assert(q.len() > 0);
            if leading_sign(q) < 0 {
                assert(normalized_relation(coefficients)[0] == -q[0]);
            } else {
                assert(normalized_relation(coefficients)[0] == q[0]);
            }
            assert(relation@[0] > 0);
        }
        let ghost before = formulas@;
        let ghost formula_terms = formula@;
        let entry = FormulaMatch {
            stage,
            relation: copy_relation(&relation),
            formula: copy_terms(&formula),
            iterations: found.iterations,
            residual_bits: found.residual_bits,
        };
        proof {
            lemma_formula_push(before, entry);
            assert(relation_bounded(relation@, max_coefficient));
            lemma_formulas_push(input, max_coefficient, max_iterations, before, entry);
        }
        formulas.push(entry);
        reporter.sink.sink.report(
            SearchProgress {
                phase: "formula",
                stage,
                iteration: found.iterations,
                max_iterations,
                residual_bits: found.residual_bits,
                active_dimensions: values.len(),
                removed_denominator: None,
                formulas_found: formulas.len(),
                formula: Some(formula),
                message: number_text("", formulas.len() as u64, "件目の厳密な公式を発見しました"),
            },
        );
        let remove_index = match last_nonzero_tail(&relation) {
            Some(index) => index,
            None => {
                proof {
                    lemma_formula_of_zeros(relation@.drop_first(), old_active, relation@[0]);
                    lemma_empty_formula_not_exact();
                }
                return Err(fixed_text("PSLQ formula relation has no arctangent term"));
            },
        };
        let removed_denominator = active_denominators.remove(remove_index);
        proof {
            lemma_stage_values_remove(values@, old_active, p, remove_index as int);
        }
        values.remove(remove_index + 1);
        let step = DeflationStep { relation, removed_denominator, reason: "found_formula" };
        proof {
            lemma_deflation_push(old_deflations, step);
            lemma_kept_after_removal(input, old_deflations, old_active, step, remove_index as int);
            lemma_deflations_push(input, max_coefficient, old_deflations, step);
        }
        deflations.push(step);
        reporter.sink.sink.report(
            SearchProgress {
                phase: "deflation",
                stage,
                iteration: found.iterations,
                max_iterations,
                residual_bits: found.residual_bits,
                active_dimensions: values.len(),
                removed_denominator: Some(removed_denominator),
                formulas_found: formulas.len(),
                formula: None,
                message: number_text("次の公式を探すため、分母 ", removed_denominator, " を基底から外します"),
            },
        );
        proof {
            assert(remove_index + 1 == last_nonzero_from(relation@, relation@.len() as int));
            assert(active_denominators@ == old_active.remove(remove_index as int));
            assert(deflation_views(deflations@) == views.0.push((relation@, removed_denominator, "found_formula"@)));
            assert(formula_views(formulas@) == views.1.push(
                ((prior + 1) as nat, relation@, formula_terms, found.iterations as nat, found.residual_bits as nat),
            ));
        }
        if active_denominators.len() == 0 {
            let note = number_text("基底が尽きるまでに", formulas.len() as u64, "件の公式を発見しました");
            proof {
                assert(goal == (
                    active_denominators@,
                    deflation_views(deflations@),
                    formula_views(formulas@),
                    total_iterations as nat,
                    found.residual_bits as nat,
                    note@,
                ));
            }
            return Ok(
                result(
                    denominators,
                    active_denominators,
                    precision_digits,
                    total_iterations,
                    found.residual_bits,
                    deflations,
                    formulas,
                    note,
                ),
            );
        }
    }
}

proof fn lemma_formula_fits_without_min(coefficients: Seq<i64>, denominators: Seq<u64>, target: i64)
    requires
        forall|i: int| 0 <= i < coefficients.len() ==> #[trigger] coefficients[i] > i64::MIN,
    ensures
        formula_coefficients_fit(coefficients, denominators, target),
    decreases coefficients.len(),
{
    if coefficients.len() > 0 && denominators.len() > 0 {
        assert forall|i: int| 0 <= i < coefficients.drop_first().len() implies #[trigger] coefficients.drop_first()[i] > i64::MIN by {
            assert(coefficients.drop_first()[i] == coefficients[i + 1]);
        }
        lemma_formula_fits_without_min(coefficients.drop_first(), denominators.drop_first(), target);
        assert(coefficients[0] > i64::MIN);
    }
}

} // verus!
