use pi_arctan::benchmark::{benchmark_scale, decimal_scale, pi_prefix, weighted_arctan};
use pi_arctan::bignum::Int;
use pi_arctan::formula::{
    exact_pi_over_four, fixed_arctan_reciprocal, normalize_relation, relation_to_formula, Term,
};
use pi_arctan::parse::{parse_denominators, parse_formula};
use pi_arctan::pslq::{
    find_relation, find_relation_with_progress, PslqConfig, RelationProgress, ReportLog,
};

fn term(coefficient: i64, denominator: u64) -> Term {
    Term {
        coefficient,
        denominator,
    }
}

fn small(v: i64) -> Int {
    Int::from_i64(v)
}

fn value(v: &Int) -> i64 {
    Int::to_i64(v).unwrap()
}

#[test]
fn integer_arithmetic_goes_through_big_integers() {
    assert_eq!(value(&Int::plus(&small(5), &small(-7))), -2);
    assert_eq!(value(&Int::minus(&small(5), &small(-7))), 12);
    assert_eq!(value(&Int::times(&small(-6), &small(7))), -42);
    assert_eq!(value(&Int::quotient(&small(-7), &small(2))), -3);
    assert_eq!(value(&Int::shifted_left(&small(3), 4)), 48);
    assert_eq!(value(&Int::shifted_right(&small(-7), 1)), -4);
    assert!(Int::less_than(&small(-8), &small(3)));
    assert!(!Int::less_than(&small(3), &small(3)));
    assert!(Int::equal_to(&small(9), &small(9)));
    assert!(!Int::equal_to(&small(9), &small(-9)));
    assert_eq!(value(&Int::gcd(&small(-12), &small(18))), 6);
    assert_eq!(value(&Int::floor_sqrt(&small(99))), 9);
    assert_eq!(Int::bits(&small(-255)), 8);
    assert_eq!(Int::to_i64(&Int::shifted_left(&small(1), 70)), None);
    assert_eq!(small(-1234).to_decimal(), "-1234");
    assert_eq!(small(0).to_decimal(), "0");
}

#[test]
fn big_integers_keep_their_limbs() {
    let big = Int::shifted_left(&small(1), 64);
    assert_eq!(big.magnitude_limbs(), &vec![0, 0, 1]);
    assert!(!big.is_negative());
    let negative = big.negated();
    assert!(negative.is_negative());
    assert_eq!(negative.to_decimal(), "-18446744073709551616");
    assert_eq!(negative.absolute().to_decimal(), "18446744073709551616");
    assert!(Int::zero().is_zero());
    assert_eq!(Int::from_parts(true, vec![5, 0]).to_decimal(), "-5");
    assert_eq!(Int::from_u64(u64::MAX).to_decimal(), "18446744073709551615");
}

#[test]
fn fixed_arctangents_truncate_the_series() {
    let scale = Int::times(&small(10_000_000_000), &small(10_000_000_000));
    assert_eq!(fixed_arctan_reciprocal(5, &scale).to_decimal(), "19739555984988075838");
    assert_eq!(fixed_arctan_reciprocal(239, &scale).to_decimal(), "418407600207472387");
    assert_eq!(value(&fixed_arctan_reciprocal(1, &small(1000))), 787);
    assert_eq!(value(&fixed_arctan_reciprocal(2, &small(1_000_000))), 463648);
}

#[test]
fn benchmark_prefix_of_machins_formula() {
    let terms = parse_formula("4:5,-1:239").unwrap();
    let scale = decimal_scale(10);
    assert_eq!(scale.to_decimal(), format!("1{}", "0".repeat(22)));
    let parts: Vec<Int> = terms.iter().map(|t| weighted_arctan(t, &scale)).collect();
    assert_eq!(pi_prefix(&parts, 10), "3.1415926535897932384620");
    let scale = decimal_scale(50);
    let parts: Vec<Int> = terms.iter().map(|t| weighted_arctan(t, &scale)).collect();
    assert_eq!(
        pi_prefix(&parts, 50),
        "3.141592653589793238462643383279502884197169399375105"
    );
}

#[test]
fn benchmark_refuses_zero_digits() {
    assert_eq!(benchmark_scale(0).unwrap_err(), "digits must be positive");
    assert_eq!(
        benchmark_scale(3).unwrap().to_decimal(),
        format!("1{}", "0".repeat(15))
    );
}

#[test]
fn benchmark_prefix_of_short_text_is_unchanged() {
    assert_eq!(pi_prefix(&[small(3)], 0), "12");
    assert_eq!(pi_prefix(&[small(-3)], 0), "-12");
}

#[test]
fn formulas_parse_with_signs_and_spaces() {
    assert_eq!(
        parse_formula(" +4 : 5 , -1:239 ").unwrap(),
        vec![term(4, 5), term(-1, 239)]
    );
}

#[test]
fn formula_errors_name_the_bad_part() {
    assert_eq!(parse_formula("4-5").unwrap_err(), "expected coefficient:denominator");
    assert_eq!(parse_formula("x:5").unwrap_err(), "invalid coefficient: x");
    assert_eq!(parse_formula("4: y").unwrap_err(), "invalid denominator:  y");
    assert_eq!(
        parse_formula("0:5").unwrap_err(),
        "coefficient and denominator must be nonzero"
    );
    assert_eq!(
        parse_formula("1:0").unwrap_err(),
        "coefficient and denominator must be nonzero"
    );
    assert_eq!(parse_formula("").unwrap_err(), "expected coefficient:denominator");
}

#[test]
fn denominator_lists_are_sorted_and_deduplicated() {
    assert_eq!(parse_denominators("10, 3-5, 4").unwrap(), vec![3, 4, 5, 10]);
    assert_eq!(parse_denominators("7").unwrap(), vec![7]);
}

#[test]
fn denominator_errors_name_the_bad_token() {
    assert_eq!(parse_denominators("5,,7").unwrap_err(), "empty denominator in list");
    assert_eq!(parse_denominators("0").unwrap_err(), "denominators must be positive");
    assert_eq!(parse_denominators("a").unwrap_err(), "invalid denominator: a");
    assert_eq!(parse_denominators("5-3").unwrap_err(), "invalid denominator range: 5-3");
    assert_eq!(parse_denominators("0-3").unwrap_err(), "invalid denominator range: 0-3");
    assert_eq!(parse_denominators("1-x").unwrap_err(), "invalid denominator range: 1-x");
    assert_eq!(
        parse_denominators("1-1001").unwrap_err(),
        "a range can contain at most 1000 denominators"
    );
    assert_eq!(parse_denominators("1-1000").unwrap().len(), 1000);
}

#[test]
fn relations_are_normalized() {
    assert_eq!(normalize_relation(vec![2, -8, 2]), vec![1, -4, 1]);
    assert_eq!(normalize_relation(vec![0, -3, 6]), vec![0, 1, -2]);
    assert_eq!(normalize_relation(vec![0, 0]), vec![0, 0]);
    assert_eq!(normalize_relation(vec![1, -4, 1]), vec![1, -4, 1]);
}

#[test]
fn normalizing_twice_changes_nothing() {
    for relation in [vec![6, -24, 6], vec![0, -3, 6], vec![0, 0, 0], vec![-5, 10, 15], vec![7]] {
        let once = normalize_relation(relation);
        assert_eq!(normalize_relation(once.clone()), once);
    }
}

#[test]
fn relations_become_formulas() {
    assert_eq!(
        relation_to_formula(&[1, -4, 1], &[5, 239]),
        Some(vec![term(4, 5), term(-1, 239)])
    );
    assert_eq!(
        relation_to_formula(&[2, -8, 0, 2], &[5, 7, 239]),
        Some(vec![term(4, 5), term(-1, 239)])
    );
    assert_eq!(relation_to_formula(&[2, 3], &[5]), None);
    assert_eq!(relation_to_formula(&[0, 3], &[5]), None);
    assert_eq!(relation_to_formula(&[], &[5]), None);
}

#[test]
fn exactness_of_known_formulas() {
    assert!(exact_pi_over_four(&[term(1, 2), term(1, 3)]));
    assert!(exact_pi_over_four(&[term(1, 1)]));
    assert!(!exact_pi_over_four(&[term(1, 2)]));
    assert!(exact_pi_over_four(&[term(12, 49), term(32, 57), term(-5, 239), term(12, 110443)]));
}

fn machin_values(bits: usize) -> Vec<Int> {
    let scale = Int::shifted_left(&small(1), bits);
    let pi_over_four = Int::minus(
        &Int::times(&fixed_arctan_reciprocal(5, &scale), &small(4)),
        &fixed_arctan_reciprocal(239, &scale),
    );
    vec![
        pi_over_four,
        fixed_arctan_reciprocal(5, &scale),
        fixed_arctan_reciprocal(239, &scale),
    ]
}

#[test]
fn pslq_finds_the_machin_relation() {
    let config = PslqConfig {
        precision_bits: 231,
        target_bits: 167,
        max_coefficient: 1_000_000,
        max_iterations: 10_000,
    };
    let found = find_relation(&machin_values(231), &config).unwrap();
    assert_eq!(normalize_relation(found.coefficients), vec![1, -4, 1]);
}

struct Counter {
    reports: Vec<(usize, usize)>,
}

impl RelationProgress for Counter {
    fn report(&mut self, iteration: usize, residual_bits: usize) {
        self.reports.push((iteration, residual_bits));
    }
}

#[test]
fn pslq_reports_progress_and_refuses_bad_input() {
    let config = PslqConfig {
        precision_bits: 231,
        target_bits: 167,
        max_coefficient: 1_000_000,
        max_iterations: 10_000,
    };
    let mut log = ReportLog::new(Counter { reports: Vec::new() });
    let found = find_relation_with_progress(&machin_values(231), &config, &mut log).unwrap();
    assert!(found.iterations > 0);
    let reports = &log.sink.reports;
    assert_eq!(reports[0], (0, 0));
    assert_eq!(*reports.last().unwrap(), (found.iterations, found.residual_bits));
    for pair in reports.windows(2) {
        assert!(pair[0].0 < pair[1].0);
    }
    for (k, report) in reports.iter().enumerate() {
        assert!(k == 0 || k == reports.len() - 1 || report.0 % 25 == 0);
    }
    let mut again = ReportLog::new(Counter { reports: Vec::new() });
    let second = find_relation_with_progress(&machin_values(231), &config, &mut again).unwrap();
    assert_eq!(second.coefficients, found.coefficients);
    assert_eq!(again.sink.reports, log.sink.reports);
    let mut refused = ReportLog::new(Counter { reports: Vec::new() });
    assert!(find_relation_with_progress(&machin_values(231)[..1], &config, &mut refused).is_none());
    assert!(refused.sink.reports.is_empty());
    assert!(find_relation(&machin_values(231)[..1], &config).is_none());
    let with_zero = vec![small(0), small(5)];
    assert!(find_relation(&with_zero, &config).is_none());
    let low = PslqConfig {
        precision_bits: 40,
        ..config
    };
    assert!(find_relation(&machin_values(40), &low).is_none());
}

#[test]
fn normalization_ignores_scaling() {
    assert_eq!(normalize_relation(vec![2, -8, 2]), vec![1, -4, 1]);
    assert_eq!(normalize_relation(vec![-3, 12, -3]), vec![1, -4, 1]);
    assert_eq!(normalize_relation(vec![-1, 4, -1]), vec![1, -4, 1]);
}

#[test]
fn exactness_ignores_term_order() {
    let machin = vec![term(4, 5), term(-1, 239)];
    let reordered = vec![term(-1, 239), term(4, 5)];
    assert!(exact_pi_over_four(&machin));
    assert!(exact_pi_over_four(&reordered));
    let three = vec![term(1, 2), term(1, 5), term(1, 8)];
    let shuffled = vec![term(1, 8), term(1, 2), term(1, 5)];
    assert!(exact_pi_over_four(&three));
    assert!(exact_pi_over_four(&shuffled));
    let wrong = vec![term(3, 5), term(-1, 239)];
    let wrong_reordered = vec![term(-1, 239), term(3, 5)];
    assert!(!exact_pi_over_four(&wrong));
    assert!(!exact_pi_over_four(&wrong_reordered));
}

#[test]
fn relation_to_formula_ignores_scaling() {
    let expected = Some(vec![term(4, 5), term(-1, 239)]);
    assert_eq!(relation_to_formula(&[1, -4, 1], &[5, 239]), expected);
    assert_eq!(relation_to_formula(&[2, -8, 2], &[5, 239]), expected);
    assert_eq!(relation_to_formula(&[-3, 12, -3], &[5, 239]), expected);
}

#[test]
fn relation_of_a_formula_solves_back_to_it() {
    let relation: Vec<i64> = vec![1, -12, -32, 5, -12];
    assert_eq!(
        relation_to_formula(&relation, &[49, 57, 239, 110443]),
        Some(vec![term(12, 49), term(32, 57), term(-5, 239), term(12, 110443)])
    );
    assert_eq!(
        relation_to_formula(&[1, -1, 0, -1], &[2, 4, 3]),
        Some(vec![term(1, 2), term(1, 3)])
    );
}

#[test]
fn exactness_ignores_cancelling_pair() {
    let with_pair = vec![term(4, 5), term(-1, 239), term(3, 7), term(-3, 7)];
    assert!(exact_pi_over_four(&with_pair));
    let wrong_with_pair = vec![term(1, 2), term(2, 3), term(-2, 3)];
    assert!(!exact_pi_over_four(&wrong_with_pair));
}

#[test]
fn denominator_list_ignores_token_order() {
    assert_eq!(parse_denominators("239,5").unwrap(), vec![5, 239]);
    assert_eq!(parse_denominators("5,239").unwrap(), vec![5, 239]);
    assert_eq!(
        parse_denominators("10-12, 3").unwrap(),
        parse_denominators("3,10-12").unwrap()
    );
    assert!(parse_denominators("0,5").is_err());
    assert!(parse_denominators("5,0").is_err());
}

#[test]
fn denominator_list_ignores_repeated_tokens() {
    assert_eq!(parse_denominators("5,5,239,5").unwrap(), vec![5, 239]);
    assert_eq!(
        parse_denominators("2-4,3,2-4").unwrap(),
        parse_denominators("2-4").unwrap()
    );
}

#[test]
fn formula_reads_back_its_printout() {
    let terms = vec![term(12, 49), term(32, 57), term(-5, 239), term(12, 110443)];
    let text = terms
        .iter()
        .map(|t| format!("{}:{}", t.coefficient, t.denominator))
        .collect::<Vec<_>>()
        .join(",");
    assert_eq!(parse_formula(&text).unwrap(), terms);
    let extreme = vec![term(i64::MIN, u64::MAX), term(i64::MAX, 1)];
    let text = extreme
        .iter()
        .map(|t| format!("{}:{}", t.coefficient, t.denominator))
        .collect::<Vec<_>>()
        .join(",");
    assert_eq!(parse_formula(&text).unwrap(), extreme);
}

#[test]
fn denominator_list_reads_back_its_printout() {
    let values = parse_denominators("239, 5-8,57").unwrap();
    let text = values
        .iter()
        .map(|d| d.to_string())
        .collect::<Vec<_>>()
        .join(",");
    assert_eq!(parse_denominators(&text).unwrap(), values);
}
