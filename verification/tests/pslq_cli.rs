use pi_arctan::formula::Term;
use pi_arctan::machin::{search, SearchProgress, SearchProgressSink, SearchResult};
use pi_arctan::parse::parse_denominators;

struct Quiet;

impl SearchProgressSink for Quiet {
    fn report(&mut self, _event: SearchProgress) {}
}

fn run_pslq(denominators: &str, precision: usize) -> SearchResult {
    let denominators = parse_denominators(denominators).unwrap();
    search(denominators, precision, 1_000_000, 10_000, &mut Quiet).unwrap()
}

fn term(coefficient: i64, denominator: u64) -> Term {
    Term {
        coefficient,
        denominator,
    }
}

#[test]
fn pslq_recovers_machin_formula() {
    let result = run_pslq("5,239", 50);
    assert_eq!(result.relation, Some(vec![1, -4, 1]));
    assert_eq!(result.exact, true);
}

#[test]
fn pslq_recovers_four_term_formula() {
    let result = run_pslq("49,57,239,110443", 100);
    assert_eq!(result.relation, Some(vec![1, -12, -32, 5, -12]));
    assert_eq!(result.formula.as_ref().unwrap().len(), 4);
    assert_eq!(result.exact, true);
}

#[test]
fn pslq_accepts_denominator_ranges() {
    let result = run_pslq("5,239-239", 50);
    assert_eq!(result.denominators, vec![5, 239]);
    assert_eq!(result.exact, true);
}

#[test]
fn pslq_deflates_target_free_relations() {
    let result = run_pslq("2-10", 100);
    assert_eq!(result.exact, true);
    assert_eq!(result.formulas.len(), 2);
    assert!(result.deflations.len() >= 3);
    assert_eq!(result.deflations[0].removed_denominator, 7);
    assert_eq!(
        result.formula,
        Some(vec![term(1, 2), term(1, 5), term(1, 8)])
    );
    assert_eq!(result.formulas[1].formula, vec![term(1, 2), term(1, 3)]);
}

struct Count {
    events: usize,
}

impl SearchProgressSink for Count {
    fn report(&mut self, _event: SearchProgress) {
        self.events += 1;
    }
}

#[test]
fn pslq_search_reports_nothing_on_input_errors() {
    let mut count = Count { events: 0 };
    let error = search(vec![5, 239], 10, 1_000_000, 10_000, &mut count).unwrap_err();
    assert_eq!(error, "precision must be between 20 and 2000 digits");
    let error = search(vec![5, 239], 50, 0, 10_000, &mut count).unwrap_err();
    assert_eq!(error, "coefficient and iteration limits must be positive");
    assert_eq!(count.events, 0);
    search(vec![5, 239], 50, 1_000_000, 10_000, &mut count).unwrap();
    assert!(count.events > 0);
}
