use pi_arctan::exact::{search, ExactLog, ExactProgress, ExactProgressSink};
use pi_arctan::formula::{exact_pi_over_four, Term};

struct Quiet;

impl ExactProgressSink for Quiet {
    fn report(&mut self, _event: ExactProgress) {}
}

struct Recorder {
    events: Vec<(String, u64, u64, usize, Option<Vec<Term>>, String)>,
}

impl ExactProgressSink for &mut Recorder {
    fn report(&mut self, event: ExactProgress) {
        self.events.push((
            event.phase.to_string(),
            event.processed,
            event.total,
            event.formulas_found,
            event.formula,
            event.message,
        ));
    }
}

fn term(coefficient: i64, denominator: u64) -> Term {
    Term {
        coefficient,
        denominator,
    }
}

#[test]
fn exhaustive_search_finds_two_term_identity() {
    let result = search(vec![2, 3], 2, 1, &mut ExactLog::new(Quiet)).unwrap();
    assert_eq!(result.formulas.len(), 1);
    assert_eq!(result.formulas[0].formula.len(), 2);
    assert_eq!(result.formulas[0].formula[0].coefficient, 1);
    assert_eq!(result.formulas[0].formula[0].denominator, 2);
    assert_eq!(result.formulas[0].formula[1].coefficient, 1);
    assert_eq!(result.formulas[0].formula[1].denominator, 3);
    assert_eq!(result.processed_states, result.total_states);
}

#[test]
fn exhaustive_search_counts_states_and_notes_completion() {
    let result = search(vec![2, 3], 2, 1, &mut ExactLog::new(Quiet)).unwrap();
    assert_eq!(result.denominators, vec![2, 3]);
    assert_eq!(result.total_states, 6);
    assert!(result.exact);
    assert_eq!(result.note, "指定条件の全探索が完了し、1件の公式を発見しました");
}

#[test]
fn exhaustive_search_finds_machins_formula() {
    let result = search(vec![5, 239], 2, 4, &mut ExactLog::new(Quiet)).unwrap();
    assert_eq!(result.total_states, 18);
    assert!(result
        .formulas
        .iter()
        .any(|f| f.formula == vec![term(4, 5), term(-1, 239)]));
    for formula in &result.formulas {
        assert!(exact_pi_over_four(&formula.formula));
    }
}

#[test]
fn exhaustive_search_without_a_formula_is_not_exact() {
    let result = search(vec![7, 11], 2, 1, &mut ExactLog::new(Quiet)).unwrap();
    assert!(result.formulas.is_empty());
    assert!(!result.exact);
    assert_eq!(result.note, "指定条件の全探索が完了し、0件の公式を発見しました");
}

#[test]
fn exhaustive_search_reports_progress() {
    let mut recorder = Recorder { events: Vec::new() };
    let result = search(vec![2, 3], 2, 1, &mut ExactLog::new(&mut recorder)).unwrap();
    let events = &recorder.events;
    assert_eq!(events[0].0, "generate");
    assert_eq!(events[0].1, 0);
    assert_eq!(events[0].2, 6);
    let found: Vec<_> = events.iter().filter(|e| e.0 == "formula").collect();
    assert_eq!(found.len(), 1);
    assert_eq!(found[0].3, 1);
    assert_eq!(found[0].4, Some(vec![term(1, 2), term(1, 3)]));
    assert_eq!(found[0].5, "1件目の公式を発見しました");
    let last = events.last().unwrap();
    assert_eq!(last.0, "complete");
    assert_eq!(last.1, result.total_states);
    assert_eq!(last.5, result.note);
}

#[test]
fn exhaustive_search_reports_nothing_on_error() {
    let mut recorder = Recorder { events: Vec::new() };
    {
        let mut log = ExactLog::new(&mut recorder);
        assert!(search(Vec::new(), 2, 1, &mut log).is_err());
        assert!(search(vec![2, 3], 0, 1, &mut log).is_err());
        assert!(search(vec![2, 3], 1, 5_000_000, &mut log).is_err());
    }
    assert!(recorder.events.is_empty());
}

#[test]
fn exhaustive_search_needs_denominators() {
    let error = search(Vec::new(), 2, 1, &mut ExactLog::new(Quiet)).unwrap_err();
    assert_eq!(error, "分母を1つ以上指定してください");
}

#[test]
fn exhaustive_search_needs_positive_limits() {
    let error = search(vec![2, 3], 0, 1, &mut ExactLog::new(Quiet)).unwrap_err();
    assert_eq!(error, "最大項数と係数上限は正の整数で指定してください");
    let error = search(vec![2, 3], 2, 0, &mut ExactLog::new(Quiet)).unwrap_err();
    assert_eq!(error, "最大項数と係数上限は正の整数で指定してください");
}

#[test]
fn exhaustive_search_refuses_too_many_states() {
    let denominators: Vec<u64> = (2..=25).collect();
    let error = search(denominators, 4, 10, &mut ExactLog::new(Quiet)).unwrap_err();
    assert_eq!(
        error,
        "部分積が多すぎます（左80986641、右80986641）。範囲・最大項数・係数上限を小さくしてください"
    );
}

#[test]
fn exhaustive_search_covers_its_space() {
    let denominators = vec![2, 3, 5, 7, 8];
    let result = search(denominators.clone(), 3, 2, &mut ExactLog::new(Quiet)).unwrap();
    let found: Vec<Vec<Term>> = result.formulas.iter().map(|f| f.formula.clone()).collect();
    for expected in [
        vec![term(1, 2), term(1, 3)],
        vec![term(2, 3), term(1, 7)],
        vec![term(2, 2), term(-1, 7)],
        vec![term(1, 2), term(1, 5), term(1, 8)],
    ] {
        assert!(found.contains(&expected), "missing {:?}", expected);
    }
    for formula in &found {
        assert!(!formula.is_empty() && formula.len() <= 3);
        assert!(exact_pi_over_four(formula));
        let positions: Vec<usize> = formula
            .iter()
            .map(|t| denominators.iter().position(|d| *d == t.denominator).unwrap())
            .collect();
        assert!(positions.windows(2).all(|w| w[0] < w[1]));
        assert!(formula
            .iter()
            .all(|t| t.coefficient != 0 && t.coefficient.abs() <= 2));
    }
    assert_eq!(result.processed_states, result.total_states);
    assert_eq!(result.total_states, (1 + 8 + 16) + (1 + 12 + 48 + 64));
}
