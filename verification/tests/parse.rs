use syl_elab::formula::DriverBoundFormula;
use syl_elab::parse::DriverBoundExpression;
use syl_elab::symbol::{SymbolicFactor, SymbolicProduct, TopLevelProduct};

fn chars(s: &str) -> Vec<char> {
    s.chars().collect()
}

fn text(v: &[char]) -> String {
    v.iter().collect()
}

fn canonical(source: &str) -> Option<String> {
    DriverBoundExpression::new(source).parse().map(|f| f.canonical())
}

#[test]
fn constant_arithmetic_folds() {
    let f = DriverBoundFormula::from_source("3 + 4 * 2").unwrap();
    assert_eq!(f.constant_value(), Some(11));
    let g = DriverBoundFormula::from_source("  (10 - 3) * 2  ").unwrap();
    assert_eq!(g.constant_value(), Some(14));
}

#[test]
fn symbols_collect_coefficients() {
    assert_eq!(canonical("N + N"), Some("2*N".to_string()));
    assert_eq!(canonical("N - N"), Some("0".to_string()));
    assert_eq!(canonical("2 * (N + 1) - N"), Some("N+2".to_string()));
}

#[test]
fn products_of_symbols_are_sorted() {
    assert_eq!(canonical("b * a"), Some("a*b".to_string()));
    assert_eq!(canonical("a*b"), canonical("(b)*(a)"));
}

#[test]
fn malformed_text_is_not_a_formula() {
    assert_eq!(canonical("(N"), None);
    assert_eq!(canonical(""), None);
    assert_eq!(canonical("N +"), None);
    assert_eq!(canonical("18446744073709551616"), None);
    assert_eq!(canonical("N )"), None);
}

#[test]
fn cursor_moves_over_what_is_read() {
    let mut e = DriverBoundExpression::new("  42 rest");
    e.skip_ws();
    assert_eq!(e.cursor, 2);
    let n = e.parse_number().unwrap();
    assert_eq!(n.constant_value(), Some(42));
    assert_eq!(e.cursor, 4);
    assert!(!e.is_at_end());
    let s = e.parse_symbol().unwrap();
    assert_eq!(s.canonical(), "rest");
    assert!(e.is_at_end());
    assert!(e.parse_symbol().is_none());
}

#[test]
fn consume_takes_only_the_expected_character() {
    let mut e = DriverBoundExpression::new("(x)");
    assert!(!e.consume(')'));
    assert_eq!(e.cursor, 0);
    assert!(e.consume('('));
    assert_eq!(e.cursor, 1);
    assert!(e.is_symbol_byte('x'));
    assert!(!e.is_symbol_byte('*'));
    assert!(!e.is_symbol_byte(' '));
}

#[test]
fn sum_product_and_atom_stop_where_they_end() {
    let mut e = DriverBoundExpression::new("a*b + c)");
    let sum = e.parse_sum().unwrap();
    assert_eq!(sum.canonical(), "a*b+c");
    assert_eq!(e.cursor, 7);
    let mut p = DriverBoundExpression::new("2*3 + 1");
    assert_eq!(p.parse_product().unwrap().constant_value(), Some(6));
    let mut a = DriverBoundExpression::new(" (5) ");
    assert_eq!(a.parse_atom().unwrap().constant_value(), Some(5));
}

#[test]
fn factor_normalisation_peels_parentheses_and_spaces() {
    assert_eq!(text(&SymbolicFactor::new(chars("  (( x y ))  ")).normalized()), "xy");
    assert_eq!(text(&SymbolicFactor::new(chars("(a)*(b)")).normalized()), "(a)*(b)");
    assert!(SymbolicFactor::strip_outer_parens(&chars("(a)(b)")).is_none());
    assert_eq!(
        SymbolicFactor::strip_outer_parens(&chars("((a)(b))")).map(|v| text(&v)),
        Some("(a)(b)".to_string())
    );
    assert!(SymbolicFactor::strip_outer_parens(&chars("a")).is_none());
}

#[test]
fn top_level_factors_split_outside_parentheses() {
    let factors: Vec<String> = TopLevelProduct::new(chars("a*(b*c)*d"))
        .factors()
        .iter()
        .map(|f| text(f))
        .collect();
    assert_eq!(factors, vec!["a", "(b*c)", "d"]);
    assert_eq!(TopLevelProduct::new(chars("")).factors().len(), 1);
}

#[test]
fn symbolic_products_are_canonical() {
    let p = SymbolicProduct::new(vec![chars("b*a"), chars("c")]);
    assert_eq!(text(&p.canonical()), "a*b*c");
    let mut q = SymbolicProduct::new(Vec::new());
    q.extend(&chars("z*y"));
    assert_eq!(text(&q.canonical()), "z*y");
    q.normalize();
    assert_eq!(text(&q.canonical()), "y*z");
}

#[test]
fn formula_terms_add_and_cancel() {
    let mut f = DriverBoundFormula::from_symbol(chars("N"));
    assert_eq!(f.add_term(&chars("N"), 2), Some(()));
    assert_eq!(f.canonical(), "3*N");
    assert_eq!(f.add_term(&chars("N"), -3), Some(()));
    assert!(f.is_zero());
    assert_eq!(f.add_term(&chars("M"), i128::MAX), Some(()));
    assert_eq!(f.add_term(&chars("M"), 1), None);
    assert_eq!(f.canonical(), format!("{}*M", i128::MAX));
}
