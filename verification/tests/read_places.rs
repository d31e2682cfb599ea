use syl_elab::expr::{EirBinaryOp, EirExpr, EirPlace};
use syl_elab::read_places::{EirPlaceRoot, EirReadPlaceCollector, RootFilter};

fn keys(places: &[EirPlace]) -> Vec<String> {
    places.iter().map(|p| p.to_expr().fact_key()).collect()
}

fn indexed(root: &str, index: EirExpr) -> EirExpr {
    EirExpr::index(EirExpr::ident(root), index)
}

#[test]
fn reads_are_listed_once_in_key_order() {
    let roots = vec!["word".to_string(), "i".to_string()];
    let expr = EirExpr::binary(
        EirBinaryOp::Add,
        indexed("word", EirExpr::ident("i")),
        EirExpr::binary(EirBinaryOp::Mul, EirExpr::ident("a"), EirExpr::ident("a")),
    );
    let places = EirReadPlaceCollector::new(&roots).collect(&expr);
    assert_eq!(keys(&places), vec!["a", "i", "idx(word,i)"]);
}

#[test]
fn index_reads_of_unknown_roots_are_skipped() {
    let roots = vec!["word".to_string()];
    let expr = indexed("word", EirExpr::ident("i"));
    let places = EirReadPlaceCollector::new(&roots).collect(&expr);
    assert_eq!(keys(&places), vec!["idx(word,i)"]);
}

#[test]
fn collection_keeps_first_of_each_key_before_sorting() {
    let roots: Vec<String> = Vec::new();
    let mut c = EirReadPlaceCollector::new(&roots);
    c.collect_expr(&EirExpr::binary(
        EirBinaryOp::Add,
        EirExpr::ident("b"),
        EirExpr::ident("a"),
    ));
    assert_eq!(keys(&c.places), vec!["b", "a"]);
    c.collect_known_root_expr(&EirExpr::ident("c"));
    assert_eq!(c.places.len(), 2);
    c.collect_expr_with_root_filter(&EirExpr::Int(3), RootFilter::AllowUnknown);
    assert_eq!(c.places.len(), 2);
}

#[test]
fn place_roots_and_filters() {
    let place = EirPlace::Index {
        base: Box::new(EirPlace::Ident("mem".to_string())),
        index: EirExpr::Int(3),
    };
    assert_eq!(EirPlaceRoot::new(&place).name(), Some("mem"));
    let known = vec!["mem".to_string()];
    let unknown = vec!["reg".to_string()];
    assert!(RootFilter::KnownOnly.allows(&place, &known));
    assert!(!RootFilter::KnownOnly.allows(&place, &unknown));
    assert!(RootFilter::AllowUnknown.allows(&place, &unknown));
}
