use syl_elab::bound::{DriverBitRange, DriverBound};
use syl_elab::expr::{EirBound, EirExpr, EirPlace, EirSelectArm};
use syl_elab::formula::DriverBoundFormula;
use syl_elab::place::{DriverExpr, DriverPlace};
use syl_elab::symbol::TopLevelProduct;
use syl_elab::tristate::BoolFormula;
use syl_elab::expr::{EirBinaryOp, EirUnaryOp};

fn chars(s: &str) -> Vec<char> {
    s.chars().collect()
}

fn text(v: &[char]) -> String {
    v.iter().collect()
}

#[test]
fn overlap_does_not_depend_on_order_and_holds_for_a_place_itself() {
    let part = DriverPlace::IndexedPartSelect {
        base: Box::new(DriverPlace::Ident("word".to_string())),
        index: DriverExpr::Int(2),
        width: DriverBound::new("4"),
    };
    let slice = DriverPlace::Slice {
        base: Box::new(DriverPlace::Ident("word".to_string())),
        range: DriverBitRange::new("0", "3"),
    };
    let other = DriverPlace::Ident("other".to_string());

    assert_eq!(part.overlaps(&slice), slice.overlaps(&part));
    assert_eq!(part.overlaps(&other), other.overlaps(&part));
    assert!(part.overlaps(&part));
    assert!(slice.overlaps(&slice));
    assert!(other.overlaps(&other));
}

#[test]
fn subtracting_undoes_adding() {
    let a = DriverBoundFormula::from_source("2*N + 3").unwrap();
    let b = DriverBoundFormula::from_source("M - N + 4").unwrap();
    let sum = a.add(&b).unwrap();
    let back = sum.subtract(&b).unwrap();

    assert_eq!(back.canonical(), a.canonical());
    assert_eq!(sum.canonical(), "M+N+7");
}

#[test]
fn multiplying_does_not_depend_on_order() {
    let a = DriverBoundFormula::from_source("N + 1").unwrap();
    let b = DriverBoundFormula::from_source("W").unwrap();
    let three = DriverBoundFormula::from_constant(3);
    let zero = DriverBoundFormula::zero();

    assert_eq!(a.multiply(&b).unwrap().canonical(), b.multiply(&a).unwrap().canonical());
    assert_eq!(a.multiply(&three).unwrap().canonical(), "3*N+3");
    assert_eq!(three.multiply(&a).unwrap().canonical(), "3*N+3");
    assert_eq!(a.multiply(&zero).unwrap().canonical(), "0");
}

#[test]
fn factors_join_back_to_the_product() {
    let factors = TopLevelProduct::new(chars("a*(b*c)*d")).factors();
    let texts: Vec<String> = factors.iter().map(|f| text(f)).collect();

    assert_eq!(texts, vec!["a".to_string(), "(b*c)".to_string(), "d".to_string()]);
    assert_eq!(texts.join("*"), "a*(b*c)*d");
    assert_eq!(TopLevelProduct::new(Vec::new()).factors().len(), 1);
}

#[test]
fn negating_twice_gives_the_enable_back() {
    let enable = EirExpr::binary(
        EirBinaryOp::AndAnd,
        EirExpr::ident("en"),
        EirExpr::unary(EirUnaryOp::Not, EirExpr::ident("grant")),
    );
    let formula = BoolFormula::from_expr(&enable);
    let twice = BoolFormula::from_expr(&enable).negated().negated();

    assert_eq!(format!("{twice:?}"), format!("{formula:?}"));
    assert!(matches!(BoolFormula::from_expr(&enable).negated(), BoolFormula::Or(_)));
}

#[test]
fn reading_a_place_back_from_its_expression_gives_it_again() {
    let place = EirPlace::Index {
        base: Box::new(EirPlace::Slice {
            base: Box::new(EirPlace::Ident("mem".to_string())),
            high: EirBound::from_source("7"),
            low: EirBound::from_source("0"),
        }),
        index: EirExpr::ident("i"),
    };
    let back = EirPlace::try_from_expr(&place.to_expr()).expect("a place's expression denotes a place");

    assert_eq!(format!("{back:?}"), format!("{place:?}"));
}

#[test]
fn select_arm_fact_key_joins_guard_and_value() {
    let arm = EirSelectArm::new(EirExpr::ident("en"), EirExpr::Int(3));

    assert_eq!(arm.fact_key(), "en=>3");
}
