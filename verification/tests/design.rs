use syl_elab::design::{
    DriverDrcReport, EirConnection, EirParam, EirParamBind, EirReset, NumberingValue,
    SymbolicConstValue,
};
use syl_elab::expr::EirExpr;

#[test]
fn params_keep_name_default_and_doc() {
    let p = EirParam::new("WIDTH", "8");
    assert_eq!(p.name(), "WIDTH");
    assert_eq!(p.default(), "8");
    assert_eq!(p.doc(), None);
    let p = p.with_doc(Some("bus width".to_string()));
    assert_eq!(p.doc(), Some("bus width"));
    assert_eq!(p.name(), "WIDTH");
}

#[test]
fn resets_bindings_and_connections() {
    let r = EirReset::new(EirExpr::ident("rst"), EirExpr::Int(0));
    assert!(matches!(r.condition(), EirExpr::Ident(n) if n == "rst"));
    assert!(matches!(r.value(), EirExpr::Int(0)));
    let b = EirParamBind::new("N", "4");
    assert_eq!((b.name(), b.value()), ("N", "4"));
    let c = EirConnection::new("clk", EirExpr::ident("sys_clk"));
    assert_eq!(c.formal(), "clk");
    assert!(matches!(c.actual(), EirExpr::Ident(n) if n == "sys_clk"));
}

#[test]
fn numbering_value_is_its_counter() {
    assert_eq!(NumberingValue::Counter(7).value(), 7);
}

#[test]
fn symbolic_constants_by_field() {
    let s = SymbolicConstValue::Struct(vec![
        ("a".to_string(), SymbolicConstValue::Scalar(EirExpr::Int(1))),
        (
            "b".to_string(),
            SymbolicConstValue::Struct(vec![(
                "c".to_string(),
                SymbolicConstValue::Scalar(EirExpr::Bool(true)),
            )]),
        ),
    ]);
    assert!(matches!(
        s.field("a").and_then(|v| v.into_scalar()),
        Some(EirExpr::Int(1))
    ));
    let inner = s.field("b").unwrap();
    assert!(inner.field("c").unwrap().into_scalar().is_some());
    assert!(s.field("missing").is_none());
    assert!(s.field("b").unwrap().into_scalar().is_none());
    let scalar = SymbolicConstValue::Scalar(EirExpr::Int(3));
    assert!(scalar.field("a").is_none());
}

#[test]
fn report_counts() {
    let r = DriverDrcReport::new(1, 2, 3, 4);
    assert_eq!(
        (r.module_count(), r.drive_count(), r.read_count(), r.create_count()),
        (1, 2, 3, 4)
    );
}
