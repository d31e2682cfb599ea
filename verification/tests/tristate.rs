use syl_elab::expr::{EirBinaryOp, EirExpr, EirSelectArm, EirSelectMode, EirUnaryOp};
use syl_elab::tristate::{
    BoolFormula, BoolProof, BoolTerm, DriveActivity, DriveActivityClassifier, Dnf,
};

fn data() -> EirExpr {
    EirExpr::ident("data")
}

fn classify(value: &EirExpr) -> DriveActivity {
    DriveActivityClassifier::new(Some(value)).classify()
}

fn atom_name(f: &BoolFormula) -> Option<String> {
    match f {
        BoolFormula::Atom(name) => Some(name.clone()),
        _ => None,
    }
}

#[test]
fn drive_without_value_is_always_active() {
    match DriveActivityClassifier::new(None).classify() {
        DriveActivity::Active(Some(BoolFormula::True)) => {}
        other => panic!("unexpected activity {:?}", matches!(other, DriveActivity::Inactive)),
    }
}

#[test]
fn high_impedance_is_inactive() {
    assert!(matches!(classify(&EirExpr::high_z()), DriveActivity::Inactive));
}

#[test]
fn unsupported_value_has_unknown_enable() {
    assert!(matches!(
        classify(&EirExpr::unsupported("x")),
        DriveActivity::Active(None)
    ));
}

#[test]
fn mux_to_high_impedance_is_enabled_by_its_condition() {
    let drive = EirExpr::mux(EirExpr::ident("en"), data(), EirExpr::high_z());
    match classify(&drive) {
        DriveActivity::Active(Some(f)) => assert_eq!(atom_name(&f), Some("en".to_string())),
        _ => panic!("mux with one active branch must be active"),
    }
    let inverted = EirExpr::mux(EirExpr::ident("en"), EirExpr::high_z(), data());
    match classify(&inverted) {
        DriveActivity::Active(Some(BoolFormula::Not(inner))) => {
            assert_eq!(atom_name(&inner), Some("en".to_string()))
        }
        _ => panic!("else branch must be enabled by the negated condition"),
    }
    let never = EirExpr::mux(EirExpr::ident("en"), EirExpr::high_z(), EirExpr::high_z());
    assert!(matches!(classify(&never), DriveActivity::Inactive));
    let always = EirExpr::mux(EirExpr::ident("en"), data(), data());
    match classify(&always) {
        DriveActivity::Active(Some(BoolFormula::Or(items))) => assert_eq!(items.len(), 2),
        _ => panic!("both branches active gives a disjunction"),
    }
}

#[test]
fn select_with_active_default_is_always_active() {
    let drive = EirExpr::select(
        EirSelectMode::Priority,
        vec![EirSelectArm::new(EirExpr::ident("g"), EirExpr::high_z())],
        data(),
    );
    assert!(matches!(
        classify(&drive),
        DriveActivity::Active(Some(BoolFormula::True))
    ));
}

#[test]
fn select_to_high_impedance_is_enabled_by_active_arm_guards() {
    let drive = EirExpr::select(
        EirSelectMode::Unique,
        vec![
            EirSelectArm::new(EirExpr::ident("g0"), data()),
            EirSelectArm::new(EirExpr::ident("g1"), EirExpr::high_z()),
            EirSelectArm::new(EirExpr::ident("g2"), data()),
        ],
        EirExpr::high_z(),
    );
    match classify(&drive) {
        DriveActivity::Active(Some(BoolFormula::Or(items))) => {
            let names: Vec<Option<String>> = items.iter().map(atom_name).collect();
            assert_eq!(names, vec![Some("g0".to_string()), Some("g2".to_string())]);
        }
        _ => panic!("select with active arms must be enabled by their guards"),
    }
}

#[test]
fn opposite_enables_do_not_overlap() {
    let a = classify(&EirExpr::mux(EirExpr::ident("en"), data(), EirExpr::high_z()));
    let b = classify(&EirExpr::mux(EirExpr::ident("en"), EirExpr::high_z(), data()));
    assert!(!a.can_overlap(&b));
    assert!(!b.can_overlap(&a));
}

#[test]
fn independent_enables_overlap() {
    let a = classify(&EirExpr::mux(EirExpr::ident("en"), data(), EirExpr::high_z()));
    let b = classify(&EirExpr::mux(EirExpr::ident("grant"), data(), EirExpr::high_z()));
    assert!(a.can_overlap(&b));
}

#[test]
fn inactive_and_unknown_activities() {
    let z = classify(&EirExpr::high_z());
    let unknown = classify(&EirExpr::unsupported("x"));
    let a = classify(&EirExpr::mux(EirExpr::ident("en"), data(), EirExpr::high_z()));
    assert!(!z.can_overlap(&a));
    assert!(!a.can_overlap(&z));
    assert!(unknown.can_overlap(&a));
    assert!(unknown.can_overlap(&unknown));
}

#[test]
fn enables_from_conjunctions_are_exclusive_by_normal_form() {
    let en = EirExpr::ident("en");
    let rd = EirExpr::ident("rd");
    let left = BoolFormula::from_expr(&EirExpr::binary(
        EirBinaryOp::AndAnd,
        en.clone(),
        rd.clone(),
    ));
    let right = BoolFormula::from_expr(&EirExpr::binary(
        EirBinaryOp::AndAnd,
        en.clone(),
        EirExpr::unary(EirUnaryOp::Not, rd.clone()),
    ));
    assert!(BoolProof::new(&left, &right).is_mutually_exclusive());
    let other = BoolFormula::from_expr(&EirExpr::ident("we"));
    assert!(!BoolProof::new(&left, &other).is_mutually_exclusive());
}

#[test]
fn negation_is_pushed_to_atoms() {
    let f = BoolFormula::from_expr(&EirExpr::unary(
        EirUnaryOp::Not,
        EirExpr::binary(EirBinaryOp::OrOr, EirExpr::ident("a"), EirExpr::ident("b")),
    ));
    match f {
        BoolFormula::And(items) => {
            assert_eq!(items.len(), 2);
            assert!(matches!(&items[0], BoolFormula::Not(_)));
        }
        _ => panic!("negated disjunction becomes a conjunction"),
    }
    let twice = BoolFormula::from_expr(&EirExpr::unary(
        EirUnaryOp::Not,
        EirExpr::unary(EirUnaryOp::Not, EirExpr::ident("a")),
    ));
    assert_eq!(atom_name(&twice), Some("a".to_string()));
    assert!(matches!(
        BoolFormula::from_expr(&EirExpr::Bool(true)).negated(),
        BoolFormula::False
    ));
}

#[test]
fn normal_form_of_conjunction_over_disjunction() {
    let f = BoolFormula::And(vec![
        BoolFormula::Atom("a".to_string()),
        BoolFormula::Or(vec![
            BoolFormula::Atom("b".to_string()),
            BoolFormula::Atom("c".to_string()),
        ]),
    ]);
    assert_eq!(Dnf::from_formula(&f).terms.unwrap().len(), 2);
    let contradiction = BoolFormula::And(vec![
        BoolFormula::Atom("a".to_string()),
        BoolFormula::Not(Box::new(BoolFormula::Atom("a".to_string()))),
    ]);
    assert_eq!(Dnf::terms(&contradiction).unwrap().len(), 0);
    let not_nnf = BoolFormula::Not(Box::new(BoolFormula::True));
    assert!(Dnf::terms(&not_nnf).is_none());
    assert_eq!(Dnf::terms(&BoolFormula::False).unwrap().len(), 0);
    assert_eq!(Dnf::terms(&BoolFormula::True).unwrap().len(), 1);
}

#[test]
fn normal_form_over_term_limit_has_no_proof() {
    let mut items = Vec::new();
    for k in 0..7 {
        items.push(BoolFormula::Or(vec![
            BoolFormula::Atom(format!("x{k}")),
            BoolFormula::Atom(format!("y{k}")),
        ]));
    }
    let big = BoolFormula::And(items);
    assert!(Dnf::terms(&big).is_none());
    let other = BoolFormula::Atom("z".to_string());
    assert!(!BoolProof::new(&big, &other).is_mutually_exclusive());

    let mut wide = Vec::new();
    for k in 0..65 {
        wide.push(BoolFormula::Atom(format!("w{k}")));
    }
    assert!(Dnf::terms(&BoolFormula::Or(wide)).is_none());
}

#[test]
fn terms_merge_unless_they_contradict() {
    let a = BoolTerm::from_literal("a".to_string(), true);
    let not_a = BoolTerm::from_literal("a".to_string(), false);
    let b = BoolTerm::from_literal("b".to_string(), true);
    assert!(a.contradicts(&not_a));
    assert!(a.merged(&not_a).is_none());
    assert!(!a.contradicts(&b));
    let ab = a.merged(&b).unwrap();
    assert!(ab.contradicts(&not_a));
    assert!(!ab.contradicts(&BoolTerm::new()));
    let product = Dnf::and_terms(vec![a.merged(&BoolTerm::new()).unwrap()], vec![b, not_a]).unwrap();
    assert_eq!(product.len(), 1);
}
