use std::sync::Arc;
use syl_elab::drc::{DriverDiagnostic, DriverError};
use syl_elab::eir::{
    EirCellExpansion, EirDesign, EirDesignComposer, EirDriveKind, EirItem, EirModule, EirRawDesign,
};
use syl_elab::eir_facts::EirFactCollector;
use syl_elab::source_cells::OpaqueSummaryTable;
use syl_elab::expr::{EirExpr, EirPlace, EirSelectArm, EirSelectMode};
use syl_elab::facts::EirOrigin;
use syl_elab::guard::Span;
use syl_elab::validate::EirValidator;

#[test]
fn rejects_unsupported_expr_before_collecting_facts() {
    let span = Span::new_in(0, 10, 20);
    let origin = EirOrigin::new(span, Vec::new());
    let module = EirModule::new(
        "Top",
        Vec::new(),
        Vec::new(),
        vec![EirItem::Drive {
            lhs: EirPlace::Ident("y".to_string()),
            rhs: EirExpr::unsupported("test unsupported"),
            reads: Vec::new(),
            origin,
        }],
    );
    let modules = vec![module];

    let error = match EirValidator::new(&modules).validate() {
        Ok(_) => panic!("unsupported EIR expression must be rejected"),
        Err(error) => error,
    };

    assert_eq!(error.span, span);
    assert_eq!(error.kind, DriverError::UnsupportedHardwareValueExpression);
}

#[test]
fn rejects_unsupported_expr_inside_place_projection() {
    let span = Span::new_in(1, 30, 40);
    let origin = EirOrigin::new(span, Vec::new());
    let module = EirModule::new(
        "Top",
        Vec::new(),
        Vec::new(),
        vec![EirItem::ClockedStorage {
            clock: EirExpr::ident("clk"),
            target: EirPlace::Index {
                base: Box::new(EirPlace::Ident("r".to_string())),
                index: EirExpr::unsupported("bad index"),
            },
            reset: None,
            next: EirExpr::ident("r"),
            reads: Vec::new(),
            origin,
        }],
    );
    let modules = vec![module];

    let error = match EirValidator::new(&modules).validate() {
        Ok(_) => panic!("unsupported EIR place index must be rejected"),
        Err(error) => error,
    };

    assert_eq!(error.span, span);
}

#[test]
fn supported_design_validates() {
    let origin = EirOrigin::new(Span::new_in(2, 50, 60), Vec::new());
    let module = EirModule::new(
        "Top",
        Vec::new(),
        Vec::new(),
        vec![EirItem::Drive {
            lhs: EirPlace::Ident("y".to_string()),
            rhs: EirExpr::select(
                EirSelectMode::Priority,
                vec![EirSelectArm::new(EirExpr::ident("en"), EirExpr::ident("x"))],
                EirExpr::HighZ,
            ),
            reads: vec![EirExpr::ident("x")],
            origin,
        }],
    );
    let modules = vec![module];

    assert!(EirValidator::new(&modules).validate().is_ok());
}

#[test]
fn unsupported_expr_in_nested_expansion_is_reported_at_inner_item() {
    let inner_span = Span::new_in(4, 7, 9);
    let module = EirModule::new(
        "Top",
        Vec::new(),
        Vec::new(),
        vec![
            EirItem::StaticParam {
                name: "N".to_string(),
                value: EirExpr::Int(4),
                origin: EirOrigin::new(Span::new_in(4, 0, 1), Vec::new()),
            },
            EirItem::CellExpansion(EirCellExpansion::new(
                "Cell",
                "u0",
                vec![EirItem::InitialError {
                    message: EirExpr::binary(
                        syl_elab::expr::EirBinaryOp::Add,
                        EirExpr::Int(1),
                        EirExpr::unsupported("nested"),
                    ),
                    origin: EirOrigin::new(inner_span, Vec::new()),
                }],
            )),
        ],
    );
    let modules = vec![module];

    let error = EirValidator::new(&modules).validate().unwrap_err();

    assert_eq!(error.span, inner_span);
}

#[test]
fn unsupported_select_arm_guard_is_rejected() {
    let span = Span::new_in(5, 1, 2);
    let module = EirModule::new(
        "Top",
        Vec::new(),
        Vec::new(),
        vec![EirItem::Drive {
            lhs: EirPlace::Ident("y".to_string()),
            rhs: EirExpr::select(
                EirSelectMode::Unique,
                vec![EirSelectArm::new(EirExpr::unsupported("guard"), EirExpr::Int(1))],
                EirExpr::Int(0),
            ),
            reads: Vec::new(),
            origin: EirOrigin::new(span, Vec::new()),
        }],
    );
    let modules = vec![module];

    assert_eq!(EirValidator::new(&modules).validate().unwrap_err().span, span);
}

fn validated_design(modules: Vec<EirModule>) -> Result<EirDesign, DriverDiagnostic> {
    let raw = Arc::new(EirRawDesign::new(modules));
    EirValidator::new(raw.modules()).validate()?;
    let facts = Arc::new(EirFactCollector::collect(raw.modules(), &OpaqueSummaryTable::new())?);
    Ok(EirDesignComposer::compose(raw, facts))
}

#[test]
fn accepts_supported_exprs_and_collects_facts() {
    let span = Span::new_in(2, 50, 60);
    let origin = EirOrigin::new(span, Vec::new());
    let module = EirModule::new(
        "Top",
        Vec::new(),
        Vec::new(),
        vec![EirItem::Drive {
            lhs: EirPlace::Ident("y".to_string()),
            rhs: EirExpr::ident("x"),
            reads: vec![EirExpr::ident("x")],
            origin,
        }],
    );

    let design = match validated_design(vec![module]) {
        Ok(design) => design,
        Err(error) => panic!("supported EIR must validate: {error:?}"),
    };

    assert_eq!(design.drives().len(), 1);
    assert!(matches!(design.drives()[0].kind(), EirDriveKind::Continuous));
    assert!(design.drives()[0].guard().is_root());
    assert_eq!(design.reads().len(), 1);
}
