use std::sync::Arc;
use syl_elab::collect::DriverFactsCollector;
use syl_elab::drc::{DriverDiagnostic, DriverDrcChecker, DriverError};
use syl_elab::eir::{
    EirDesign, EirDesignComposer, EirDesignFacts, EirDirection, EirDrive, EirDriveInput,
    EirDriveKind, EirItem, EirModule, EirObject, EirObjectInput, EirObjectKind, EirPort,
    EirRawDesign, EirRead,
};
use syl_elab::eir_facts::EirFactCollector;
use syl_elab::source_cells::OpaqueSummaryTable;
use syl_elab::validate::EirValidator;
use syl_elab::expr::{EirBinaryOp, EirBound, EirExpr, EirPlace, EirSelectArm, EirSelectMode, EirUnaryOp};
use syl_elab::facts::{DriveEffect, DriverFacts, EirExpansion, EirOrigin, EirSignalActivity};
use syl_elab::guard::{EirGuard, EirGuardFrame, Span};

fn origin() -> EirOrigin {
    EirOrigin::new(Span::new_in(0, 0, 1), Vec::new())
}

fn design(
    modules: Vec<EirModule>,
    objects: Vec<EirObject>,
    drives: Vec<EirDrive>,
    reads: Vec<EirRead>,
) -> EirDesign {
    EirDesign::from_parts(
        Arc::new(EirRawDesign::new(modules)),
        Arc::new(EirDesignFacts::new(objects, drives, reads)),
    )
}

fn object(name: &str, width: &str, kind: EirObjectKind, activity: EirSignalActivity, origin: EirOrigin) -> EirObject {
    EirObject::new(EirObjectInput {
        module: "Top".to_string(),
        name: name.to_string(),
        width: EirBound::from_source(width),
        kind,
        activity,
        origin,
    })
}

fn drive(target: EirPlace, kind: EirDriveKind, value: Option<EirExpr>, guard: EirGuard, origin: EirOrigin) -> EirDrive {
    EirDrive::new(EirDriveInput {
        module: "Top".to_string(),
        target,
        kind,
        value,
        guard,
        origin,
    })
}

fn tri_drive(target: &str, enable: EirExpr, value: u64) -> EirDrive {
    drive(
        EirPlace::Ident(target.to_string()),
        EirDriveKind::Continuous,
        Some(EirExpr::select(
            EirSelectMode::Priority,
            vec![EirSelectArm::new(enable, EirExpr::Int(value))],
            EirExpr::HighZ,
        )),
        EirGuard::root(),
        origin(),
    )
}

fn top() -> EirModule {
    EirModule::new("Top", Vec::new(), Vec::new(), Vec::new())
}

fn facts_of(design: &EirDesign) -> DriverFacts {
    match DriverFactsCollector::new(design).collect() {
        Ok(facts) => facts,
        Err(errors) => panic!("facts pass should succeed: {errors:?}"),
    }
}

fn has_error(errors: &[DriverDiagnostic], expected: &DriverError) -> bool {
    errors.iter().any(|error| error.kind == *expected)
}

fn validated_design(modules: Vec<EirModule>) -> Result<EirDesign, DriverDiagnostic> {
    let raw = Arc::new(EirRawDesign::new(modules));
    EirValidator::new(raw.modules()).validate()?;
    let facts = Arc::new(EirFactCollector::collect(raw.modules(), &OpaqueSummaryTable::new())?);
    Ok(EirDesignComposer::compose(raw, facts))
}

fn tri_drive_item(target: &str, enable: EirExpr, value: u64) -> EirItem {
    EirItem::Drive {
        lhs: EirPlace::Ident(target.to_string()),
        rhs: EirExpr::select(
            EirSelectMode::Priority,
            vec![EirSelectArm::new(enable, EirExpr::Int(value))],
            EirExpr::HighZ,
        ),
        reads: Vec::new(),
        origin: origin(),
    }
}

fn optional_signal(name: &str) -> EirItem {
    EirItem::Signal {
        width: EirBound::from_source("1"),
        name: name.to_string(),
        activity: EirSignalActivity::Optional,
        origin: origin(),
    }
}

#[test]
fn tristate_drivers_with_opposite_enables_do_not_conflict() {
    let module = EirModule::new(
        "Top",
        Vec::new(),
        Vec::new(),
        vec![
            optional_signal("bus"),
            tri_drive_item("bus", EirExpr::ident("en"), 1),
            tri_drive_item("bus", EirExpr::unary(EirUnaryOp::Not, EirExpr::ident("en")), 0),
        ],
    );
    let design = validated_design(vec![module]).expect("test EIR should assemble");
    let facts = DriverFactsCollector::new(&design).collect().expect("facts pass should succeed");

    DriverDrcChecker::new(&design, &facts)
        .check_collect()
        .expect("opposite tri-state enables must not conflict");
}

#[test]
fn tristate_drivers_with_overlapping_enables_conflict() {
    let module = EirModule::new(
        "Top",
        Vec::new(),
        Vec::new(),
        vec![
            optional_signal("bus"),
            tri_drive_item("bus", EirExpr::ident("en"), 1),
            tri_drive_item(
                "bus",
                EirExpr::binary(EirBinaryOp::AndAnd, EirExpr::ident("en"), EirExpr::ident("grant")),
                0,
            ),
        ],
    );
    let design = validated_design(vec![module]).expect("test EIR should assemble");
    let facts = DriverFactsCollector::new(&design).collect().expect("facts pass should succeed");
    let errors = match DriverDrcChecker::new(&design, &facts).check_collect() {
        Ok(_) => panic!("overlapping tri-state enables must conflict"),
        Err(errors) => errors,
    };

    assert!(has_error(&errors, &DriverError::DuplicateHardwareDriver { name: "bus".to_string() }));
}

#[test]
fn duplicate_driver_keeps_expansion_call_stack_in_related_spans() {
    let call_span = Span::new_in(7, 40, 52);
    let previous_origin = EirOrigin::new(
        Span::new_in(7, 10, 16),
        vec![EirExpansion::new("DoubleDrive", "v", call_span)],
    );
    let conflicting_origin = EirOrigin::new(
        Span::new_in(7, 20, 26),
        vec![EirExpansion::new("DoubleDrive", "v", call_span)],
    );
    let module = EirModule::new(
        "Top",
        Vec::new(),
        Vec::new(),
        vec![
            EirItem::Signal {
                width: EirBound::from_source("1"),
                name: "v".to_string(),
                activity: EirSignalActivity::Required,
                origin: previous_origin.copy(),
            },
            EirItem::Drive {
                lhs: EirPlace::Ident("v".to_string()),
                rhs: EirExpr::Int(0),
                reads: Vec::new(),
                origin: previous_origin,
            },
            EirItem::Drive {
                lhs: EirPlace::Ident("v".to_string()),
                rhs: EirExpr::Int(1),
                reads: Vec::new(),
                origin: conflicting_origin,
            },
        ],
    );
    let design = match validated_design(vec![module]) {
        Ok(design) => design,
        Err(error) => panic!("test EIR should assemble: {error:?}"),
    };
    let facts = facts_of(&design);
    let errors = match DriverDrcChecker::new(&design, &facts).check_collect() {
        Ok(_) => panic!("duplicate driver must fail DRC"),
        Err(errors) => errors,
    };
    let diagnostic = errors
        .iter()
        .find(|error| error.kind == DriverError::DuplicateHardwareDriver { name: "v".to_string() })
        .expect("duplicate hardware driver diagnostic must be present");

    assert!(
        diagnostic.related.iter().any(|(span, _)| *span == call_span),
        "driver conflict diagnostics must include expansion callsite"
    );
    assert!(matches!(facts.drives().first().map(|d| d.guard()), Some(guard) if guard.is_root()));
}

#[test]
fn continuous_drive_to_storage_is_rejected_defensively() {
    let module = EirModule::new(
        "Top",
        Vec::new(),
        Vec::new(),
        vec![
            EirItem::Storage { width: EirBound::from_source("1"), name: "state".to_string(), origin: origin() },
            EirItem::Drive {
                lhs: EirPlace::Ident("state".to_string()),
                rhs: EirExpr::Int(0),
                reads: Vec::new(),
                origin: origin(),
            },
        ],
    );
    let design = validated_design(vec![module]).expect("test EIR should assemble");
    let facts = DriverFactsCollector::new(&design).collect().expect("facts pass should succeed");
    let errors = match DriverDrcChecker::new(&design, &facts).check_collect() {
        Ok(_) => panic!("continuous drive to storage must fail DRC"),
        Err(errors) => errors,
    };

    assert!(has_error(&errors, &DriverError::ContinuousDriveTargetIsReg { name: "state".to_string() }));
}

#[test]
fn facts_rejects_unresolved_drive_root() {
    let span = Span::new_in(0, 4, 12);
    let origin = EirOrigin::new(span, Vec::new());
    let module = EirModule::new(
        "Top",
        Vec::new(),
        Vec::new(),
        vec![EirItem::Drive {
            lhs: EirPlace::Ident("missing".to_string()),
            rhs: EirExpr::Int(0),
            reads: Vec::new(),
            origin,
        }],
    );
    let design = match validated_design(vec![module]) {
        Ok(design) => design,
        Err(error) => panic!("test EIR should pass structural validation: {error:?}"),
    };

    let errors = match DriverFactsCollector::new(&design).collect() {
        Ok(_) => panic!("driver facts pass must reject unresolved drive roots"),
        Err(errors) => errors,
    };

    assert_eq!(
        errors[0].kind,
        DriverError::UnknownHardwareObject { module: "Top".to_string(), name: "missing".to_string() }
    );
    assert_eq!(errors[0].span, span);
}

#[test]
fn next_drive_facts_keep_effect_summary_separate_from_target_name() {
    let span = Span::new_in(1, 20, 30);
    let origin = EirOrigin::new(span, Vec::new());
    let module = EirModule::new(
        "Top",
        Vec::new(),
        Vec::new(),
        vec![
            EirItem::Storage { width: EirBound::from_source("1"), name: "state".to_string(), origin: origin.copy() },
            EirItem::ClockedStorage {
                clock: EirExpr::ident("clk"),
                target: EirPlace::Ident("state".to_string()),
                reset: None,
                next: EirExpr::Int(0),
                reads: Vec::new(),
                origin,
            },
        ],
    );
    let design = match validated_design(vec![module]) {
        Ok(design) => design,
        Err(error) => panic!("test EIR should assemble: {error:?}"),
    };

    let facts = facts_of(&design);
    let drive = facts.drives().first().expect("clocked storage must produce a drive fact");

    assert_eq!(drive.target_place().display(), "state.next");
    assert!(matches!(
        drive.effect(),
        DriveEffect::Next { storage_target } if storage_target.display() == "state"
    ));
}

#[test]
fn next_drive_of_storage_passes_the_checks() {
    let origin = EirOrigin::new(Span::new_in(1, 20, 30), Vec::new());
    let design = design(
        vec![top()],
        vec![object("state", "1", EirObjectKind::Storage, EirSignalActivity::Required, origin.copy())],
        vec![drive(EirPlace::Ident("state".to_string()), EirDriveKind::Next, None, EirGuard::root(), origin)],
        Vec::new(),
    );
    let facts = facts_of(&design);
    let report = match DriverDrcChecker::new(&design, &facts).check_collect() {
        Ok(report) => report,
        Err(errors) => panic!("a single next drive of storage is clean: {errors:?}"),
    };

    assert_eq!(report.module_count(), 1);
    assert_eq!(report.drive_count(), 1);
    assert_eq!(report.read_count(), 0);
    assert_eq!(report.create_count(), 1);
}

#[test]
fn duplicate_next_drive_is_rejected() {
    let design = design(
        vec![top()],
        vec![object("state", "1", EirObjectKind::Storage, EirSignalActivity::Required, origin())],
        vec![
            drive(EirPlace::Ident("state".to_string()), EirDriveKind::Next, None, EirGuard::root(), origin()),
            drive(EirPlace::Ident("state".to_string()), EirDriveKind::Next, None, EirGuard::root(), origin()),
        ],
        Vec::new(),
    );
    let facts = facts_of(&design);
    let errors = DriverDrcChecker::new(&design, &facts).check_collect().unwrap_err();

    assert!(has_error(&errors, &DriverError::DuplicateNextDriver { name: "state".to_string() }));
}

#[test]
fn next_drive_of_a_signal_is_rejected() {
    let design = design(
        vec![top()],
        vec![object("wire", "1", EirObjectKind::Signal, EirSignalActivity::Optional, origin())],
        vec![drive(EirPlace::Ident("wire".to_string()), EirDriveKind::Next, None, EirGuard::root(), origin())],
        Vec::new(),
    );
    let facts = facts_of(&design);
    let errors = DriverDrcChecker::new(&design, &facts).check_collect().unwrap_err();

    assert!(has_error(&errors, &DriverError::NextTargetIsNotReg { name: "wire".to_string() }));
}

#[test]
fn out_of_bounds_index_is_rejected() {
    let design = design(
        vec![top()],
        vec![object("word", "4", EirObjectKind::Signal, EirSignalActivity::Optional, origin())],
        vec![drive(
            EirPlace::Index { base: Box::new(EirPlace::Ident("word".to_string())), index: EirExpr::Int(7) },
            EirDriveKind::Continuous,
            Some(EirExpr::Int(1)),
            EirGuard::root(),
            origin(),
        )],
        Vec::new(),
    );
    let facts = facts_of(&design);
    let errors = DriverDrcChecker::new(&design, &facts).check_collect().unwrap_err();

    assert!(errors.iter().any(|e| matches!(&e.kind, DriverError::DriverPlaceOutOfBounds { root, .. } if root == "word")));
}

#[test]
fn undriven_output_port_is_reported() {
    let module = EirModule::new(
        "Top",
        Vec::new(),
        vec![EirPort::new(EirDirection::Out, EirBound::from_source("4"), "out", origin())],
        Vec::new(),
    );
    let design = design(
        vec![module],
        Vec::new(),
        vec![drive(
            EirPlace::Index { base: Box::new(EirPlace::Ident("out".to_string())), index: EirExpr::Int(0) },
            EirDriveKind::Continuous,
            Some(EirExpr::Int(1)),
            EirGuard::root(),
            origin(),
        )],
        Vec::new(),
    );
    let facts = facts_of(&design);
    let errors = DriverDrcChecker::new(&design, &facts).check_collect().unwrap_err();

    assert!(has_error(&errors, &DriverError::UndrivenOut { name: "out".to_string() }));
}

#[test]
fn output_port_driven_in_both_branches_is_complete() {
    let module = EirModule::new(
        "Top",
        Vec::new(),
        vec![EirPort::new(EirDirection::Out, EirBound::from_source("2"), "out", origin())],
        Vec::new(),
    );
    let then_guard = EirGuard::from_frames(&[EirGuardFrame::if_then("sel", Span::new_in(0, 5, 6))]);
    let else_guard = EirGuard::from_frames(&[EirGuardFrame::if_else("sel", Span::new_in(0, 5, 6))]);
    let design = design(
        vec![module],
        Vec::new(),
        vec![
            drive(EirPlace::Ident("out".to_string()), EirDriveKind::Continuous, Some(EirExpr::Int(1)), then_guard, origin()),
            drive(EirPlace::Ident("out".to_string()), EirDriveKind::Continuous, Some(EirExpr::Int(2)), else_guard, origin()),
        ],
        Vec::new(),
    );
    let facts = facts_of(&design);

    assert!(DriverDrcChecker::new(&design, &facts).check_collect().is_ok());
}

#[test]
fn output_port_of_extern_module_needs_no_driver() {
    let module = EirModule::new_extern(
        "Vendor",
        Vec::new(),
        vec![EirPort::new(EirDirection::Out, EirBound::from_source("1"), "out", origin())],
    );
    let design = design(vec![module], Vec::new(), Vec::new(), Vec::new());
    let facts = facts_of(&design);

    assert!(DriverDrcChecker::new(&design, &facts).check_collect().is_ok());
}

#[test]
fn required_signal_without_driver_is_reported() {
    let design = design(
        vec![top()],
        vec![object("sig", "8", EirObjectKind::Signal, EirSignalActivity::Required, origin())],
        Vec::new(),
        Vec::new(),
    );
    let facts = facts_of(&design);
    let errors = DriverDrcChecker::new(&design, &facts).check_collect().unwrap_err();

    assert_eq!(errors.len(), 1);
    assert_eq!(errors[0].kind, DriverError::UndrivenSignal { name: "sig".to_string() });
}

#[test]
fn read_of_undriven_signal_is_reported() {
    let design = design(
        vec![top()],
        vec![object("sig", "8", EirObjectKind::Signal, EirSignalActivity::Optional, origin())],
        Vec::new(),
        vec![EirRead::new("Top", EirPlace::Ident("sig".to_string()), EirGuard::root(), origin())],
    );
    let facts = facts_of(&design);
    let errors = DriverDrcChecker::new(&design, &facts).check_collect().unwrap_err();

    assert_eq!(errors.len(), 1);
    assert_eq!(errors[0].kind, DriverError::UndrivenRead { name: "sig".to_string() });
}

#[test]
fn unresolved_read_source_is_reported() {
    let span = Span::new_in(2, 3, 9);
    let design = design(
        vec![top()],
        Vec::new(),
        Vec::new(),
        vec![EirRead::new("Top", EirPlace::Ident("ghost".to_string()), EirGuard::root(), EirOrigin::new(span, Vec::new()))],
    );
    let errors = match DriverFactsCollector::new(&design).collect() {
        Ok(_) => panic!("the facts pass must reject the place"),
        Err(errors) => errors,
    };

    assert_eq!(
        errors[0].kind,
        DriverError::UnknownHardwareObject { module: "Top".to_string(), name: "ghost".to_string() }
    );
    assert_eq!(errors[0].span, span);
}

#[test]
fn unsupported_index_in_drive_target_is_reported() {
    let design = design(
        vec![top()],
        vec![object("word", "4", EirObjectKind::Signal, EirSignalActivity::Optional, origin())],
        vec![drive(
            EirPlace::Index {
                base: Box::new(EirPlace::Ident("word".to_string())),
                index: EirExpr::unsupported("bad index"),
            },
            EirDriveKind::Continuous,
            Some(EirExpr::Int(1)),
            EirGuard::root(),
            origin(),
        )],
        Vec::new(),
    );
    let errors = match DriverFactsCollector::new(&design).collect() {
        Ok(_) => panic!("the facts pass must reject the place"),
        Err(errors) => errors,
    };

    assert_eq!(errors[0].kind, DriverError::UnsupportedHardwareValueExpression);
}
