use std::sync::Arc;
use syl_elab::analyzer::DriverAnalyzer;
use syl_elab::drc::{DriverDiagnostic, DriverError};
use syl_elab::eir::{
    EirDesign, EirDesignComposer, EirDesignFacts, EirDrive, EirDriveInput, EirDriveKind, EirItem,
    EirModule, EirObject, EirObjectInput, EirObjectKind, EirRawDesign, EirRead,
};
use syl_elab::eir_facts::EirFactCollector;
use syl_elab::source_cells::OpaqueSummaryTable;
use syl_elab::validate::EirValidator;
use syl_elab::expr::{EirBound, EirExpr, EirPlace};
use syl_elab::facts::{DriveEffect, EirOrigin, EirSignalActivity};
use syl_elab::guard::{EirGuard, EirGuardFrame, Span};

fn origin() -> EirOrigin {
    EirOrigin::new(Span::new_in(0, 0, 1), Vec::new())
}

fn design(objects: Vec<EirObject>, drives: Vec<EirDrive>, reads: Vec<EirRead>) -> EirDesign {
    EirDesign::from_parts(
        Arc::new(EirRawDesign::new(vec![EirModule::new("Top", Vec::new(), Vec::new(), Vec::new())])),
        Arc::new(EirDesignFacts::new(objects, drives, reads)),
    )
}

fn object(name: &str, width: &str, kind: EirObjectKind, activity: EirSignalActivity) -> EirObject {
    EirObject::new(EirObjectInput {
        module: "Top".to_string(),
        name: name.to_string(),
        width: EirBound::from_source(width),
        kind,
        activity,
        origin: origin(),
    })
}

fn drive(target: EirPlace, kind: EirDriveKind, guard: EirGuard, origin: EirOrigin) -> EirDrive {
    EirDrive::new(EirDriveInput {
        module: "Top".to_string(),
        target,
        kind,
        value: Some(EirExpr::Int(0)),
        guard,
        origin,
    })
}

fn ident(name: &str) -> EirPlace {
    EirPlace::Ident(name.to_string())
}

fn validated_design(modules: Vec<EirModule>) -> Result<EirDesign, DriverDiagnostic> {
    let raw = Arc::new(EirRawDesign::new(modules));
    EirValidator::new(raw.modules()).validate()?;
    let facts = Arc::new(EirFactCollector::collect(raw.modules(), &OpaqueSummaryTable::new())?);
    Ok(EirDesignComposer::compose(raw, facts))
}

#[test]
fn driver_rejects_unresolved_drive_root() {
    let span = Span::new_in(0, 4, 12);
    let origin = EirOrigin::new(span, Vec::new());
    let module = EirModule::new(
        "Top",
        Vec::new(),
        Vec::new(),
        vec![EirItem::Drive {
            lhs: EirPlace::Ident("missing".to_string()),
            rhs: EirExpr::Int(0),
            reads: Vec::new(),
            origin,
        }],
    );
    let design = match validated_design(vec![module]) {
        Ok(design) => design,
        Err(error) => panic!("test EIR should pass structural validation: {error:?}"),
    };

    let errors = match DriverAnalyzer::new(&design).analyze_collect() {
        Ok(_) => panic!("driver analyzer must reject unresolved drive roots"),
        Err(errors) => errors,
    };

    assert_eq!(
        errors[0].kind,
        DriverError::UnknownHardwareObject { module: "Top".to_string(), name: "missing".to_string() }
    );
    assert_eq!(errors[0].span, span);
}

#[test]
fn analyzer_accepts_a_clean_design() {
    let design = design(
        vec![
            object("state", "4", EirObjectKind::Storage, EirSignalActivity::Required),
            object("wire", "4", EirObjectKind::Signal, EirSignalActivity::Required),
        ],
        vec![
            drive(ident("state"), EirDriveKind::Next, EirGuard::root(), origin()),
            drive(ident("wire"), EirDriveKind::Continuous, EirGuard::root(), origin()),
        ],
        vec![EirRead::new("Top", ident("wire"), EirGuard::root(), origin())],
    );

    let facts = match DriverAnalyzer::new(&design).analyze_collect() {
        Ok(facts) => facts,
        Err(errors) => panic!("a clean design must pass: {errors:?}"),
    };

    assert_eq!(facts.drives().len(), 2);
    assert_eq!(facts.drives()[0].target_place().display(), "state.next");
    assert!(matches!(
        facts.drives()[0].effect(),
        DriveEffect::Next { storage_target } if storage_target.display() == "state"
    ));
    assert_eq!(facts.reads().len(), 1);
    assert_eq!(facts.creates().len(), 2);
}

#[test]
fn analyzer_rejects_overlapping_drives() {
    let previous = EirOrigin::new(Span::new_in(1, 10, 11), Vec::new());
    let conflicting = EirOrigin::new(Span::new_in(1, 20, 21), Vec::new());
    let design = design(
        vec![object("wire", "1", EirObjectKind::Signal, EirSignalActivity::Optional)],
        vec![
            drive(ident("wire"), EirDriveKind::Continuous, EirGuard::root(), previous),
            drive(ident("wire"), EirDriveKind::Continuous, EirGuard::root(), conflicting),
        ],
        Vec::new(),
    );

    let errors = DriverAnalyzer::new(&design).analyze_collect().err().expect("conflict must fail");

    assert_eq!(errors.len(), 1);
    assert_eq!(errors[0].kind, DriverError::DuplicateHardwareDriver { name: "wire".to_string() });
    assert_eq!(errors[0].span, Span::new_in(1, 20, 21));
    assert_eq!(errors[0].related[0].0, Span::new_in(1, 10, 11));
    assert_eq!(errors[0].related[0].1, "previous driver claim");
    assert_eq!(errors[0].related[1].1, "conflicting driver claim");
}

#[test]
fn analyzer_accepts_drives_in_opposite_branches() {
    let then_guard = EirGuard::from_frames(&[EirGuardFrame::if_then("sel", Span::new_in(0, 3, 4))]);
    let else_guard = EirGuard::from_frames(&[EirGuardFrame::if_else("sel", Span::new_in(0, 3, 4))]);
    let design = design(
        vec![object("wire", "1", EirObjectKind::Signal, EirSignalActivity::Optional)],
        vec![
            drive(ident("wire"), EirDriveKind::Continuous, then_guard, origin()),
            drive(ident("wire"), EirDriveKind::Continuous, else_guard, origin()),
        ],
        Vec::new(),
    );

    assert!(DriverAnalyzer::new(&design).analyze_collect().is_ok());
}

#[test]
fn analyzer_rejects_next_of_a_signal_and_duplicate_next() {
    let design = design(
        vec![
            object("state", "1", EirObjectKind::Storage, EirSignalActivity::Required),
            object("wire", "1", EirObjectKind::Signal, EirSignalActivity::Optional),
        ],
        vec![
            drive(ident("wire"), EirDriveKind::Next, EirGuard::root(), origin()),
            drive(ident("state"), EirDriveKind::Next, EirGuard::root(), origin()),
            drive(ident("state"), EirDriveKind::Next, EirGuard::root(), origin()),
        ],
        Vec::new(),
    );

    let errors = DriverAnalyzer::new(&design).analyze_collect().err().expect("must fail");

    assert_eq!(errors[0].kind, DriverError::NextTargetIsNotReg { name: "wire".to_string() });
    assert_eq!(errors[1].kind, DriverError::DuplicateNextDriver { name: "state".to_string() });
    assert_eq!(errors[1].related[0].1, "previous next driver claim");
}

#[test]
fn analyze_reports_the_first_diagnostic() {
    let design = design(
        vec![object("sig", "2", EirObjectKind::Signal, EirSignalActivity::Required)],
        vec![drive(ident("ghost"), EirDriveKind::Continuous, EirGuard::root(), origin())],
        Vec::new(),
    );

    let error = DriverAnalyzer::new(&design).analyze().err().expect("must fail");

    assert_eq!(
        error.kind,
        DriverError::UnknownHardwareObject { module: "Top".to_string(), name: "ghost".to_string() }
    );
}

#[test]
fn analyzer_rejects_out_of_bounds_read() {
    let design = design(
        vec![object("word", "4", EirObjectKind::Signal, EirSignalActivity::Optional)],
        vec![drive(ident("word"), EirDriveKind::Continuous, EirGuard::root(), origin())],
        vec![EirRead::new(
            "Top",
            EirPlace::Index { base: Box::new(ident("word")), index: EirExpr::Int(9) },
            EirGuard::root(),
            origin(),
        )],
    );

    let errors = DriverAnalyzer::new(&design).analyze_collect().err().expect("must fail");

    assert!(matches!(&errors[0].kind, DriverError::DriverPlaceOutOfBounds { root, .. } if root == "word"));
}
